use historypwd::colors::Indicator;
use historypwd::config::default_pwdlog_file;
use historypwd::config::home_dir;
use historypwd::config::working_dir;
use historypwd::config::Config;
use historypwd::config::ConfigError;
use historypwd::config::Environment;
use historypwd::config::Kind;
use historypwd::number::env_usize;
use historypwd::path::FsPath;

fn path(text: &str) -> FsPath {
    FsPath::from_text(text)
}

fn text(path: &FsPath) -> String {
    String::from_utf8(path.bytes.clone()).unwrap()
}

fn args(line: &str) -> Vec<String> {
    line.split_whitespace().map(str::to_string).collect()
}

fn environment() -> Environment {
    Environment {
        lines: None,
        max_candidates: None,
        pwdlog_file: None,
        histfile: Some(path("/home/me/.zsh_history")),
        home: Some(path("/home/me")),
        pwd: Some(path("/work/./x")),
        current_dir: Some(path("/cur")),
        canonical_home: None,
        canonical_pwd: None,
        ls_colors: Some("di=35".to_string()),
    }
}

#[test]
fn defaults_stand_in() {
    let config = Config::from_env(&args("path"), &environment()).unwrap();
    assert_eq!(config.kind, Kind::Path);
    assert_eq!(config.dir, ".");
    assert_eq!(config.leftover, "");
    assert_eq!(config.display_prefix, ".");
    assert_eq!(config.lines_limit, 3000);
    assert_eq!(config.max_candidates, 3000);
    assert_eq!(text(&config.pwdlog_file), "/home/me/.zsh_history_pwd");
    assert_eq!(text(&config.home), "/home/me");
    assert_eq!(text(&config.pwd), "/work/x");
    assert_eq!(config.current_dir.map(|p| text(&p)), Some("/cur".to_string()));
    assert!(config.ls_colors.is_none());
}

#[test]
fn arguments_and_environment_set_values() {
    let mut env = environment();
    env.lines = Some("7".to_string());
    env.max_candidates = Some("+8".to_string());
    env.pwdlog_file = Some(path("log"));
    env.canonical_home = Some(path("/real/home"));
    env.canonical_pwd = Some(path("/real/pwd"));
    let config = Config::from_env(&args("dir src ma ./src rest"), &env).unwrap();
    assert_eq!(config.kind, Kind::Dir);
    assert_eq!(config.dir, "src");
    assert_eq!(config.leftover, "ma");
    assert_eq!(config.display_prefix, "./src");
    assert_eq!(config.lines_limit, 7);
    assert_eq!(config.max_candidates, 8);
    assert_eq!(text(&config.pwdlog_file), "log");
    assert_eq!(text(&config.home), "/real/home");
    assert_eq!(text(&config.pwd), "/real/pwd");
    let config = Config::from_env(&args("dir src ma"), &env).unwrap();
    assert_eq!(config.display_prefix, "src");
}

#[test]
fn the_colour_flag_may_stand_anywhere() {
    for line in ["-c path a b c", "path --color a b c", "path a b -c c", "-c path a b c --color"] {
        let config = Config::from_env(&args(line), &environment()).unwrap();
        assert_eq!(config.dir, "a", "{line}");
        assert_eq!(config.leftover, "b", "{line}");
        assert_eq!(config.display_prefix, "c", "{line}");
        let colors = config.ls_colors.unwrap();
        assert_eq!(colors.style_for_indicator(Indicator::Directory), Some("35"), "{line}");
    }
    let mut env = environment();
    env.ls_colors = None;
    let config = Config::from_env(&args("path -c"), &env).unwrap();
    assert_eq!(
        config.ls_colors.unwrap().style_for_indicator(Indicator::Directory),
        Some("1;34")
    );
}

#[test]
fn a_kind_is_needed() {
    assert!(matches!(Config::from_env(&[], &environment()), Err(ConfigError::Usage)));
    assert!(matches!(Config::from_env(&args("-c"), &environment()), Err(ConfigError::Usage)));
    match Config::from_env(&args("paths dir"), &environment()) {
        Err(ConfigError::InvalidKind(kind)) => assert_eq!(kind, "paths"),
        other => panic!("{other:?}"),
    }
    match Config::from_env(&["".to_string()], &environment()) {
        Err(ConfigError::InvalidKind(kind)) => assert_eq!(kind, ""),
        other => panic!("{other:?}"),
    }
}

#[test]
fn a_log_is_needed() {
    let mut env = environment();
    env.histfile = None;
    assert!(matches!(Config::from_env(&args("path"), &env), Err(ConfigError::NoLog)));
    assert!(matches!(Config::from_env(&args("x"), &env), Err(ConfigError::InvalidKind(_))));
    env.pwdlog_file = Some(path(""));
    assert!(Config::from_env(&args("path"), &env).is_ok());
}

#[test]
fn the_log_stands_beside_the_history() {
    let beside = |histfile: &str| default_pwdlog_file(Some(&path(histfile))).map(|p| text(&p));
    assert_eq!(beside("/a/b/hist"), Some("/a/b/.zsh_history_pwd".to_string()));
    assert_eq!(beside("hist"), Some(".zsh_history_pwd".to_string()));
    assert_eq!(beside("/"), Some("/.zsh_history_pwd".to_string()));
    assert_eq!(beside(""), Some(".zsh_history_pwd".to_string()));
    assert!(default_pwdlog_file(None).is_none());
}

#[test]
fn directories_have_stand_ins() {
    assert_eq!(text(&home_dir(Some(&path("/h")))), "/h");
    assert_eq!(text(&home_dir(None)), "");
    assert_eq!(text(&working_dir(Some(&path("/p")), Some(&path("/c")))), "/p");
    assert_eq!(text(&working_dir(None, Some(&path("/c")))), "/c");
    assert_eq!(text(&working_dir(None, None)), ".");
    let mut env = environment();
    env.home = None;
    env.pwd = None;
    let config = Config::from_env(&args("path"), &env).unwrap();
    assert_eq!(text(&config.home), "/cur");
    assert_eq!(text(&config.pwd), "/cur");
}

#[test]
fn limits_are_numbers_or_the_default() {
    assert_eq!(env_usize(Some("12"), 3000), 12);
    assert_eq!(env_usize(Some("+12"), 3000), 12);
    assert_eq!(env_usize(Some("0"), 3000), 0);
    assert_eq!(env_usize(Some(&usize::MAX.to_string()), 3000), usize::MAX);
    for value in ["", "-1", "x", "1x", "99999999999999999999999"] {
        assert_eq!(env_usize(Some(value), 3000), 3000, "{value:?}");
    }
    assert_eq!(env_usize(None, 5), 5);
}
