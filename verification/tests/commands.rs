use historypwd::path::FsPath;
use historypwd::tokens::scan_tokens;
use historypwd::tokens::TokenScanner;
use historypwd::words::changes_directory;
use historypwd::words::infer_post_cwd;
use historypwd::words::is_pushd_stack_reference;
use historypwd::words::should_skip_word;

#[test]
fn scans_quoted_and_escaped_tokens() {
    assert_eq!(
        scan_tokens("vim 'space dir' two\\ words \"double quoted\" a;b && c"),
        vec![
            "vim",
            "space dir",
            "two words",
            "double quoted",
            "a",
            "b",
            "c"
        ]
    );
}

#[test]
fn separators_divide_words() {
    assert_eq!(scan_tokens("a\tb\nc\rd;e|f&g h"), vec!["a", "b", "c", "d", "e", "f", "g", "h"]);
    assert_eq!(scan_tokens("a&&b||c &&& d"), vec!["a", "b", "c", "d"]);
    assert_eq!(scan_tokens("  ;; && "), Vec::<String>::new());
    assert_eq!(scan_tokens(""), Vec::<String>::new());
    assert_eq!(scan_tokens("''\"\" x"), vec!["x"]);
}

#[test]
fn quotes_take_meaning_away() {
    assert_eq!(scan_tokens("'a\\b;c'"), vec!["a\\b;c"]);
    assert_eq!(scan_tokens("\"a'b\\\"c\\\\d\""), vec!["a'b\"c\\d"]);
    assert_eq!(scan_tokens("x'y z'w"), vec!["xy zw"]);
    assert_eq!(scan_tokens("a\\"), vec!["a"]);
    assert_eq!(scan_tokens("\"a\\"), vec!["a"]);
    assert_eq!(scan_tokens("'open end"), vec!["open end"]);
    assert_eq!(scan_tokens("\\'a\\;b\\&"), vec!["'a;b&"]);
}

#[test]
fn quoted_words_are_scanned_back() {
    for word in ["plain", "two words", "a;b|c&d", "back\\slash", "quote\"s", "it's", "\u{e9} \u{4e16}"] {
        let escaped: String = word.chars().flat_map(|c| ['\\', c]).collect();
        assert_eq!(scan_tokens(&format!("x {escaped} y")), vec!["x", word, "y"]);
        if !word.contains('\'') {
            assert_eq!(scan_tokens(&format!("x|'{word}'|y")), vec!["x", word, "y"]);
        }
        if !word.contains('"') && !word.contains('\\') {
            assert_eq!(scan_tokens(&format!("x\t\"{word}\"\ty")), vec!["x", word, "y"]);
        }
    }
}

#[test]
fn a_scanner_gives_one_word_after_the_other() {
    let mut scanner = TokenScanner::new("cd  'a b' ;");
    assert_eq!(scanner.next(), Some("cd".to_string()));
    assert_eq!(scanner.next(), Some("a b".to_string()));
    assert_eq!(scanner.next(), None);
    assert_eq!(scanner.next(), None);
}

#[test]
fn words_that_are_no_paths_are_skipped() {
    for word in [
        "", "-", "-l", "--all", "$(pwd)", "a`b", "<(x)", ">(x)", "http://x", "me@host:dir", "A=b", "x/A=b",
        ":a@b",
    ] {
        assert!(should_skip_word(word), "{word:?}");
    }
    for word in [
        "a", "./a=b", "../a=b", "/a=b", "~/a=b", "~a=b", "a-b", "$x", "me@host", "a:b", "..", "(a)", "<a",
    ] {
        assert!(!should_skip_word(word), "{word:?}");
    }
}

#[test]
fn stack_references_are_a_sign_and_digits() {
    for word in ["+0", "-1", "+12"] {
        assert!(is_pushd_stack_reference(word), "{word:?}");
    }
    for word in ["", "+", "-", "1", "+a", "+1a", "++1", "+\u{663}"] {
        assert!(!is_pushd_stack_reference(word), "{word:?}");
    }
}

#[test]
fn only_cd_and_pushd_change_the_directory() {
    assert!(changes_directory("cd"));
    assert!(changes_directory("pushd"));
    assert!(!changes_directory("cdx"));
    assert!(!changes_directory("popd"));
    assert!(!changes_directory(""));
}

#[test]
fn the_directory_after_a_command_is_inferred() {
    let after = |command: &str| {
        infer_post_cwd(
            &FsPath::from_text("/cwd"),
            &scan_tokens(command),
            &FsPath::from_text("/home/me"),
        )
        .map(|path| String::from_utf8(path.bytes).unwrap())
    };
    assert_eq!(after("cd"), Some("/home/me".to_string()));
    assert_eq!(after("cd ~"), Some("/home/me".to_string()));
    assert_eq!(after("cd ~/x"), Some("/home/me/x".to_string()));
    assert_eq!(after("cd ~you"), None);
    assert_eq!(after("cd -"), None);
    assert_eq!(after("cd -- -x"), Some("/home/me".to_string()));
    assert_eq!(after("cd -P -- sub"), Some("/cwd/sub".to_string()));
    assert_eq!(after("cd /etc && ls"), Some("/etc".to_string()));
    assert_eq!(after("cd +1"), Some("/cwd/+1".to_string()));
    assert_eq!(after("cd -1"), Some("/home/me".to_string()));
    assert_eq!(after("pushd"), None);
    assert_eq!(after("pushd -q"), None);
    assert_eq!(after("pushd -2"), None);
    assert_eq!(after("pushd sub"), Some("/cwd/sub".to_string()));
    assert_eq!(after("ls sub"), None);
    assert_eq!(after(""), None);
    assert_eq!(
        infer_post_cwd(
            &FsPath::from_text("/cwd"),
            &["cd".to_string(), String::new()],
            &FsPath::from_text("/home/me"),
        )
        .map(|path| path.bytes),
        Some(b"/home/me".to_vec())
    );
}
