use historypwd::colors::ends_with_ignore_ascii_case;
use historypwd::colors::indicator_for;
use historypwd::colors::Indicator;
use historypwd::colors::LsColors;
use historypwd::files::Candidate;
use historypwd::files::Entry;
use historypwd::files::FileKind;
use historypwd::files::Metadata;
use historypwd::number::parse_number;
use historypwd::number::to_decimal;
use historypwd::paint::add_intermediate_separators;
use historypwd::paint::ancestor_paths;
use historypwd::paint::append_styled_component;
use historypwd::paint::component_base_path;
use historypwd::paint::display_components;
use historypwd::paint::normal_display_components;
use historypwd::paint::ComponentPart;
use historypwd::path::FsPath;
use historypwd::style::normalize_ls_color_style;
use historypwd::style::parse_extended_color;
use historypwd::style::parse_sgr_code;

fn path(text: &str) -> FsPath {
    FsPath::from_text(text)
}

fn entry(kind: FileKind, mode: u32) -> Option<Entry> {
    Some(Entry { metadata: Metadata { kind, mode }, target: None })
}

fn text(path: &FsPath) -> String {
    String::from_utf8(path.bytes.clone()).unwrap()
}

#[test]
fn emits_ls_colors_style() {
    let dir = path("/tmp/historypwd-test/dir");
    let colors = LsColors::new(Some("di=34;01:*.txt=32"));
    assert_eq!(
        colors.colorize("dir", &dir, true, entry(FileKind::Directory, 0o40755), &[]),
        "\x1b[1;34mdir\x1b[0m/"
    );
    let file = path("/tmp/historypwd-test/file.txt");
    assert_eq!(
        colors.colorize("file.txt", &file, false, entry(FileKind::Regular, 0o100644), &[]),
        "\x1b[32mfile.txt\x1b[0m"
    );
    assert_eq!(
        colors.colorize("FILE.TXT", &file, false, entry(FileKind::Regular, 0o100644), &[]),
        "\x1b[32mFILE.TXT\x1b[0m"
    );
}

#[test]
fn emits_sticky_other_writable_directory_style_with_directory_fallback() {
    let dir = path("/tmp/historypwd-test/shared");
    let shared = entry(FileKind::Directory, 0o41777);
    let colors = LsColors::new(Some("tw=30;42:di=35"));
    assert_eq!(
        colors.colorize("shared", &dir, true, shared, &[]),
        "\x1b[42;30mshared\x1b[0m/"
    );

    let fallback_colors = LsColors::new(Some("tw=0:di=35"));
    assert_eq!(
        fallback_colors.colorize("shared", &dir, true, shared, &[]),
        "\x1b[35mshared\x1b[0m/"
    );
}

#[test]
fn emits_orange_for_missing_path_colorization() {
    let colors = LsColors::new(Some("ln=36"));
    assert_eq!(
        colors.colorize("missing", &path("/tmp/historypwd-test/missing"), false, None, &[]),
        "\x1b[38;2;255;165;0mmissing\x1b[0m"
    );
}

#[test]
fn keys_name_indicators() {
    let known = [
        ("no", Indicator::Normal),
        ("fi", Indicator::Regular),
        ("di", Indicator::Directory),
        ("ln", Indicator::Symlink),
        ("pi", Indicator::Fifo),
        ("so", Indicator::Socket),
        ("bd", Indicator::Block),
        ("cd", Indicator::Char),
        ("st", Indicator::Sticky),
        ("ow", Indicator::OtherWritable),
        ("tw", Indicator::StickyOtherWritable),
        ("or", Indicator::Orphan),
        ("ex", Indicator::Executable),
        ("mi", Indicator::Missing),
    ];
    for (key, indicator) in known {
        assert_eq!(Indicator::from_key(key), Some(indicator));
        let colors = LsColors::new(Some(&format!("no=1:fi=2:di=3:ln=4:{key}=97")));
        assert_eq!(colors.style_for_indicator(indicator), Some("97"), "{key}");
    }
    for key in ["", "d", "dir", "DI", "rs", "lc", "su"] {
        assert_eq!(Indicator::from_key(key), None, "{key}");
    }
}

#[test]
fn the_default_scheme_has_its_styles() {
    let colors = LsColors::new(None);
    let style = |indicator: Indicator| colors.style_for_indicator(indicator).map(str::to_string);
    assert_eq!(style(Indicator::Executable), Some("1;32".to_string()));
    assert_eq!(style(Indicator::Directory), Some("1;34".to_string()));
    assert_eq!(style(Indicator::Sticky), Some("44;37".to_string()));
    assert_eq!(style(Indicator::OtherWritable), Some("42;34".to_string()));
    assert_eq!(style(Indicator::StickyOtherWritable), Some("42;30".to_string()));
    assert_eq!(style(Indicator::Symlink), Some("1;36".to_string()));
    assert_eq!(style(Indicator::Orphan), Some("1;36".to_string()));
    assert_eq!(style(Indicator::Block), Some("1;33".to_string()));
    assert_eq!(style(Indicator::Char), Some("1;33".to_string()));
    assert_eq!(style(Indicator::Fifo), Some("33".to_string()));
    assert_eq!(style(Indicator::Socket), Some("1;35".to_string()));
    assert_eq!(style(Indicator::Regular), None);
    assert_eq!(style(Indicator::Normal), None);
}

#[test]
fn missing_styles_fall_back() {
    let colors = LsColors::new(Some("ex=:fi=90:st=00:ow=0:tw=0:di=91:or=0:ln=92"));
    assert_eq!(colors.style_for_indicator(Indicator::Executable), Some("90"));
    assert_eq!(colors.style_for_indicator(Indicator::Sticky), Some("91"));
    assert_eq!(colors.style_for_indicator(Indicator::OtherWritable), Some("91"));
    assert_eq!(colors.style_for_indicator(Indicator::StickyOtherWritable), Some("91"));
    assert_eq!(colors.style_for_indicator(Indicator::Orphan), Some("92"));
    let colors = LsColors::new(Some("pi=0:no=93"));
    assert_eq!(colors.style_for_indicator(Indicator::Fifo), Some("93"));
    assert_eq!(colors.style_for_indicator(Indicator::Regular), Some("93"));
}

#[test]
fn later_entries_count() {
    let colors = LsColors::new(Some("di=31:di=32:noise:=x:zz=1:*.c=33:*.C=34:*=95"));
    assert_eq!(colors.style_for_indicator(Indicator::Directory), Some("32"));
    assert_eq!(colors.style_for_suffix("main.c"), Some("95"));
    let colors = LsColors::new(Some("*.c=33:*.c=34:*.h=35"));
    assert_eq!(colors.style_for_suffix("a.c"), Some("34"));
    assert_eq!(colors.style_for_suffix("a.h"), Some("35"));
    assert_eq!(colors.style_for_suffix("a.d"), None);
}

#[test]
fn cleared_suffixes_are_gone() {
    let mut colors = LsColors::new(Some("*.c=33:*.h=35:*.c=34"));
    colors.add_from_string("*.c=0");
    assert_eq!(colors.style_for_suffix("a.c"), None);
    assert_eq!(colors.style_for_suffix("a.h"), Some("35"));
    colors.add_from_string("*.h=00:*.c=36=1");
    assert_eq!(colors.style_for_suffix("a.h"), None);
    assert_eq!(colors.style_for_suffix("a.c"), Some("36=1"));
}

#[test]
fn values_add_up() {
    let mut twice = LsColors::new(Some("di=31:*.c=33"));
    twice.add_from_string("di=0:*.c=34:ln=4");
    let once = LsColors::new(Some("di=31:*.c=33:di=0:*.c=34:ln=4"));
    for indicator in [Indicator::Directory, Indicator::Symlink, Indicator::Sticky] {
        assert_eq!(twice.style_for_indicator(indicator), once.style_for_indicator(indicator));
    }
    assert_eq!(twice.style_for_suffix("x.c"), once.style_for_suffix("x.c"));
}

#[test]
fn the_case_of_ascii_letters_is_left_aside() {
    assert!(ends_with_ignore_ascii_case("a.TXT", ".txt"));
    assert!(ends_with_ignore_ascii_case("a.txt", ".TXT"));
    assert!(ends_with_ignore_ascii_case("a", ""));
    assert!(!ends_with_ignore_ascii_case("txt", ".txt"));
    assert!(!ends_with_ignore_ascii_case("a.tx", ".txt"));
    assert!(!ends_with_ignore_ascii_case("\u{c9}", "\u{e9}"));
    assert!(ends_with_ignore_ascii_case("h\u{e9}", "\u{e9}"));
    assert!(!ends_with_ignore_ascii_case("[", "{"));
    assert!(!ends_with_ignore_ascii_case("@", "`"));
}

#[test]
fn entries_have_indicators() {
    let of = |kind: FileKind, mode: u32, exists: Option<bool>| {
        indicator_for(Some(&Metadata { kind, mode }), exists)
    };
    assert_eq!(of(FileKind::Directory, 0o755, None), Indicator::Directory);
    assert_eq!(of(FileKind::Directory, 0o1755, None), Indicator::Sticky);
    assert_eq!(of(FileKind::Directory, 0o777, None), Indicator::OtherWritable);
    assert_eq!(of(FileKind::Directory, 0o1777, None), Indicator::StickyOtherWritable);
    assert_eq!(of(FileKind::Symlink, 0o777, Some(true)), Indicator::Symlink);
    assert_eq!(of(FileKind::Symlink, 0o777, Some(false)), Indicator::Orphan);
    assert_eq!(of(FileKind::Symlink, 0o777, None), Indicator::Orphan);
    assert_eq!(of(FileKind::Regular, 0o644, None), Indicator::Regular);
    for mode in [0o100, 0o010, 0o001] {
        assert_eq!(of(FileKind::Regular, mode, None), Indicator::Executable);
    }
    assert_eq!(of(FileKind::Fifo, 0, None), Indicator::Fifo);
    assert_eq!(of(FileKind::Socket, 0, None), Indicator::Socket);
    assert_eq!(of(FileKind::Block, 0, None), Indicator::Block);
    assert_eq!(of(FileKind::Char, 0, None), Indicator::Char);
    assert_eq!(of(FileKind::Unknown, 0, None), Indicator::Missing);
    assert_eq!(indicator_for(None, Some(true)), Indicator::Missing);
}

#[test]
fn suffixes_colour_regular_files_with_names_that_are_text() {
    let colors = LsColors::new(Some("fi=90:*.c=33:ex=91:*\u{fffd}.c=36"));
    let regular = Metadata { kind: FileKind::Regular, mode: 0o644 };
    let program = Metadata { kind: FileKind::Regular, mode: 0o755 };
    assert_eq!(colors.style_for_metadata(&path("/a/b.c"), Some(&regular), None), Some("33"));
    assert_eq!(colors.style_for_metadata(&path("/a/b.c"), Some(&program), None), Some("91"));
    assert_eq!(colors.style_for_metadata(&path("/a/b.d"), Some(&regular), None), Some("90"));
    assert_eq!(colors.style_for_metadata(&path("/a.c/.."), Some(&regular), None), Some("90"));
    assert_eq!(
        colors.style_for_metadata(&FsPath::from_bytes(b"/a/\xff.c"), Some(&regular), None),
        Some("90")
    );
    assert_eq!(
        colors.style_for_metadata(&path("/a/b.c"), None, None),
        Some("38;2;255;165;0")
    );
}

#[test]
fn candidates_know_what_they_lead_to() {
    let dir = Metadata { kind: FileKind::Directory, mode: 0o755 };
    let link = Metadata { kind: FileKind::Symlink, mode: 0o777 };
    let candidate = |metadata: Metadata, target: Option<Metadata>| {
        let found = Candidate::from_path(path("/x"), Some(Entry { metadata, target })).unwrap();
        assert_eq!(text(&found.path), "/x");
        assert_eq!(found.metadata, metadata);
        (found.symlink_target_exists, found.is_dir)
    };
    assert_eq!(candidate(dir, None), (None, true));
    assert_eq!(candidate(link, Some(dir)), (Some(true), true));
    assert_eq!(candidate(link, Some(link)), (Some(true), false));
    assert_eq!(candidate(link, None), (Some(false), false));
    assert!(Candidate::from_path(path("/x"), None).is_none());
}

#[test]
fn styles_are_brought_into_normal_order() {
    let cases = [
        ("01;34", "1;34"),
        ("34;01", "1;34"),
        ("30;42", "42;30"),
        ("4;1;3", "1;3;4"),
        ("6", "5"),
        ("1;0;4", "4"),
        ("31;32", "32"),
        ("41;42;103", "103"),
        ("38;5;208", "38;5;208"),
        ("48;2;1;2;3;38;5;7;1", "1;48;2;1;2;3;38;5;7"),
        ("38;5", "5;38"),
        ("38;2;1;2", "1;2;38"),
        ("38;9", "9;38"),
        ("38;x", "38;x"),
        ("53;x;10", "53;x;10"),
        ("+7;007;097", "7;97"),
        ("65535;65536", "65535;65536"),
        ("", ""),
        (";", ";"),
        ("0", ""),
    ];
    for (style, expected) in cases {
        assert_eq!(normalize_ls_color_style(style), expected, "{style:?}");
        assert_eq!(normalize_ls_color_style(expected), expected, "{style:?}");
    }
}

#[test]
fn codes_are_numbers() {
    assert_eq!(parse_sgr_code("0"), Some(0));
    assert_eq!(parse_sgr_code("+12"), Some(12));
    assert_eq!(parse_sgr_code("65535"), Some(65535));
    for code in ["", "+", "-1", "65536", "1 ", "0x1", "99999999999999999999999999"] {
        assert_eq!(parse_sgr_code(code), None, "{code:?}");
    }
}

#[test]
fn extended_colours_are_groups() {
    let parts = |text: &str| -> Vec<String> { text.split(';').map(str::to_string).collect() };
    assert_eq!(
        parse_extended_color(&parts("38;05;007"), 0),
        Some((parts("38;5;7"), 3))
    );
    assert_eq!(
        parse_extended_color(&parts("1;48;2;1;2;3"), 1),
        Some((parts("48;2;1;2;3"), 5))
    );
    for text in ["38", "38;5", "38;5;x", "38;2;1;2", "38;2;1;x;3", "38;3;1;2;3", "x;5;1"] {
        assert_eq!(parse_extended_color(&parts(text), 0), None, "{text:?}");
    }
}

#[test]
fn numbers_are_read_back() {
    for n in [0u16, 9, 10, 99, 100, 12345, 65535] {
        let digits = to_decimal(n);
        assert_eq!(digits, n.to_string());
        let chars: Vec<char> = digits.chars().collect();
        assert_eq!(parse_number(&chars, 65535), Some(n as u64));
    }
    let chars: Vec<char> = "18446744073709551615".chars().collect();
    assert_eq!(parse_number(&chars, u64::MAX), Some(u64::MAX));
    let chars: Vec<char> = "18446744073709551616".chars().collect();
    assert_eq!(parse_number(&chars, u64::MAX), None);
}

fn pieces(display: &str) -> Vec<(String, String)> {
    display_components(display)
        .into_iter()
        .map(|component| {
            (
                component.text,
                match component.path_part {
                    ComponentPart::Root => "root".to_string(),
                    ComponentPart::Base => "base".to_string(),
                    ComponentPart::Normal(name) => format!("={name}"),
                },
            )
        })
        .collect()
}

fn pairs(expected: &[(&str, &str)]) -> Vec<(String, String)> {
    expected.iter().map(|(a, b)| (a.to_string(), b.to_string())).collect()
}

#[test]
fn displays_are_divided_into_components() {
    assert_eq!(pieces("~"), pairs(&[("~", "base")]));
    assert_eq!(pieces("~/"), pairs(&[("~/", "base")]));
    assert_eq!(pieces("~/a/b"), pairs(&[("~/", "base"), ("a/", "=a"), ("b", "=b")]));
    assert_eq!(pieces("~//a"), pairs(&[("~/", "base")]));
    assert_eq!(pieces("~a"), pairs(&[("~a", "=~a")]));
    assert_eq!(pieces("/"), pairs(&[("/", "root")]));
    assert_eq!(pieces("/a/b"), pairs(&[("/", "root"), ("a/", "=a"), ("b", "=b")]));
    assert_eq!(pieces("./../a"), pairs(&[("./", "=."), ("../", "=.."), ("a", "=a")]));
    assert_eq!(pieces("a//b/"), pairs(&[("a/", "=a"), ("b", "=b")]));
    assert_eq!(pieces(""), pairs(&[]));
    assert_eq!(normal_display_components("a/b").len(), 2);
    assert_eq!(normal_display_components("/a").len(), 0);
}

#[test]
fn pieces_make_up_the_display() {
    for display in ["~", "~/a", "~/a/b c", "/", "/a", "/a/b", "a", "a/b/c", "h\u{e9}/x"] {
        let whole: String = pieces(display).into_iter().map(|(text, _)| text).collect();
        assert_eq!(whole, display);
    }
}

#[test]
fn separators_stand_between_components() {
    let texts = |skip_first: bool| -> Vec<String> {
        let mut components = display_components("x");
        components.extend(display_components("y"));
        components.extend(display_components("z"));
        add_intermediate_separators(&mut components, skip_first);
        components.into_iter().map(|component| component.text).collect()
    };
    assert_eq!(texts(false), vec!["x/", "y/", "z"]);
    assert_eq!(texts(true), vec!["x", "y/", "z"]);
}

#[test]
fn components_lead_to_the_path() {
    let ancestors = |display: &str, p: &str| -> Vec<String> {
        ancestor_paths(display, &path(p)).iter().map(text).collect()
    };
    assert_eq!(ancestors("a/b/c", "/work/a/b/c"), vec!["/work/a", "/work/a/b"]);
    assert_eq!(ancestors("~/a/b", "/home/me/a/b"), vec!["/home/me", "/home/me/a"]);
    assert_eq!(ancestors("/a/b", "/a/b"), vec!["/", "/a"]);
    assert_eq!(ancestors("a", "/work/a"), Vec::<String>::new());
    assert_eq!(ancestors("~", "/home/me"), Vec::<String>::new());
    assert_eq!(ancestors("", "/x"), Vec::<String>::new());
    let base = |display: &str, p: &str| {
        text(&component_base_path(display, &path(p), &display_components(display)))
    };
    assert_eq!(base("a/b", "/work/a/b"), "/work");
    assert_eq!(base("~/a", "/home/me/a"), "/home/me");
    assert_eq!(base("/a/b", "/a/b"), "");
}

#[test]
fn styles_are_escape_sequences() {
    let mut output = "x".to_string();
    append_styled_component(&mut output, "a", Some("1;31"));
    append_styled_component(&mut output, "b", None);
    assert_eq!(output, "x\x1b[1;31ma\x1b[0mb");
}

#[test]
fn each_component_has_its_colour() {
    let colors = LsColors::new(Some("di=35:ln=36:fi=90"));
    let link = Some(Entry {
        metadata: Metadata { kind: FileKind::Symlink, mode: 0o777 },
        target: Some(Metadata { kind: FileKind::Directory, mode: 0o755 }),
    });
    let dir = entry(FileKind::Directory, 0o755);
    let file = entry(FileKind::Regular, 0o644);
    assert_eq!(
        colors.colorize("a/b/c", &path("/w/a/b/c"), false, file, &[link, dir]),
        "\x1b[36ma/\x1b[0m\x1b[35mb/\x1b[0m\x1b[90mc\x1b[0m"
    );
    assert_eq!(
        colors.colorize("a/b/c", &path("/w/a/b/c"), false, file, &[dir]),
        "\x1b[35ma/\x1b[0m\x1b[38;2;255;165;0mb/\x1b[0m\x1b[90mc\x1b[0m"
    );
    assert_eq!(
        colors.colorize("a/b", &path("/w/a/b"), false, None, &[dir]),
        "\x1b[38;2;255;165;0ma/b\x1b[0m"
    );
    assert_eq!(colors.colorize("/", &path("/"), true, dir, &[]), "\x1b[35m/\x1b[0m");
    assert_eq!(colors.colorize("", &path("/x"), true, dir, &[]), "\x1b[35m\x1b[0m/");
    let plain = LsColors::new(Some("di=0"));
    assert_eq!(plain.colorize("d", &path("/d"), true, dir, &[]), "d/");
}
