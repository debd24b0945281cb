use std::path::Path;
use std::path::PathBuf;

use historypwd::location::display_path;
use historypwd::location::display_with_dir_marker;
use historypwd::location::expand_tilde;
use historypwd::location::path_string;
use historypwd::location::resolve_input_dir;
use historypwd::location::with_trailing_separator;
use historypwd::path::absolutize_existing_or_lexical;
use historypwd::path::absolutize_lexical;
use historypwd::path::normalize_lexical;
use historypwd::path::path_starts_with;
use historypwd::path::spans;
use historypwd::path::FsPath;
use historypwd::path::Part;

const SAMPLES: [&str; 36] = [
    "", "/", "//", "///", ".", "..", "./", "../", "a", "a/", "a//", "/a", "//a", "/a/", "a/b", "a//b",
    "a/./b", "./a", "././a", "a/.", "a/..", "a/../b", "/..", "/../a", "/./a", "/a/b/c", "/a/b/c/",
    "/a/b/../c", "...", "a/...", ".a", "..a", "~/x", "/home/me", "/home/me/x/y", "h\u{e9}/\u{4e16}",
];

fn path(text: &str) -> FsPath {
    FsPath::from_text(text)
}

fn text(path: &FsPath) -> String {
    String::from_utf8(path.bytes.clone()).unwrap()
}

fn std_text(path: &Path) -> String {
    path.to_str().unwrap().to_string()
}

#[test]
fn single_paths_are_read_as_std_reads_them() {
    for sample in SAMPLES {
        let ours = path(sample);
        let theirs = Path::new(sample);
        assert_eq!(ours.is_absolute(), theirs.is_absolute(), "{sample:?}");
        assert_eq!(
            ours.parent().map(|p| text(&p)),
            theirs.parent().map(std_text),
            "{sample:?}"
        );
        assert_eq!(
            ours.file_name().map(|p| text(&p)),
            theirs.file_name().map(|name| name.to_str().unwrap().to_string()),
            "{sample:?}"
        );
        let mut popped = PathBuf::from(sample);
        popped.pop();
        assert_eq!(text(&ours.popped()), std_text(&popped), "{sample:?}");
        let components: Vec<String> = spans(sample.as_bytes())
            .iter()
            .map(|span| sample[span.start..span.end].to_string())
            .collect();
        let expected: Vec<String> = theirs
            .components()
            .map(|component| component.as_os_str().to_str().unwrap().to_string())
            .collect();
        assert_eq!(components, expected, "{sample:?}");
    }
}

#[test]
fn pairs_of_paths_are_read_as_std_reads_them() {
    for sample in SAMPLES {
        for other in SAMPLES {
            let ours = path(sample);
            let theirs = Path::new(sample);
            assert_eq!(
                text(&ours.join(&path(other))),
                std_text(&theirs.join(other)),
                "{sample:?} {other:?}"
            );
            assert_eq!(
                ours.starts_with(&path(other)),
                theirs.starts_with(other),
                "{sample:?} {other:?}"
            );
            assert_eq!(
                path_starts_with(&ours, &path(other)),
                theirs == Path::new(other) || theirs.starts_with(other),
                "{sample:?} {other:?}"
            );
            assert_eq!(
                ours.same_as(&path(other)),
                theirs == Path::new(other),
                "{sample:?} {other:?}"
            );
            assert_eq!(
                ours.strip_prefix(&path(other)).map(|p| text(&p)),
                theirs.strip_prefix(other).ok().map(std_text),
                "{sample:?} {other:?}"
            );
        }
    }
}

#[test]
fn characters_and_bytes_have_the_same_components() {
    for sample in SAMPLES {
        let chars: Vec<char> = sample.chars().collect();
        let from_chars: Vec<String> = spans(&chars)
            .iter()
            .map(|span| chars[span.start..span.end].iter().collect())
            .collect();
        let from_bytes: Vec<String> = spans(sample.as_bytes())
            .iter()
            .map(|span| sample[span.start..span.end].to_string())
            .collect();
        assert_eq!(from_chars, from_bytes, "{sample:?}");
    }
}

#[test]
fn parts_are_told_apart() {
    let parts: Vec<Part> = spans("/./a/../.".as_bytes()).iter().map(|span| span.part).collect();
    assert_eq!(parts, vec![Part::Root, Part::Name, Part::Up]);
    let parts: Vec<Part> = spans("./..".as_bytes()).iter().map(|span| span.part).collect();
    assert_eq!(parts, vec![Part::Here, Part::Up]);
}

#[test]
fn normal_forms_are_lexical() {
    let normal = |sample: &str| text(&normalize_lexical(&path(sample)));
    assert_eq!(normal(""), "");
    assert_eq!(normal("/"), "/");
    assert_eq!(normal("."), "");
    assert_eq!(normal("/.."), "/");
    assert_eq!(normal("/a/./b//c/"), "/a/b/c");
    assert_eq!(normal("/a/b/../../c"), "/c");
    assert_eq!(normal("a/../.."), "");
    assert_eq!(normal("../a"), "a");
    assert_eq!(normal("./a/b/.."), "a");
}

#[test]
fn a_normal_form_is_kept() {
    for sample in SAMPLES {
        let once = normalize_lexical(&path(sample));
        assert_eq!(text(&normalize_lexical(&once)), text(&once), "{sample:?}");
        assert_eq!(once.is_absolute(), path(sample).is_absolute(), "{sample:?}");
        for span in spans(once.bytes.as_slice()) {
            assert!(span.part != Part::Up && span.part != Part::Here, "{sample:?}");
        }
    }
}

#[test]
fn a_prefix_and_what_follows_make_up_the_path() {
    for sample in SAMPLES {
        let whole = path(sample);
        for other in SAMPLES {
            if let Some(rest) = whole.strip_prefix(&path(other)) {
                assert!(path(other).join(&rest).same_as(&whole), "{sample:?} {other:?}");
            }
        }
    }
}

#[test]
fn relative_paths_start_from_the_current_directory() {
    let lexical = |sample: &str, current: Option<&str>| {
        text(&absolutize_lexical(&path(sample), current.map(path).as_ref()))
    };
    assert_eq!(lexical("a/../b", Some("/work")), "/work/b");
    assert_eq!(lexical("/a/../b", Some("/work")), "/b");
    assert_eq!(lexical("../../..", Some("/work")), "/");
    assert_eq!(lexical("a", None), "a");
    assert_eq!(lexical("/a", None), "/a");
    assert_eq!(
        text(&absolutize_existing_or_lexical(&path("a"), Some(path("/real")), None)),
        "/real"
    );
    assert_eq!(
        text(&absolutize_existing_or_lexical(&path("a/."), None, Some(&path("/work")))),
        "/work/a"
    );
}

#[test]
fn tilde_stands_for_home() {
    let expand = |token: &str| expand_tilde(token, &path("/home/me")).map(|p| text(&p));
    assert_eq!(expand("~"), Some("/home/me".to_string()));
    assert_eq!(expand("~/"), Some("/home/me/".to_string()));
    assert_eq!(expand("~/x/y"), Some("/home/me/x/y".to_string()));
    assert_eq!(expand("~//x"), Some("/x".to_string()));
    assert_eq!(expand("~you"), None);
    assert_eq!(expand("a~"), Some("a~".to_string()));
    assert_eq!(expand("./a"), Some("./a".to_string()));
}

#[test]
fn the_input_directory_is_seen_from_home_or_from_here() {
    let resolve = |dir: &str| text(&resolve_input_dir(dir, &path("/home/me"), &path("/work")));
    assert_eq!(resolve("~"), "/home/me");
    assert_eq!(resolve("~/x"), "/home/me/x");
    assert_eq!(resolve("~you"), "/work/~you");
    assert_eq!(resolve("/etc"), "/etc");
    assert_eq!(resolve("./src"), "/work/src");
    assert_eq!(resolve(".//src"), "/src");
    assert_eq!(resolve("."), "/work/.");
    assert_eq!(resolve("../x"), "/work/../x");
    assert_eq!(resolve(""), "/work/");
}

#[test]
fn paths_are_displayed_from_where_they_were_typed() {
    let show = |p: &str, prefix: &str, relative: bool| {
        display_path(&path(p), &path("/home/me"), &path("/home/me/work"), prefix, relative)
    };
    assert_eq!(show("/home/me", "~", false), "~");
    assert_eq!(show("/home/me/x", "~", false), "~/x");
    assert_eq!(show("/home/me/x", "~/w", true), "~/x");
    assert_eq!(show("/home/meme", "~", false), "/home/meme");
    assert_eq!(show("/home/me/work/a/b", ".", true), "a/b");
    assert_eq!(show("/home/me/work", ".", true), "/home/me/work");
    assert_eq!(show("/home/me/work/a", "/home", false), "/home/me/work/a");
    assert_eq!(show("/etc", "~you", true), "/etc");
}

#[test]
fn a_display_leads_back_to_its_path() {
    let home = path("/home/me");
    let pwd = path("/home/me/work");
    for p in [
        "/home/me", "/home/me/x y", "/home/me/work/a/b", "/etc/passwd", "/", "/.", "//home/./me//x/../y/",
        "/home/me/work/../z", "/home/me/./work//a/.", "/home/me/work/.hidden/",
    ] {
        for (prefix, relative) in [("~", false), ("~/w", false), (".", true), ("/", false)] {
            let shown = display_path(&path(p), &home, &pwd, prefix, relative);
            let typed = resolve_input_dir(&shown, &home, &pwd);
            assert!(typed.same_as(&path(p)), "{p:?} {prefix:?} {shown:?}");
        }
    }
}

#[test]
fn a_relative_name_may_look_like_home() {
    let home = path("/home/me");
    let pwd = path("/work");
    let shown = display_path(&path("/work/~"), &home, &pwd, ".", true);
    assert_eq!(shown, "~");
    assert_eq!(text(&resolve_input_dir(&shown, &home, &pwd)), "/home/me");
}

#[test]
fn directories_are_marked() {
    assert_eq!(display_with_dir_marker("src", true), "src/");
    assert_eq!(display_with_dir_marker("src", false), "src");
    assert_eq!(display_with_dir_marker("src/", true), "src/");
    assert_eq!(display_with_dir_marker("/", true), "/");
    assert_eq!(display_with_dir_marker("", true), "/");
    assert_eq!(with_trailing_separator(&path("/")), "/");
    assert_eq!(with_trailing_separator(&path("/a")), "/a/");
    assert_eq!(with_trailing_separator(&path("")), "/");
}

#[test]
fn bytes_that_are_no_text_are_shown_with_replacement_characters() {
    assert_eq!(path_string(&FsPath::from_bytes(b"/a\xffb\xc3")), "/a\u{fffd}b\u{fffd}");
    assert_eq!(path_string(&path("/h\u{e9}")), "/h\u{e9}");
    assert_eq!(with_trailing_separator(&FsPath::from_bytes(b"\xfe")), "\u{fffd}/");
}

#[test]
fn copies_are_equal() {
    let p = FsPath::from_bytes(b"a\x00b\xff");
    assert_eq!(p.duplicate().bytes, b"a\x00b\xff".to_vec());
}
