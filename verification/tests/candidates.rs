use std::collections::HashMap;

use historypwd::colors::LsColors;
use historypwd::config::Config;
use historypwd::config::Kind;
use historypwd::files::Entry;
use historypwd::files::FileKind;
use historypwd::files::Metadata;
use historypwd::path::FsPath;
use historypwd::session::emit_candidates;
use historypwd::session::resolve_candidate;
use historypwd::session::Action;
use historypwd::session::Reply;
use historypwd::session::Session;
use historypwd::words::infer_post_cwd;

const ROOT: &str = "/tmp/historypwd-test";

/// What is at a path.
enum Node {
    Dir(u32),
    File(u32, Vec<u8>),
    Link(String),
}

/// A file system in memory.
struct Tree {
    nodes: HashMap<String, Node>,
}

impl Tree {
    fn new() -> Self {
        let mut tree = Tree { nodes: HashMap::new() };
        tree.dir(ROOT);
        tree
    }

    /// Makes a directory and those above it.
    fn dir(&mut self, path: &str) {
        let mut at = String::new();
        for name in path.split('/').filter(|name| !name.is_empty()) {
            at.push('/');
            at.push_str(name);
            self.nodes.entry(at.clone()).or_insert(Node::Dir(0o40755));
        }
    }

    fn file(&mut self, path: &str, content: &[u8]) {
        self.nodes.insert(path.to_string(), Node::File(0o100644, content.to_vec()));
    }

    fn executable(&mut self, path: &str) {
        self.nodes.insert(path.to_string(), Node::File(0o100755, Vec::new()));
    }

    fn link(&mut self, path: &str, target: &str) {
        self.nodes.insert(path.to_string(), Node::Link(target.to_string()));
    }

    /// The path with its links followed, if there is something at it.
    fn resolve(&self, path: &str, follow_last: bool, depth: usize) -> Option<String> {
        if depth == 0 || !path.starts_with('/') {
            return None;
        }
        let names: Vec<&str> =
            path.split('/').filter(|name| !name.is_empty() && *name != ".").collect();
        let mut at = String::new();
        for (i, name) in names.iter().enumerate() {
            if *name == ".." {
                at.truncate(at.rfind('/').unwrap_or(0));
                continue;
            }
            let next = format!("{at}/{name}");
            match self.nodes.get(&next) {
                None => return None,
                Some(Node::Link(target)) if follow_last || i + 1 < names.len() => {
                    let target = if target.starts_with('/') {
                        target.clone()
                    } else {
                        format!("{at}/{target}")
                    };
                    at = self.resolve(&target, true, depth - 1)?;
                }
                Some(_) => at = next,
            }
        }
        Some(if at.is_empty() { "/".to_string() } else { at })
    }

    fn metadata(&self, path: &str) -> Metadata {
        match self.nodes.get(path) {
            Some(Node::Dir(mode)) => Metadata { kind: FileKind::Directory, mode: *mode },
            Some(Node::File(mode, _)) => Metadata { kind: FileKind::Regular, mode: *mode },
            Some(Node::Link(_)) => Metadata { kind: FileKind::Symlink, mode: 0o120777 },
            None => Metadata { kind: FileKind::Directory, mode: 0o40755 },
        }
    }

    fn entry(&self, path: &str) -> Option<Entry> {
        let metadata = self.metadata(&self.resolve(path, false, 8)?);
        let target = self.resolve(path, true, 8).map(|target| self.metadata(&target));
        Some(Entry {
            metadata,
            target: if matches!(metadata.kind, FileKind::Symlink) { target } else { None },
        })
    }

    fn content(&self, path: &str) -> &[u8] {
        match self.nodes.get(path) {
            Some(Node::File(_, content)) => content,
            _ => panic!("no file at {path}"),
        }
    }
}

fn text(path: &FsPath) -> String {
    String::from_utf8(path.bytes.clone()).unwrap()
}

/// What a run has had done.
struct Output {
    text: String,
    displays: Vec<String>,
    flushes: Vec<bool>,
    reads: Vec<(u64, usize)>,
    canonicalized: Vec<String>,
    examined: Vec<String>,
    opened: usize,
}

fn run(config: Config, tree: &Tree) -> Output {
    let log = text(&config.pwdlog_file);
    let mut session = Session::new(config);
    let mut output = Output {
        text: String::new(),
        displays: Vec::new(),
        flushes: Vec::new(),
        reads: Vec::new(),
        canonicalized: Vec::new(),
        examined: Vec::new(),
        opened: 0,
    };
    let mut reply = Reply::Nothing;
    loop {
        reply = match emit_candidates(&mut session, reply) {
            Action::Canonicalize(path) => {
                output.canonicalized.push(text(&path));
                Reply::Canonical(
                    tree.resolve(&text(&path), true, 8).map(|found| FsPath::from_text(&found)),
                )
            }
            Action::OpenLog(path) => {
                output.opened += 1;
                Reply::Length(tree.content(&text(&path)).len() as u64)
            }
            Action::ReadLog { position, length } => {
                output.reads.push((position, length));
                let start = position as usize;
                Reply::Bytes(tree.content(&log)[start..start + length].to_vec())
            }
            Action::Examine(path) => {
                output.examined.push(text(&path));
                Reply::Entry(tree.entry(&text(&path)))
            }
            Action::CheckDir(path) => Reply::IsDirectory(
                tree.resolve(&text(&path), true, 8)
                    .map(|found| tree.metadata(&found).kind == FileKind::Directory)
                    .unwrap_or(false),
            ),
            Action::Print { display, line, flush } => {
                output.displays.push(display);
                output.text.push_str(&line);
                output.text.push('\n');
                output.flushes.push(flush);
                Reply::Nothing
            }
            Action::Proceed => Reply::Nothing,
            Action::Finished => return output,
            Action::Ignored => panic!("the reply was none to what was asked"),
        };
    }
}

fn join(base: &str, rest: &str) -> String {
    format!("{base}/{rest}")
}

fn config(kind: Kind, dir: &str, leftover: &str, pwdlog: &str, home: &str, pwd: &str) -> Config {
    Config {
        kind,
        dir: dir.to_string(),
        leftover: leftover.to_string(),
        display_prefix: dir.to_string(),
        lines_limit: 5000,
        max_candidates: 500,
        pwdlog_file: FsPath::from_text(pwdlog),
        home: FsPath::from_text(home),
        pwd: FsPath::from_text(pwd),
        current_dir: Some(FsPath::from_text("/")),
        ls_colors: None,
    }
}

#[test]
fn infers_post_cwd_for_cd_and_pushd() {
    let cwd = join(ROOT, "cwd");
    let after = join(&cwd, "after");
    let home = join(ROOT, "home");
    let infer = |command: &str| {
        infer_post_cwd(
            &FsPath::from_text(&cwd),
            &historypwd::tokens::scan_tokens(command),
            &FsPath::from_text(&home),
        )
        .map(|path| text(&path))
    };
    assert_eq!(infer("cd after && ls child"), Some(after));
    assert_eq!(infer("pushd +1"), None);
    assert_eq!(infer("cd"), Some(home));
}

#[test]
fn filters_dedupes_and_limits_candidates() {
    let mut tree = Tree::new();
    let cwd = join(ROOT, "cwd");
    tree.dir(&join(&cwd, "src"));
    tree.dir(&join(&cwd, "aftercd/child"));
    tree.file(&join(&cwd, "file.txt"), b"");
    let pwdlog = join(ROOT, "pwdlog");
    tree.file(
        &pwdlog,
        format!(
            "1\t{}\tvim src\n2\t{}\tcat file.txt\n3\t{}\tcd aftercd && ls child\n4\t{}\tvim src\n",
            cwd, cwd, cwd, cwd
        )
        .as_bytes(),
    );
    let mut config = config(Kind::Dir, ".", "", &pwdlog, &join(ROOT, "home"), &cwd);
    config.lines_limit = 5000;
    config.max_candidates = 2;
    let output = run(config, &tree).text;
    assert!(!output.contains("\x1b["));
    let lines: Vec<_> = output.lines().collect();
    assert_eq!(lines.len(), 2);
    assert_eq!(lines[0], "src/");
    assert_eq!(lines[1], "aftercd/");
}

#[test]
fn applies_leftover_and_home_display() {
    let mut tree = Tree::new();
    let home = join(ROOT, "home");
    let project = join(&home, "project");
    tree.dir(&project);
    let pwdlog = join(ROOT, "pwdlog");
    tree.file(&pwdlog, format!("1\t{}\tcd ~ && ls project\n", home).as_bytes());
    let config = config(Kind::Dir, "~", "pro", &pwdlog, &home, &join(ROOT, "cwd"));
    assert_eq!(run(config, &tree).text, "~/project/\n");
}

#[test]
fn colorizes_candidates_when_enabled() {
    let mut tree = Tree::new();
    let cwd = join(ROOT, "cwd");
    tree.dir(&join(&cwd, "src"));
    let pwdlog = join(ROOT, "pwdlog");
    tree.file(&pwdlog, format!("1\t{}\tvim src\n", cwd).as_bytes());
    let mut config = config(Kind::Dir, ".", "", &pwdlog, &join(ROOT, "home"), &cwd);
    config.ls_colors = Some(LsColors::new(Some("di=35")));
    assert_eq!(run(config, &tree).text, "\x1b[35msrc\x1b[0m/\n");
}

#[test]
fn colorizes_nested_relative_components_with_candidate_context() {
    let mut tree = Tree::new();
    let cwd = join(ROOT, "cwd");
    let release = join(&cwd, "github/jasonyukr/historypwd/target/release");
    tree.dir(&release);
    tree.file(&join(&release, "historypwd.bin"), b"");
    let pwdlog = join(ROOT, "pwdlog");
    tree.file(
        &pwdlog,
        format!(
            "1\t{}\tvim github/jasonyukr/historypwd/target/release/historypwd.bin\n",
            cwd
        )
        .as_bytes(),
    );
    let mut config = config(Kind::Path, ".", "", &pwdlog, &join(ROOT, "home"), &cwd);
    config.ls_colors = Some(LsColors::new(Some("di=35:*.bin=32")));
    assert_eq!(
        run(config, &tree).text,
        "\x1b[35mgithub/\x1b[0m\x1b[35mjasonyukr/\x1b[0m\x1b[35mhistorypwd/\x1b[0m\x1b[35mtarget/\x1b[0m\x1b[35mrelease/\x1b[0m\x1b[32mhistorypwd.bin\x1b[0m\n"
    );
}

#[test]
fn preserves_symlink_identity_for_candidate_colorization() {
    let mut tree = Tree::new();
    let cwd = join(ROOT, "cwd");
    tree.dir(&join(&cwd, "target"));
    tree.link(&join(&cwd, "link"), "target");
    tree.link(&join(&cwd, "dangling"), "missing");
    let pwdlog = join(ROOT, "pwdlog");
    tree.file(&pwdlog, format!("1\t{}\tlink dangling\n", cwd).as_bytes());
    let mut config = config(Kind::Path, ".", "", &pwdlog, &join(ROOT, "home"), &cwd);
    config.ls_colors = Some(LsColors::new(Some("di=35:ln=36:or=31")));
    assert_eq!(
        run(config, &tree).text,
        "\x1b[36mlink\x1b[0m/\n\x1b[31mdangling\x1b[0m\n"
    );
}

#[test]
fn the_first_candidate_alone_is_flushed() {
    let mut tree = Tree::new();
    let cwd = join(ROOT, "cwd");
    for name in ["a", "b", "c"] {
        tree.dir(&join(&cwd, name));
    }
    let pwdlog = join(ROOT, "pwdlog");
    tree.file(&pwdlog, format!("1\t{cwd}\tls c b\n2\t{cwd}\tls a b a\n").as_bytes());
    let output = run(config(Kind::Path, ".", "", &pwdlog, "/home/me", &cwd), &tree);
    assert_eq!(output.text, "a/\nb/\nc/\n");
    assert_eq!(output.displays, vec!["a", "b", "c"]);
    assert_eq!(output.flushes, vec![true, false, false]);
    assert_eq!(output.opened, 1);
}

#[test]
fn one_candidate_is_printed_where_none_is_wanted() {
    let mut tree = Tree::new();
    let cwd = join(ROOT, "cwd");
    tree.dir(&join(&cwd, "a"));
    tree.dir(&join(&cwd, "b"));
    let pwdlog = join(ROOT, "pwdlog");
    tree.file(&pwdlog, format!("1\t{cwd}\tls a b\n").as_bytes());
    let mut config = config(Kind::Path, ".", "", &pwdlog, "/home/me", &cwd);
    config.max_candidates = 0;
    assert_eq!(run(config, &tree).text, "a/\n");
}

#[test]
fn no_line_is_read_where_none_is_wanted() {
    let tree = Tree::new();
    let mut config = config(Kind::Path, ".", "", &join(ROOT, "pwdlog"), "/home/me", ROOT);
    config.lines_limit = 0;
    let output = run(config, &tree);
    assert_eq!(output.text, "");
    assert_eq!(output.opened, 0);
}

#[test]
fn the_lines_limit_leaves_older_lines_out() {
    let mut tree = Tree::new();
    let cwd = join(ROOT, "cwd");
    tree.dir(&join(&cwd, "a"));
    tree.dir(&join(&cwd, "b"));
    let pwdlog = join(ROOT, "pwdlog");
    tree.file(&pwdlog, format!("1\t{cwd}\tls a\n2\t{cwd}\tls b\nno fields\n").as_bytes());
    let mut config = config(Kind::Path, ".", "", &pwdlog, "/home/me", &cwd);
    config.lines_limit = 2;
    assert_eq!(run(config, &tree).text, "b/\n");
}

#[test]
fn the_directory_of_a_command_is_resolved_once_in_a_row() {
    let mut tree = Tree::new();
    let cwd = join(ROOT, "cwd");
    tree.dir(&join(&cwd, "a"));
    tree.link(&join(ROOT, "alias"), "cwd");
    let pwdlog = join(ROOT, "pwdlog");
    let alias = join(ROOT, "alias");
    tree.file(&pwdlog, format!("1\t{alias}\tls a\n2\t{alias}\tls b\n3\t{alias}\tls c\n").as_bytes());
    let output = run(config(Kind::Path, ".", "", &pwdlog, "/home/me", &cwd), &tree);
    assert_eq!(output.text, "a/\n");
    assert_eq!(output.canonicalized, vec![join(&cwd, "."), alias]);
    assert_eq!(
        output.examined,
        vec![
            join(&cwd, "ls"),
            join(&cwd, "c"),
            join(&cwd, "ls"),
            join(&cwd, "b"),
            join(&cwd, "ls"),
            join(&cwd, "a"),
        ]
    );
}

#[test]
fn words_after_a_change_of_directory_are_tried_there_too() {
    let mut tree = Tree::new();
    let cwd = join(ROOT, "cwd");
    tree.dir(&join(&cwd, "sub/inner"));
    let pwdlog = join(ROOT, "pwdlog");
    tree.file(&pwdlog, format!("1\t{cwd}\tcd -P sub; ls inner\n").as_bytes());
    let output = run(config(Kind::Path, ".", "", &pwdlog, "/home/me", &cwd), &tree);
    assert_eq!(output.text, "sub/\nsub/inner/\n");
    tree.file(&pwdlog, format!("1\t{cwd}\tls sub; ls inner\n").as_bytes());
    let output = run(config(Kind::Path, ".", "", &pwdlog, "/home/me", &cwd), &tree);
    assert_eq!(output.text, "sub/\n");
}

#[test]
fn a_file_is_no_directory_to_change_to() {
    let mut tree = Tree::new();
    let cwd = join(ROOT, "cwd");
    tree.dir(&cwd);
    tree.file(&join(&cwd, "note"), b"");
    let pwdlog = join(ROOT, "pwdlog");
    tree.file(&pwdlog, format!("1\t{cwd}\tcd note x\n").as_bytes());
    let output = run(config(Kind::Path, ".", "", &pwdlog, "/home/me", &cwd), &tree);
    assert_eq!(output.text, "note\n");
    assert_eq!(
        output.examined,
        vec![join(&cwd, "cd"), join(&cwd, "note"), join(&cwd, "x")]
    );
}

#[test]
fn the_directory_asked_for_bounds_the_candidates() {
    let mut tree = Tree::new();
    let cwd = join(ROOT, "cwd");
    tree.dir(&join(&cwd, "src/deep"));
    tree.dir(&join(&cwd, "srcs"));
    tree.file(&join(&cwd, "src/main.c"), b"");
    let pwdlog = join(ROOT, "pwdlog");
    tree.file(&pwdlog, format!("1\t{cwd}\tls srcs src src/deep src/main.c ..\n").as_bytes());
    let output = run(config(Kind::Path, "src", "", &pwdlog, "/home/me", &cwd), &tree);
    assert_eq!(output.text, "src/deep/\nsrc/main.c\n");
    let output = run(config(Kind::Path, "src", "ma", &pwdlog, "/home/me", &cwd), &tree);
    assert_eq!(output.text, "src/main.c\n");
    let output = run(config(Kind::Path, &join(&cwd, "src"), "", &pwdlog, "/home/me", &cwd), &tree);
    assert_eq!(output.text, format!("{cwd}/src/deep/\n{cwd}/src/main.c\n"));
}

#[test]
fn an_absolute_display_is_coloured_from_the_root() {
    let mut tree = Tree::new();
    tree.dir("/srv/data");
    tree.executable("/srv/data/run");
    tree.file("/log", b"1\t/srv\tdata/run\n");
    let mut config = config(Kind::Path, "/srv", "", "/log", "/home/me", "/tmp");
    config.ls_colors = Some(LsColors::new(Some("di=35:ex=32")));
    let output = run(config, &tree);
    assert_eq!(
        output.text,
        "\x1b[35m/\x1b[0m\x1b[35msrv/\x1b[0m\x1b[35mdata/\x1b[0m\x1b[32mrun\x1b[0m\n"
    );
    assert_eq!(output.examined, vec!["/srv/data/run", "/", "/srv", "/srv/data"]);
}

#[test]
fn a_display_from_home_is_coloured_from_home() {
    let mut tree = Tree::new();
    tree.dir("/home/me/a");
    tree.file("/home/me/a/b.txt", b"");
    tree.file("/log", b"1\t/home/me\tcat a/b.txt\n");
    let mut config = config(Kind::Path, "~", "", "/log", "/home/me", "/tmp");
    config.ls_colors = Some(LsColors::new(Some("di=35:*.txt=33")));
    let output = run(config, &tree);
    assert_eq!(
        output.text,
        "\x1b[35m~/\x1b[0m\x1b[35ma/\x1b[0m\x1b[33mb.txt\x1b[0m\n"
    );
    assert_eq!(
        output.examined,
        vec!["/home/me/cat", "/home/me/a/b.txt", "/home/me", "/home/me/a"]
    );
}

#[test]
fn a_long_log_is_read_in_chunks_from_its_end() {
    let mut tree = Tree::new();
    let cwd = join(ROOT, "cwd");
    tree.dir(&join(&cwd, "a"));
    let mut log = format!("1\t{cwd}\tls a\n");
    while log.len() < 20000 {
        log.push_str(&format!("2\t{cwd}\t\n"));
    }
    let length = log.len();
    tree.file("/log", log.as_bytes());
    let output = run(config(Kind::Path, ".", "", "/log", "/home/me", &cwd), &tree);
    assert_eq!(output.text, "a/\n");
    assert_eq!(
        output.reads,
        vec![
            ((length - 8192) as u64, 8192),
            ((length - 16384) as u64, 8192),
            (0, length - 16384),
        ]
    );
}

#[test]
fn lower_limits_keep_the_first_candidates() {
    let mut tree = Tree::new();
    let cwd = join(ROOT, "cwd");
    for name in ["a", "b", "c", "d", "e"] {
        tree.dir(&join(&cwd, name));
    }
    tree.file(
        "/log",
        format!("1\t{cwd}\tls e a\n2\t{cwd}\tls c b d\n3\t{cwd}\tls a b\n").as_bytes(),
    );
    let all = ["a/", "b/", "c/", "d/", "e/"];
    for max in 0..7 {
        let mut config = config(Kind::Path, ".", "", "/log", "/home/me", &cwd);
        config.max_candidates = max;
        let output = run(config, &tree).text;
        assert_eq!(output.lines().collect::<Vec<_>>(), all[..max.clamp(1, 5)].to_vec());
    }
    for (limit, count) in [(0, 0), (1, 2), (2, 4), (3, 5), (4, 5)] {
        let mut config = config(Kind::Path, ".", "", "/log", "/home/me", &cwd);
        config.lines_limit = limit;
        let output = run(config, &tree).text;
        assert_eq!(output.lines().collect::<Vec<_>>(), all[..count].to_vec());
    }
}

/// A text without its escape sequences.
fn erased(text: &str) -> String {
    let mut out = String::new();
    let mut rest = text;
    while let Some((before, behind)) = rest.split_once("\x1b[") {
        out.push_str(before);
        rest = behind.split_once('m').unwrap().1;
    }
    out.push_str(rest);
    out
}

#[test]
fn colours_change_escape_sequences_only() {
    let mut tree = Tree::new();
    tree.dir("/home/me/work/src/deep");
    tree.dir("/home/me/work/~/x y");
    tree.executable("/home/me/work/src/run");
    tree.file("/home/me/work/src/h\u{e9}.txt", b"");
    tree.link("/home/me/work/gone", "nowhere");
    tree.link("/home/me/work/there", "src");
    tree.file(
        "/log",
        b"1\t/home/me/work\tls src/run src/h\xc3\xa9.txt gone there/deep\n2\t/home/me/work\tls ./~/x\\ y ./~ src/deep /home\n",
    );
    for (dir, count) in [(".", 7), ("~", 7), ("/home/me", 7), ("src", 3), ("/", 8)] {
        let plain = run(config(Kind::Path, dir, "", "/log", "/home/me", "/home/me/work"), &tree);
        let mut coloured = config(Kind::Path, dir, "", "/log", "/home/me", "/home/me/work");
        coloured.ls_colors = Some(LsColors::new(Some("*.txt=33:or=31")));
        let coloured = run(coloured, &tree);
        assert_eq!(plain.displays.len(), count, "{dir}");
        assert_eq!(coloured.displays, plain.displays, "{dir}");
        assert!(coloured.text.contains("\x1b["), "{dir}");
        assert_eq!(erased(&coloured.text), plain.text, "{dir}");
    }
    let plain = run(config(Kind::Path, ".", "", "/log", "/home/me", "/home/me/work"), &tree);
    assert_eq!(
        plain.text,
        "~/x y/\n~/\nsrc/deep/\nsrc/run\nsrc/h\u{e9}.txt\ngone\nthere/deep/\n"
    );
}

#[test]
fn another_reply_is_ignored() {
    let mut session = Session::new(config(Kind::Path, ".", "", "/log", "/home/me", "/tmp"));
    assert!(matches!(emit_candidates(&mut session, Reply::Length(3)), Action::Ignored));
    assert!(matches!(emit_candidates(&mut session, Reply::Nothing), Action::Canonicalize(_)));
    assert!(matches!(emit_candidates(&mut session, Reply::Nothing), Action::Ignored));
    assert!(matches!(
        emit_candidates(&mut session, Reply::Canonical(None)),
        Action::OpenLog(_)
    ));
    assert!(matches!(emit_candidates(&mut session, Reply::Length(5)), Action::Proceed));
    assert!(matches!(
        emit_candidates(&mut session, Reply::Nothing),
        Action::ReadLog { position: 0, length: 5 }
    ));
    assert!(matches!(emit_candidates(&mut session, Reply::Bytes(vec![1])), Action::Ignored));
    assert!(matches!(
        emit_candidates(&mut session, Reply::Bytes(b"line\n".to_vec())),
        Action::Proceed
    ));
    assert!(matches!(emit_candidates(&mut session, Reply::Nothing), Action::Proceed));
    assert!(matches!(emit_candidates(&mut session, Reply::Nothing), Action::Finished));
    assert!(matches!(emit_candidates(&mut session, Reply::Nothing), Action::Finished));
    assert!(matches!(emit_candidates(&mut session, Reply::IsDirectory(true)), Action::Ignored));
}

#[test]
fn a_path_that_is_no_text_is_compared_with_replacement_characters() {
    let mut config = config(Kind::Path, "/", "", "/log", "/home/me", "/tmp");
    config.dir = "/x".to_string();
    let mut session = Session::new(config);
    let log = b"1\t/x/\xff\tls a\n".to_vec();
    let mut reply = Reply::Nothing;
    let mut printed = Vec::new();
    let mut asked = Vec::new();
    loop {
        reply = match emit_candidates(&mut session, reply) {
            Action::Canonicalize(path) => {
                asked.push(path.bytes.clone());
                if path.bytes.len() > 2 {
                    Reply::Canonical(Some(FsPath::from_bytes(b"/x/\xff")))
                } else {
                    Reply::Canonical(None)
                }
            }
            Action::OpenLog(_) => Reply::Length(log.len() as u64),
            Action::ReadLog { .. } => Reply::Bytes(log.clone()),
            Action::Examine(path) => Reply::Entry(if path.bytes.ends_with(b"/a") {
                Some(Entry {
                    metadata: Metadata { kind: FileKind::Regular, mode: 0 },
                    target: None,
                })
            } else {
                None
            }),
            Action::Print { display, line, .. } => {
                printed.push((display, line));
                Reply::Nothing
            }
            Action::Finished => break,
            _ => Reply::Nothing,
        };
    }
    assert_eq!(asked, vec![b"/x".to_vec(), "/x/\u{fffd}".as_bytes().to_vec()]);
    assert_eq!(printed, vec![("/x/\u{fffd}/a".to_string(), "/x/\u{fffd}/a".to_string())]);
}

#[test]
fn tokens_are_looked_for_in_order() {
    let place = |token: &str, post: Option<&str>, current: Option<&str>| {
        let (first, second) = resolve_candidate(
            &FsPath::from_text(token),
            &FsPath::from_text("/cwd"),
            post.map(|p| FsPath::from_text(p)).as_ref(),
            current.map(|p| FsPath::from_text(p)).as_ref(),
        );
        (text(&first), second.map(|p| text(&p)))
    };
    assert_eq!(place("/a/../b", Some("/post"), None), ("/b".to_string(), None));
    assert_eq!(place("x", None, None), ("/cwd/x".to_string(), None));
    assert_eq!(
        place("../x", Some("/post/deep"), None),
        ("/x".to_string(), Some("/post/x".to_string()))
    );
}
