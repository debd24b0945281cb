//! The settings of a run, out of the arguments and the environment.

use vstd::prelude::*;

use crate::colors;
use crate::colors::LsColors;
use crate::colors::Scheme;
use crate::display_laws;
use crate::number;
use crate::path;
use crate::path::FsPath;
use crate::path::PathSymbol;
use crate::path_laws;
use crate::text;

verus! {

/// How many lines of the log are read, and how many candidates are given, where the environment
/// says nothing else.
pub const DEFAULT_LIMIT: usize = 3000;

/// What candidates are wanted.
#[derive(Clone, Copy, Debug, PartialEq, Eq, Structural)]
pub enum Kind {
    /// Any path.
    Path,
    /// Directories only.
    Dir,
}

/// The settings of a run.
pub struct Settings {
    pub kind: Kind,
    pub dir: Seq<char>,
    pub leftover: Seq<char>,
    pub display_prefix: Seq<char>,
    pub lines_limit: nat,
    pub max_candidates: nat,
    pub pwdlog_file: Seq<u8>,
    pub home: Seq<u8>,
    pub pwd: Seq<u8>,
    pub current_dir: Option<Seq<u8>>,
    pub scheme: Option<Scheme>,
}

/// Why there are no settings.
pub enum Refusal {
    /// No kind is given.
    Usage,
    /// The kind is none.
    InvalidKind(Seq<char>),
    /// The path of the log is not known.
    NoLog,
}

/// The settings of a run.
#[derive(Debug)]
pub struct Config {
    pub kind: Kind,
    /// The directory under which candidates are wanted.
    pub dir: String,
    /// What candidates begin with behind that directory.
    pub leftover: String,
    /// How the user typed the directory.
    pub display_prefix: String,
    /// How many lines of the log are read.
    pub lines_limit: usize,
    /// How many candidates are given.
    pub max_candidates: usize,
    pub pwdlog_file: FsPath,
    pub home: FsPath,
    pub pwd: FsPath,
    /// The directory of the process, where it is known.
    pub current_dir: Option<FsPath>,
    /// The colours, where candidates are coloured.
    pub ls_colors: Option<LsColors>,
}

impl View for Config {
    type V = Settings;

    open spec fn view(&self) -> Settings {
        Settings {
            kind: self.kind,
            dir: self.dir@,
            leftover: self.leftover@,
            display_prefix: self.display_prefix@,
            lines_limit: self.lines_limit as nat,
            max_candidates: self.max_candidates as nat,
            pwdlog_file: self.pwdlog_file@,
            home: self.home@,
            pwd: self.pwd@,
            current_dir: path::path_option(self.current_dir),
            scheme: match self.ls_colors {
                Some(colors) => Some(colors@),
                None => None,
            },
        }
    }
}

/// Why there are no settings.
#[derive(Debug)]
pub enum ConfigError {
    /// No kind is given.
    Usage,
    /// The kind is none.
    InvalidKind(String),
    /// The path of the log is not known.
    NoLog,
}

impl View for ConfigError {
    type V = Refusal;

    open spec fn view(&self) -> Refusal {
        match self {
            ConfigError::Usage => Refusal::Usage,
            ConfigError::InvalidKind(kind) => Refusal::InvalidKind(kind@),
            ConfigError::NoLog => Refusal::NoLog,
        }
    }
}

/// What the environment says.
#[derive(Debug)]
pub struct Environment {
    /// `FZF_HISTORY_COMPLETION_LINES`.
    pub lines: Option<String>,
    /// `FZF_HISTORY_COMPLETION_MAX_CANDIDATES`.
    pub max_candidates: Option<String>,
    /// `ZSH_PWD_HISTORY_FILE`.
    pub pwdlog_file: Option<FsPath>,
    /// `HISTFILE`.
    pub histfile: Option<FsPath>,
    /// `HOME`.
    pub home: Option<FsPath>,
    /// `PWD`.
    pub pwd: Option<FsPath>,
    /// The directory of the process.
    pub current_dir: Option<FsPath>,
    /// The canonical form of `home_dir`, where it exists.
    pub canonical_home: Option<FsPath>,
    /// The canonical form of `working_dir`, where it exists.
    pub canonical_pwd: Option<FsPath>,
    /// `LS_COLORS`.
    pub ls_colors: Option<String>,
}

/// Whether an argument asks for colours.
pub open spec fn is_color_flag(arg: Seq<char>) -> bool {
    arg == seq!['-', 'c'] || arg == seq!['-', '-', 'c', 'o', 'l', 'o', 'r']
}

/// The arguments that do not ask for colours.
pub open spec fn positional(args: Seq<Seq<char>>) -> Seq<Seq<char>>
    decreases args.len(),
{
    if args.len() == 0 {
        Seq::empty()
    } else if is_color_flag(args.last()) {
        positional(args.drop_last())
    } else {
        positional(args.drop_last()).push(args.last())
    }
}

/// Whether some argument asks for colours.
pub open spec fn asks_for_color(args: Seq<Seq<char>>) -> bool {
    exists|i: int| 0 <= i < args.len() && is_color_flag(#[trigger] args[i])
}

/// The kind with a name.
pub open spec fn kind_named(name: Seq<char>) -> Option<Kind> {
    if name == seq!['p', 'a', 't', 'h'] {
        Some(Kind::Path)
    } else if name == seq!['d', 'i', 'r'] {
        Some(Kind::Dir)
    } else {
        None
    }
}

/// The name of the log beside the history file.
pub open spec fn log_name() -> Seq<char> {
    seq!['.', 'z', 's', 'h', '_', 'h', 'i', 's', 't', 'o', 'r', 'y', '_', 'p', 'w', 'd']
}

/// The log in the directory of the history file.
pub open spec fn log_beside(histfile: Option<Seq<u8>>) -> Option<Seq<u8>> {
    match histfile {
        Some(file) => Some(
            path::joined(path::popped(file), vstd::utf8::encode_utf8(log_name())),
        ),
        None => None,
    }
}

/// The home directory as the environment names it; the empty path where it does not.
pub open spec fn home_named(home: Option<Seq<u8>>) -> Seq<u8> {
    match home {
        Some(home) => home,
        None => Seq::empty(),
    }
}

/// The working directory as the environment names it, else that of the process, else `.`.
pub open spec fn pwd_named(pwd: Option<Seq<u8>>, current_dir: Option<Seq<u8>>) -> Seq<u8> {
    match pwd {
        Some(pwd) => pwd,
        None => match current_dir {
            Some(dir) => dir,
            None => seq![u8::dot()],
        },
    }
}

/// A limit that the environment may set.
pub open spec fn limit_of(value: Option<Seq<char>>) -> nat {
    match value {
        Some(v) => match number::number(v, usize::MAX as nat) {
            Some(n) => n,
            None => DEFAULT_LIMIT as nat,
        },
        None => DEFAULT_LIMIT as nat,
    }
}

/// The log: the one that the environment names, else the one beside the history file.
pub open spec fn log_file(env: Environment) -> Option<Seq<u8>> {
    match env.pwdlog_file {
        Some(file) => Some(file@),
        None => log_beside(path::path_option(env.histfile)),
    }
}

/// The settings for these arguments and this environment: a kind, then optionally the
/// directory, what candidates begin with, and how the directory was typed.
pub open spec fn configured(args: Seq<Seq<char>>, env: Environment) -> Result<Settings, Refusal> {
    let rest = positional(args);
    let dir = if rest.len() > 1 {
        rest[1]
    } else {
        seq!['.']
    };
    let current_dir = path::path_option(env.current_dir);
    if rest.len() == 0 {
        Err(Refusal::Usage)
    } else if kind_named(rest[0]) is None {
        Err(Refusal::InvalidKind(rest[0]))
    } else if log_file(env) is None {
        Err(Refusal::NoLog)
    } else {
        Ok(
            Settings {
                kind: kind_named(rest[0])->0,
                dir,
                leftover: if rest.len() > 2 {
                    rest[2]
                } else {
                    Seq::empty()
                },
                display_prefix: if rest.len() > 3 {
                    rest[3]
                } else {
                    dir
                },
                lines_limit: limit_of(text::text_option(env.lines)),
                max_candidates: limit_of(text::text_option(env.max_candidates)),
                pwdlog_file: log_file(env)->0,
                home: path::absolutized(
                    home_named(path::path_option(env.home)),
                    path::path_option(env.canonical_home),
                    current_dir,
                ),
                pwd: path::absolutized(
                    pwd_named(path::path_option(env.pwd), current_dir),
                    path::path_option(env.canonical_pwd),
                    current_dir,
                ),
                current_dir,
                scheme: if asks_for_color(args) {
                    Some(colors::scheme_for(text::text_option(env.ls_colors)))
                } else {
                    None
                },
            },
        )
    }
}

/// The log in the directory of the history file.
pub fn default_pwdlog_file(histfile: Option<&FsPath>) -> (r: Option<FsPath>)
    ensures
        path::path_option(r) == log_beside(path::path_ref_option(histfile)),
{
    match histfile {
        Some(file) => {
            let name = [
                '.',
                'z',
                's',
                'h',
                '_',
                'h',
                'i',
                's',
                't',
                'o',
                'r',
                'y',
                '_',
                'p',
                'w',
                'd',
            ];
            assert(name@ =~= log_name());
            let text = text::string_of(&name);
            Some(file.popped().join(&FsPath::from_text(text.as_str())))
        },
        None => None,
    }
}

/// The home directory as the environment names it.
pub fn home_dir(home: Option<&FsPath>) -> (r: FsPath)
    ensures
        r@ == home_named(path::path_ref_option(home)),
{
    match home {
        Some(home) => home.duplicate(),
        None => {
            let r = FsPath { bytes: Vec::new() };
            assert(r@ =~= Seq::<u8>::empty());
            r
        },
    }
}

/// The working directory as the environment names it, else that of the process, else `.`.
pub fn working_dir(pwd: Option<&FsPath>, current_dir: Option<&FsPath>) -> (r: FsPath)
    ensures
        r@ == pwd_named(path::path_ref_option(pwd), path::path_ref_option(current_dir)),
{
    match (pwd, current_dir) {
        (Some(pwd), _) => pwd.duplicate(),
        (None, Some(dir)) => dir.duplicate(),
        (None, None) => {
            let mut bytes: Vec<u8> = Vec::new();
            bytes.push(46u8);
            let r = FsPath { bytes };
            assert(r@ =~= seq![u8::dot()]);
            r
        },
    }
}

/// An optional string as an optional reference.
fn borrowed(value: &Option<String>) -> (r: Option<&str>)
    ensures
        text::str_option(r) == text::text_option(*value),
{
    match value {
        Some(value) => Some(value.as_str()),
        None => None,
    }
}

/// Whether an argument asks for colours.
fn asks_color(arg: &str) -> (r: bool)
    ensures
        r == is_color_flag(arg@),
{
    let chars = text::chars_of(arg);
    let short = ['-', 'c'];
    let long = ['-', '-', 'c', 'o', 'l', 'o', 'r'];
    assert(short@ =~= seq!['-', 'c']);
    assert(long@ =~= seq!['-', '-', 'c', 'o', 'l', 'o', 'r']);
    text::same_text(chars.as_slice(), &short) || text::same_text(chars.as_slice(), &long)
}

/// The kind with a name.
fn parse_kind(name: &str) -> (r: Option<Kind>)
    ensures
        r == kind_named(name@),
{
    let chars = text::chars_of(name);
    let path_text = ['p', 'a', 't', 'h'];
    let dir_text = ['d', 'i', 'r'];
    assert(path_text@ =~= seq!['p', 'a', 't', 'h']);
    assert(dir_text@ =~= seq!['d', 'i', 'r']);
    if text::same_text(chars.as_slice(), &path_text) {
        Some(Kind::Path)
    } else if text::same_text(chars.as_slice(), &dir_text) {
        Some(Kind::Dir)
    } else {
        None
    }
}

/// The arguments that do not ask for colours, and whether one does.
fn sort_arguments(args: &[String]) -> (r: (Vec<String>, bool))
    ensures
        text::texts(r.0@) == positional(text::texts(args@)),
        r.1 == asks_for_color(text::texts(args@)),
{
    let ghost all = text::texts(args@);
    let mut rest: Vec<String> = Vec::new();
    let mut color = false;
    let mut i: usize = 0;
    assert(text::texts(rest@) =~= positional(all.take(0)));
    while i < args.len()
        invariant
            i <= args@.len(),
            all == text::texts(args@),
            text::texts(rest@) == positional(all.take(i as int)),
            color == (exists|j: int| 0 <= j < i && is_color_flag(#[trigger] all[j])),
        decreases args@.len() - i,
    {
        let ghost before = rest@;
        assert(all.take(i as int + 1).drop_last() =~= all.take(i as int));
        assert(all.take(i as int + 1).last() == args@[i as int]@);
        assert(all[i as int] == args@[i as int]@);
        if asks_color(args[i].as_str()) {
            color = true;
        } else {
            rest.push(args[i].clone());
            assert(text::texts(rest@) =~= text::texts(before).push(args@[i as int]@));
        }
        i += 1;
    }
    assert(all.take(i as int) =~= all);
    (rest, color)
}

/// The canonical form of a path, or its lexical form.
fn absolute(path: FsPath, canonical: &Option<FsPath>, current_dir: &Option<FsPath>) -> (r: FsPath)
    ensures
        r@ == path::absolutized(
            path@,
            path::path_option(*canonical),
            path::path_option(*current_dir),
        ),
{
    match canonical {
        Some(canonical) => canonical.duplicate(),
        None => path::absolutize_lexical(&path, current_dir.as_ref()),
    }
}

impl Config {
    /// The settings for these arguments (the program's own name left out) and this environment.
    pub fn from_env(args: &[String], env: &Environment) -> (r: Result<Config, ConfigError>)
        ensures
            match r {
                Ok(config) => configured(text::texts(args@), *env) == Ok::<Settings, Refusal>(
                    config@,
                ),
                Err(error) => configured(text::texts(args@), *env) == Err::<Settings, Refusal>(
                    error@,
                ),
            },
    {
        let (rest, color) = sort_arguments(args);
        let ghost all = positional(text::texts(args@));
        if rest.len() == 0 {
            return Err(ConfigError::Usage);
        }
        assert(forall|i: int| 0 <= i < rest@.len() ==> (#[trigger] rest@[i])@ == all[i]);
        let kind = match parse_kind(rest[0].as_str()) {
            Some(kind) => kind,
            None => return Err(ConfigError::InvalidKind(rest[0].clone())),
        };
        let dir = if rest.len() > 1 {
            rest[1].clone()
        } else {
            let dot = ['.'];
            assert(dot@ =~= seq!['.']);
            text::string_of(&dot)
        };
        let leftover = if rest.len() > 2 {
            rest[2].clone()
        } else {
            String::new()
        };
        let display_prefix = if rest.len() > 3 {
            rest[3].clone()
        } else {
            dir.clone()
        };
        let pwdlog_file = match &env.pwdlog_file {
            Some(file) => file.duplicate(),
            None => match default_pwdlog_file(env.histfile.as_ref()) {
                Some(file) => file,
                None => return Err(ConfigError::NoLog),
            },
        };
        let current_dir = match &env.current_dir {
            Some(dir) => Some(dir.duplicate()),
            None => None,
        };
        let home = absolute(home_dir(env.home.as_ref()), &env.canonical_home, &env.current_dir);
        let pwd = absolute(
            working_dir(env.pwd.as_ref(), env.current_dir.as_ref()),
            &env.canonical_pwd,
            &env.current_dir,
        );
        let lines_limit = number::env_usize(borrowed(&env.lines), DEFAULT_LIMIT);
        let max_candidates = number::env_usize(borrowed(&env.max_candidates), DEFAULT_LIMIT);
        let ls_colors = if color {
            Some(LsColors::new(borrowed(&env.ls_colors)))
        } else {
            None
        };
        Ok(
            Config {
                kind,
                dir,
                leftover,
                display_prefix,
                lines_limit,
                max_candidates,
                pwdlog_file,
                home,
                pwd,
                current_dir,
                ls_colors,
            },
        )
    }
}

proof fn lemma_positional_of_both(a: Seq<Seq<char>>, b: Seq<Seq<char>>)
    ensures
        positional(a + b) == positional(a) + positional(b),
    decreases b.len(),
{
    if b.len() == 0 {
        assert(a + b =~= a);
        assert(positional(a) + positional(b) =~= positional(a));
    } else {
        assert((a + b).drop_last() =~= a + b.drop_last());
        lemma_positional_of_both(a, b.drop_last());
        assert(positional(a + b) =~= positional(a) + positional(b));
    }
}

/// The argument that asks for colours may stand anywhere: it gives colours, and changes nothing
/// else.
pub proof fn law_color_flag_may_stand_anywhere(
    before: Seq<Seq<char>>,
    flag: Seq<char>,
    behind: Seq<Seq<char>>,
    env: Environment,
)
    requires
        is_color_flag(flag),
    ensures
        configured(before + seq![flag] + behind, env) == match configured(before + behind, env) {
            Ok(settings) => Ok::<Settings, Refusal>(
                Settings {
                    scheme: Some(colors::scheme_for(text::text_option(env.ls_colors))),
                    ..settings
                },
            ),
            Err(refusal) => Err(refusal),
        },
{
    let all = before + seq![flag] + behind;
    lemma_positional_of_both(before + seq![flag], behind);
    lemma_positional_of_both(before, seq![flag]);
    lemma_positional_of_both(before, behind);
    assert(seq![flag].drop_last() =~= Seq::empty());
    assert(positional(seq![flag].drop_last()) =~= Seq::empty());
    assert(seq![flag].last() == flag);
    assert(positional(before) + positional(seq![flag]) =~= positional(before));
    assert(is_color_flag(all[before.len() as int]));
    assert(asks_for_color(all));
}

/// A limit that is written as a number is that number.
pub proof fn law_limit_is_read_back(n: nat)
    requires
        n <= usize::MAX,
    ensures
        limit_of(Some(number::decimal(n))) == n,
{
    number::law_decimal_is_read_back(n, usize::MAX as nat);
}

/// Colours are asked for by `-c` and `--color`, and by no other argument.
pub proof fn law_arguments_that_ask_for_colours(arg: Seq<char>)
    ensures
        is_color_flag(arg) <==> arg == "-c"@ || arg == "--color"@,
{
    reveal_strlit("-c");
    reveal_strlit("--color");
    assert("-c"@ =~= seq!['-', 'c']);
    assert("--color"@ =~= seq!['-', '-', 'c', 'o', 'l', 'o', 'r']);
}

/// The kinds are named `path` and `dir`, and there is no other.
pub proof fn law_names_of_kinds(name: Seq<char>)
    ensures
        kind_named(name) == Some(Kind::Path) <==> name == "path"@,
        kind_named(name) == Some(Kind::Dir) <==> name == "dir"@,
        kind_named(name) is None <==> name != "path"@ && name != "dir"@,
{
    reveal_strlit("path");
    reveal_strlit("dir");
    assert("path"@ =~= seq!['p', 'a', 't', 'h']);
    assert("dir"@ =~= seq!['d', 'i', 'r']);
    assert("path"@.len() == 4 && "dir"@.len() == 3);
}

proof fn lemma_all_positional(args: Seq<Seq<char>>)
    requires
        forall|i: int| 0 <= i < args.len() ==> !is_color_flag(#[trigger] args[i]),
    ensures
        positional(args) == args,
        !asks_for_color(args),
    decreases args.len(),
{
    if args.len() > 0 {
        let before = args.drop_last();
        assert forall|i: int| 0 <= i < before.len() implies !is_color_flag(#[trigger] before[i]) by {
            assert(before[i] == args[i]);
        }
        lemma_all_positional(before);
        assert(!is_color_flag(args[args.len() - 1]));
        assert(before.push(args.last()) =~= args);
    } else {
        assert(positional(args) =~= args);
    }
}

/// Without arguments that ask for colours there are none, and the arguments are the kind, the
/// directory, which is `.` where it is not given, what is typed behind it, which is nothing then,
/// and how the directory was typed, which is the directory itself then. More of them change
/// nothing.
pub proof fn law_arguments_are_taken_in_order(args: Seq<Seq<char>>, env: Environment)
    requires
        forall|i: int|
            0 <= i < args.len() ==> #[trigger] args[i] != "-c"@ && args[i] != "--color"@,
    ensures
        configured(args, env) == Err::<Settings, Refusal>(Refusal::Usage) <==> args.len() == 0,
        args.len() > 0 && args[0] != "path"@ && args[0] != "dir"@ ==> configured(args, env) == Err::<
            Settings,
            Refusal,
        >(Refusal::InvalidKind(args[0])),
        args.len() > 0 && (args[0] == "path"@ || args[0] == "dir"@) ==> {
            &&& env.pwdlog_file is None && env.histfile is None ==> configured(args, env) == Err::<
                Settings,
                Refusal,
            >(Refusal::NoLog)
            &&& env.pwdlog_file is Some || env.histfile is Some ==> {
                &&& configured(args, env) is Ok
                &&& ({
                    let settings = configured(args, env)->Ok_0;
                    &&& settings.kind == Kind::Dir <==> args[0] == "dir"@
                    &&& args.len() > 1 ==> settings.dir == args[1]
                    &&& args.len() <= 1 ==> settings.dir == "."@
                    &&& args.len() > 2 ==> settings.leftover == args[2]
                    &&& args.len() <= 2 ==> settings.leftover == ""@
                    &&& args.len() > 3 ==> settings.display_prefix == args[3]
                    &&& args.len() <= 3 ==> settings.display_prefix == settings.dir
                    &&& settings.scheme is None
                })
            }
        },
{
    assert forall|i: int| 0 <= i < args.len() implies !is_color_flag(#[trigger] args[i]) by {
        law_arguments_that_ask_for_colours(args[i]);
    }
    lemma_all_positional(args);
    if args.len() > 0 {
        law_names_of_kinds(args[0]);
    }
    reveal_strlit(".");
    reveal_strlit("");
    assert("."@ =~= seq!['.']);
    assert(""@ =~= Seq::empty());
}

/// What the environment gives to the settings, whatever the arguments are: the log that it names,
/// the directories in canonical form where they exist and in lexical form where they do not, and
/// the limits.
pub proof fn law_settings_of_the_environment(args: Seq<Seq<char>>, env: Environment)
    requires
        configured(args, env) is Ok,
    ensures
        ({
            let settings = configured(args, env)->Ok_0;
            let current_dir = path::path_option(env.current_dir);
            &&& env.pwdlog_file is Some ==> settings.pwdlog_file == env.pwdlog_file->0@
            &&& settings.current_dir == current_dir
            &&& env.canonical_home is Some ==> settings.home == env.canonical_home->0@
            &&& env.canonical_home is None && env.home is Some ==> settings.home == path::lexical(
                env.home->0@,
                current_dir,
            )
            &&& env.canonical_home is None && env.home is None ==> settings.home == path::lexical(
                Seq::empty(),
                current_dir,
            )
            &&& env.canonical_pwd is Some ==> settings.pwd == env.canonical_pwd->0@
            &&& env.canonical_pwd is None && env.pwd is Some ==> settings.pwd == path::lexical(
                env.pwd->0@,
                current_dir,
            )
            &&& env.canonical_pwd is None && env.pwd is None && env.current_dir is Some
                ==> settings.pwd == path::lexical(env.current_dir->0@, current_dir)
            &&& env.canonical_pwd is None && env.pwd is None && env.current_dir is None
                ==> settings.pwd == path::lexical(seq![46u8], None)
            &&& settings.lines_limit == limit_of(text::text_option(env.lines))
            &&& settings.max_candidates == limit_of(text::text_option(env.max_candidates))
        }),
{
}

/// A limit is the number that its text spells, one or more digits with a `+` before them or not,
/// where it is not too large, and three thousand otherwise.
pub proof fn law_limits_are_numbers(digits: Seq<char>, other: Seq<char>)
    requires
        number::number(other, usize::MAX as nat) is None,
    ensures
        limit_of(None) == 3000,
        limit_of(Some(other)) == 3000,
        number::number(digits, usize::MAX as nat) is Some ==> limit_of(Some(digits))
            == number::number(digits, usize::MAX as nat)->0,
{
}

/// Where the environment names no log, it is `.zsh_history_pwd` in the directory of the history
/// file.
pub proof fn law_log_stands_beside_the_history(root: bool, dirs: Seq<Seq<u8>>, name: Seq<u8>)
    requires
        path_laws::are_names(dirs),
        path_laws::is_name(name),
    ensures
        log_beside(Some(path::path_of_names(root, dirs.push(name)))) == Some(
            path::path_of_names(
                root,
                dirs.push(vstd::utf8::encode_utf8(".zsh_history_pwd"@)),
            ),
        ),
        log_beside(None) is None,
{
    let all = dirs.push(name);
    reveal_strlit(".zsh_history_pwd");
    assert(".zsh_history_pwd"@ =~= log_name());
    assert(path_laws::are_names(all)) by {
        assert forall|i: int| 0 <= i < all.len() implies path_laws::is_name(#[trigger] all[i]) by {
            if i < dirs.len() {
                assert(all[i] == dirs[i]);
            }
        }
    }
    path_laws::law_popping_takes_the_last_name(root, all);
    assert(all.drop_last() =~= dirs);
    assert(path_laws::is_name(log_name())) by {
        assert forall|i: int| 0 <= i < log_name().len() implies log_name()[i] != '/' by {}
        assert(!log_name().contains('/'));
        assert(log_name().len() == 16);
    }
    display_laws::law_names_are_encoded_as_names(log_name());
    path_laws::law_joining_appends_a_name(root, dirs, vstd::utf8::encode_utf8(log_name()));
}

} // verus!
