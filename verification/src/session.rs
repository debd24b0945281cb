//! A run: from the log to the candidates, in steps between which the caller asks the file system.

use vstd::hash_set::StringHashSet;
use vstd::prelude::*;

use crate::config::Config;
use crate::config::Kind;
use crate::config::Settings;
use crate::files::Candidate;
use crate::files::Entry;
use crate::location;
use crate::paint;
use crate::path;
use crate::path::FsPath;
use crate::tail;
use crate::tail::Progress;
use crate::tail::Reading;
use crate::tail::TailReader;
use crate::tail::TailStep;
use crate::text;
use crate::tokens;
use crate::utf8;
use crate::words;

verus! {

/// What a run asks of its caller.
pub enum Act {
    /// The canonical form of a path, if it exists (`Answer::Canonical`).
    Canonicalize(Seq<u8>),
    /// To open the log and to tell its length (`Answer::Length`).
    OpenLog(Seq<u8>),
    /// These bytes of the log (`Answer::Bytes`).
    ReadLog { position: nat, length: nat },
    /// What is at a path (`Answer::Entry`).
    Examine(Seq<u8>),
    /// Whether a path leads to a directory (`Answer::IsDirectory`).
    CheckDir(Seq<u8>),
    /// To print a line, the candidate that is shown as `display`, and maybe to flush it
    /// (`Answer::Nothing`).
    Print { display: Seq<char>, line: Seq<char>, flush: bool },
    /// To go on (`Answer::Nothing`).
    Proceed,
    /// Nothing more.
    Finished,
    /// Another answer: the one given is none to what was asked, and changes nothing.
    Ignored,
}

/// What the caller answers.
pub enum Answer {
    Nothing,
    Canonical(Option<Seq<u8>>),
    Length(nat),
    Bytes(Seq<u8>),
    Entry(Option<Entry>),
    IsDirectory(bool),
}

/// The words of a command that are left.
pub struct Words {
    /// The directory in which the command was given.
    pub cwd: Seq<u8>,
    /// The directory in which it left the shell, if it changed it.
    pub post: Option<Seq<u8>>,
    pub words: Seq<Seq<char>>,
    /// The word to look at next.
    pub index: nat,
}

/// What a run is about.
pub enum Phase {
    /// To begin.
    Start,
    /// To learn the canonical form of the directory that the user asks for.
    ResolvingDir { path: Seq<u8> },
    /// To learn the length of the log.
    OpeningLog,
    /// To look at the next line.
    NextLine,
    /// To get bytes of the log.
    Reading,
    /// To learn the canonical form of the directory of a command.
    ResolvingCwd { raw: Seq<char>, command: Seq<char>, path: Seq<u8> },
    /// To learn the canonical form of the directory in which a command left the shell.
    ResolvingPost { cwd: Seq<u8>, words: Seq<Seq<char>>, path: Seq<u8> },
    /// To learn whether that is a directory.
    CheckingPost { cwd: Seq<u8>, words: Seq<Seq<char>>, path: Seq<u8> },
    /// To look at the next word.
    NextWord { work: Words },
    /// To learn what is at a path that a word may name, before another one is tried.
    Probing { work: Words, path: Seq<u8>, fallback: Option<Seq<u8>> },
    /// To learn what is at the paths of the components of a candidate.
    Painting {
        work: Words,
        path: Seq<u8>,
        entry: Entry,
        display: Seq<char>,
        paths: Seq<Seq<u8>>,
        known: Seq<Option<Entry>>,
    },
    /// To have a candidate printed.
    Printing { work: Words, stop: bool },
    /// Nothing more.
    Done,
}

/// A run.
pub struct State {
    pub settings: Settings,
    /// What the text of a candidate's path begins with.
    pub dir_prefix: Seq<char>,
    /// What it begins with, too, where the user typed more than the directory.
    pub leftover_prefix: Option<Seq<char>>,
    /// The candidates so far, as they are shown.
    pub seen: Set<Seq<char>>,
    /// The directory of the last command, as it is written in the log and made absolute.
    pub last_cwd: Option<(Seq<char>, Seq<u8>)>,
    /// How many candidates have been printed.
    pub count: nat,
    pub reading: Reading,
    pub phase: Phase,
}

/// A run at its beginning.
pub open spec fn initial(settings: Settings) -> State {
    State {
        settings,
        dir_prefix: Seq::empty(),
        leftover_prefix: None,
        seen: Set::empty(),
        last_cwd: None,
        count: 0,
        reading: tail::unread(0, 0),
        phase: Phase::Start,
    }
}

/// The run on to another phase, with nothing to ask in between.
pub open spec fn on_to(s: State, phase: Phase) -> (State, Act) {
    (State { phase, ..s }, Act::Proceed)
}

/// Whether an answer is one to what was asked.
pub open spec fn awaits(s: State, a: Answer) -> bool {
    match s.phase {
        Phase::Start => a is Nothing,
        Phase::ResolvingDir { .. } => a is Canonical,
        Phase::OpeningLog => a is Length,
        Phase::NextLine => a is Nothing,
        Phase::Reading => a is Bytes && a->Bytes_0.len() == tail::chunk_length(s.reading.position),
        Phase::ResolvingCwd { .. } => a is Canonical,
        Phase::ResolvingPost { .. } => a is Canonical,
        Phase::CheckingPost { .. } => a is IsDirectory,
        Phase::NextWord { .. } => a is Nothing,
        Phase::Probing { .. } => a is Entry,
        Phase::Painting { .. } => a is Entry,
        Phase::Printing { .. } => a is Nothing,
        Phase::Done => a is Nothing,
    }
}

/// Whether the user typed a path that is neither absolute nor from the home directory.
pub open spec fn is_relative_input(dir: Seq<char>) -> bool {
    !text::begins(dir, seq!['/']) && !text::begins(dir, seq!['~'])
}

/// The run after the directory is known.
pub open spec fn dir_step(s: State, dir: Seq<u8>) -> (State, Act) {
    let dir_prefix = location::slash_ended(utf8::shown_text(dir));
    let next = State {
        dir_prefix,
        leftover_prefix: if s.settings.leftover.len() > 0 {
            Some(dir_prefix + s.settings.leftover)
        } else {
            None
        },
        ..s
    };
    if s.settings.lines_limit == 0 {
        (State { phase: Phase::Done, ..next }, Act::Finished)
    } else {
        (State { phase: Phase::OpeningLog, ..next }, Act::OpenLog(s.settings.pwdlog_file))
    }
}

/// The run with a command and its directory: `cd` and `pushd` may lead into another one.
pub open spec fn command_step(s: State, cwd: Seq<u8>, command: Seq<char>) -> (State, Act) {
    let words = tokens::words(command);
    let target = words::cwd_after(cwd, words, s.settings.home);
    if words.len() == 0 {
        on_to(s, Phase::NextLine)
    } else if target is Some {
        (
            State { phase: Phase::ResolvingPost { cwd, words, path: target->0 }, ..s },
            Act::Canonicalize(target->0),
        )
    } else {
        on_to(s, Phase::NextWord { work: Words { cwd, post: None, words, index: 0 } })
    }
}

/// The directory of a command that was given where the last one was given.
pub open spec fn known_cwd(last: Option<(Seq<char>, Seq<u8>)>, raw: Seq<char>) -> Option<Seq<u8>> {
    match last {
        Some((known, dir)) => if known == raw {
            Some(dir)
        } else {
            None
        },
        None => None,
    }
}

/// The run with the next line of the log, if there is one. The directory of a command that was
/// given where the one before was given is known already.
pub open spec fn line_step(s: State) -> (State, Act) {
    let (reading, progress) = tail::advanced(s.reading);
    let next = State { reading, ..s };
    match progress {
        Progress::Finished => (State { phase: Phase::Done, ..next }, Act::Finished),
        Progress::Read { position, length } => (
            State { phase: Phase::Reading, ..next },
            Act::ReadLog { position, length },
        ),
        Progress::Line(bytes) => match tail::log_fields(tail::line_text(bytes)) {
            None => on_to(next, Phase::NextLine),
            Some((raw, command)) => if raw.len() == 0 || command.len() == 0 {
                on_to(next, Phase::NextLine)
            } else if known_cwd(s.last_cwd, raw) is Some {
                command_step(next, known_cwd(s.last_cwd, raw)->0, command)
            } else {
                let path = vstd::utf8::encode_utf8(raw);
                (
                    State { phase: Phase::ResolvingCwd { raw, command, path }, ..next },
                    Act::Canonicalize(path),
                )
            },
        },
    }
}

/// Where a token may be: at its place where it is absolute, else in the directory of the
/// command, else in that in which the command left the shell.
pub open spec fn places(
    token: Seq<u8>,
    cwd: Seq<u8>,
    post: Option<Seq<u8>>,
    current_dir: Option<Seq<u8>>,
) -> (Seq<u8>, Option<Seq<u8>>) {
    if path::is_absolute(token) {
        (path::lexical(token, current_dir), None)
    } else {
        (
            path::lexical(path::joined(cwd, token), current_dir),
            match post {
                Some(dir) => Some(path::lexical(path::joined(dir, token), current_dir)),
                None => None,
            },
        )
    }
}

/// The run with the next word, if there is one.
pub open spec fn word_step(s: State, work: Words) -> (State, Act) {
    if work.index >= work.words.len() {
        on_to(s, Phase::NextLine)
    } else {
        let word = work.words[work.index as int];
        let next = Words { index: work.index + 1, ..work };
        let token = location::expanded(word, s.settings.home);
        if words::is_no_path(word) || token is None {
            on_to(s, Phase::NextWord { work: next })
        } else {
            let (path, fallback) = places(
                token->0,
                work.cwd,
                work.post,
                s.settings.current_dir,
            );
            (State { phase: Phase::Probing { work: next, path, fallback }, ..s }, Act::Examine(path))
        }
    }
}

/// Whether an entry is one that the user asks for.
pub open spec fn is_wanted(s: State, p: Seq<u8>, is_dir: bool) -> bool {
    &&& s.settings.kind == Kind::Dir ==> is_dir
    &&& text::begins(utf8::shown_text(p), s.dir_prefix)
    &&& s.leftover_prefix is Some ==> text::begins(utf8::shown_text(p), s.leftover_prefix->0)
}

/// What is shown for a path.
pub open spec fn display_of(settings: Settings, p: Seq<u8>) -> Seq<char> {
    location::displayed(
        p,
        settings.home,
        settings.pwd,
        settings.display_prefix,
        is_relative_input(settings.dir),
    )
}

/// The run with a line to print.
pub open spec fn print_step(s: State, work: Words, display: Seq<char>, line: Seq<char>) -> (
    State,
    Act,
) {
    let count = s.count + 1;
    (
        State {
            count,
            phase: Phase::Printing { work, stop: count >= s.settings.max_candidates },
            ..s
        },
        Act::Print { display, line, flush: count == 1 },
    )
}

/// The run with a candidate of which the components are known in part: to the next component
/// of which nothing is known, or to print the candidate.
pub open spec fn paint_step(
    s: State,
    work: Words,
    p: Seq<u8>,
    entry: Entry,
    display: Seq<char>,
    paths: Seq<Seq<u8>>,
    known: Seq<Option<Entry>>,
) -> (State, Act) {
    if known.len() < paths.len() {
        (
            State { phase: Phase::Painting { work, path: p, entry, display, paths, known }, ..s },
            Act::Examine(paths[known.len() as int]),
        )
    } else {
        let line = match s.settings.scheme {
            Some(scheme) => paint::painted(
                scheme,
                display,
                p,
                entry.is_dir_spec(),
                Some(entry.metadata),
                entry.target_exists_spec(),
                known,
            ),
            None => display + location::dir_marker(display, entry.is_dir_spec()),
        };
        print_step(s, work, display, line)
    }
}

/// The run with an entry that a word names: it is a candidate where it is wanted and not shown
/// yet.
pub open spec fn entry_step(s: State, work: Words, p: Seq<u8>, entry: Entry) -> (State, Act) {
    let display = display_of(s.settings, p);
    if is_wanted(s, p, entry.is_dir_spec()) && !s.seen.contains(display) {
        paint_step(
            State { seen: s.seen.insert(display), ..s },
            work,
            p,
            entry,
            display,
            if s.settings.scheme is Some {
                paint::ancestors(display, p)
            } else {
                Seq::empty()
            },
            Seq::empty(),
        )
    } else {
        on_to(s, Phase::NextWord { work })
    }
}

/// The run after an answer, and what it asks then.
pub open spec fn stepped(s: State, a: Answer) -> (State, Act) {
    let base = State { phase: Phase::Done, ..s };
    let current_dir = s.settings.current_dir;
    if !awaits(s, a) {
        (s, Act::Ignored)
    } else {
        match s.phase {
            Phase::Start => {
                let path = location::input_dir(
                    s.settings.dir,
                    s.settings.home,
                    s.settings.pwd,
                );
                (State { phase: Phase::ResolvingDir { path }, ..s }, Act::Canonicalize(path))
            },
            Phase::ResolvingDir { path } => dir_step(
                base,
                path::absolutized(path, a->Canonical_0, current_dir),
            ),
            Phase::OpeningLog => on_to(
                State { reading: tail::unread(a->Length_0, s.settings.lines_limit), ..base },
                Phase::NextLine,
            ),
            Phase::NextLine => line_step(base),
            Phase::Reading => on_to(
                State { reading: tail::supplied(s.reading, a->Bytes_0), ..base },
                Phase::NextLine,
            ),
            Phase::ResolvingCwd { raw, command, path } => {
                let cwd = path::absolutized(path, a->Canonical_0, current_dir);
                command_step(State { last_cwd: Some((raw, cwd)), ..base }, cwd, command)
            },
            Phase::ResolvingPost { cwd, words, path } => {
                let target = path::absolutized(path, a->Canonical_0, current_dir);
                (
                    State { phase: Phase::CheckingPost { cwd, words, path: target }, ..base },
                    Act::CheckDir(target),
                )
            },
            Phase::CheckingPost { cwd, words, path } => on_to(
                base,
                Phase::NextWord {
                    work: Words {
                        cwd,
                        post: if a->IsDirectory_0 {
                            Some(path)
                        } else {
                            None
                        },
                        words,
                        index: 0,
                    },
                },
            ),
            Phase::NextWord { work } => word_step(base, work),
            Phase::Probing { work, path, fallback } => match a->Entry_0 {
                Some(entry) => entry_step(base, work, path, entry),
                None => match fallback {
                    Some(other) => (
                        State { phase: Phase::Probing { work, path: other, fallback: None }, ..base },
                        Act::Examine(other),
                    ),
                    None => on_to(base, Phase::NextWord { work }),
                },
            },
            Phase::Painting { work, path, entry, display, paths, known } => paint_step(
                base,
                work,
                path,
                entry,
                display,
                paths,
                known.push(a->Entry_0),
            ),
            Phase::Printing { work, stop } => if stop {
                (base, Act::Finished)
            } else {
                on_to(base, Phase::NextWord { work })
            },
            Phase::Done => (s, Act::Finished),
        }
    }
}

/// What holds of every run: while it goes on, fewer candidates than are wanted have been printed,
/// or none.
pub open spec fn state_wf(s: State) -> bool {
    s.count == 0 || s.count < s.settings.max_candidates || s.phase is Done || (s.phase is Printing
        && s.phase->Printing_stop)
}

/// What a run asks of its caller.
#[derive(Debug)]
pub enum Action {
    /// The canonical form of a path, if it exists (`Reply::Canonical`).
    Canonicalize(FsPath),
    /// To open the log and to tell its length (`Reply::Length`).
    OpenLog(FsPath),
    /// These bytes of the log (`Reply::Bytes`).
    ReadLog { position: u64, length: usize },
    /// What is at a path (`Reply::Entry`).
    Examine(FsPath),
    /// Whether a path leads to a directory (`Reply::IsDirectory`).
    CheckDir(FsPath),
    /// To print a line, the candidate that is shown as `display`, and to flush it where asked
    /// (`Reply::Nothing`).
    Print { display: String, line: String, flush: bool },
    /// To go on (`Reply::Nothing`).
    Proceed,
    /// Nothing more.
    Finished,
    /// Another reply: the one given is none to what was asked, and changes nothing.
    Ignored,
}

impl View for Action {
    type V = Act;

    open spec fn view(&self) -> Act {
        match self {
            Action::Canonicalize(path) => Act::Canonicalize(path@),
            Action::OpenLog(path) => Act::OpenLog(path@),
            Action::ReadLog { position, length } => Act::ReadLog {
                position: *position as nat,
                length: *length as nat,
            },
            Action::Examine(path) => Act::Examine(path@),
            Action::CheckDir(path) => Act::CheckDir(path@),
            Action::Print { display, line, flush } => Act::Print {
                display: display@,
                line: line@,
                flush: *flush,
            },
            Action::Proceed => Act::Proceed,
            Action::Finished => Act::Finished,
            Action::Ignored => Act::Ignored,
        }
    }
}

/// What the caller replies.
#[derive(Debug)]
pub enum Reply {
    Nothing,
    Canonical(Option<FsPath>),
    Length(u64),
    Bytes(Vec<u8>),
    Entry(Option<Entry>),
    IsDirectory(bool),
}

impl View for Reply {
    type V = Answer;

    open spec fn view(&self) -> Answer {
        match self {
            Reply::Nothing => Answer::Nothing,
            Reply::Canonical(path) => Answer::Canonical(path::path_option(*path)),
            Reply::Length(length) => Answer::Length(*length as nat),
            Reply::Bytes(bytes) => Answer::Bytes(bytes@),
            Reply::Entry(entry) => Answer::Entry(*entry),
            Reply::IsDirectory(is_dir) => Answer::IsDirectory(*is_dir),
        }
    }
}

/// The words of a command that are left.
struct Work {
    cwd: FsPath,
    post: Option<FsPath>,
    words: Vec<String>,
    index: usize,
}

impl View for Work {
    type V = Words;

    closed spec fn view(&self) -> Words {
        Words {
            cwd: self.cwd@,
            post: path::path_option(self.post),
            words: text::texts(self.words@),
            index: self.index as nat,
        }
    }
}

/// What a run is about.
enum Stage {
    Start,
    ResolvingDir { path: FsPath },
    OpeningLog,
    NextLine,
    Reading,
    ResolvingCwd { raw: String, command: String, path: FsPath },
    ResolvingPost { cwd: FsPath, words: Vec<String>, path: FsPath },
    CheckingPost { cwd: FsPath, words: Vec<String>, path: FsPath },
    NextWord { work: Work },
    Probing { work: Work, path: FsPath, fallback: Option<FsPath> },
    Painting {
        work: Work,
        path: FsPath,
        entry: Entry,
        display: String,
        paths: Vec<FsPath>,
        known: Vec<Option<Entry>>,
    },
    Printing { work: Work, stop: bool },
    Done,
}

impl View for Stage {
    type V = Phase;

    closed spec fn view(&self) -> Phase {
        match self {
            Stage::Start => Phase::Start,
            Stage::ResolvingDir { path } => Phase::ResolvingDir { path: path@ },
            Stage::OpeningLog => Phase::OpeningLog,
            Stage::NextLine => Phase::NextLine,
            Stage::Reading => Phase::Reading,
            Stage::ResolvingCwd { raw, command, path } => Phase::ResolvingCwd {
                raw: raw@,
                command: command@,
                path: path@,
            },
            Stage::ResolvingPost { cwd, words, path } => Phase::ResolvingPost {
                cwd: cwd@,
                words: text::texts(words@),
                path: path@,
            },
            Stage::CheckingPost { cwd, words, path } => Phase::CheckingPost {
                cwd: cwd@,
                words: text::texts(words@),
                path: path@,
            },
            Stage::NextWord { work } => Phase::NextWord { work: work@ },
            Stage::Probing { work, path, fallback } => Phase::Probing {
                work: work@,
                path: path@,
                fallback: path::path_option(*fallback),
            },
            Stage::Painting { work, path, entry, display, paths, known } => Phase::Painting {
                work: work@,
                path: path@,
                entry: *entry,
                display: display@,
                paths: paint::paths_of(paths@),
                known: known@,
            },
            Stage::Printing { work, stop } => Phase::Printing { work: work@, stop: *stop },
            Stage::Done => Phase::Done,
        }
    }
}

/// A run.
pub struct Session {
    config: Config,
    dir_prefix: String,
    leftover_prefix: Option<String>,
    seen: StringHashSet,
    last_cwd: Option<(String, FsPath)>,
    count: usize,
    reader: TailReader,
    stage: Stage,
}

impl View for Session {
    type V = State;

    closed spec fn view(&self) -> State {
        State {
            settings: self.config@,
            dir_prefix: self.dir_prefix@,
            leftover_prefix: text::text_option(self.leftover_prefix),
            seen: self.seen@,
            last_cwd: match self.last_cwd {
                Some((raw, path)) => Some((raw@, path@)),
                None => None,
            },
            count: self.count as nat,
            reading: self.reader@,
            phase: self.stage@,
        }
    }
}

/// The places where a token may be, in the order in which they are tried.
pub fn resolve_candidate(
    token: &FsPath,
    logged_cwd: &FsPath,
    post_cwd: Option<&FsPath>,
    current_dir: Option<&FsPath>,
) -> (r: (FsPath, Option<FsPath>))
    ensures
        (r.0@, path::path_option(r.1)) == places(
            token@,
            logged_cwd@,
            path::path_ref_option(post_cwd),
            path::path_ref_option(current_dir),
        ),
{
    if token.is_absolute() {
        return (path::absolutize_lexical(token, current_dir), None);
    }
    let first = path::absolutize_lexical(&logged_cwd.join(token), current_dir);
    let second = match post_cwd {
        Some(dir) => Some(path::absolutize_lexical(&dir.join(token), current_dir)),
        None => None,
    };
    (first, second)
}

impl Session {
    /// A run with these settings, at its beginning.
    pub fn new(config: Config) -> (session: Session)
        ensures
            session@ == initial(config@),
            state_wf(session@),
    {
        Session {
            config,
            dir_prefix: String::new(),
            leftover_prefix: None,
            seen: StringHashSet::new(),
            last_cwd: None,
            count: 0,
            reader: TailReader::new(0, 0),
            stage: Stage::Start,
        }
    }

    /// Whether a reply is one to what was asked.
    fn expects(&self, reply: &Reply) -> (r: bool)
        ensures
            r == awaits(self@, reply@),
    {
        match (&self.stage, reply) {
            (Stage::Start, Reply::Nothing) => true,
            (Stage::ResolvingDir { .. }, Reply::Canonical(_)) => true,
            (Stage::OpeningLog, Reply::Length(_)) => true,
            (Stage::NextLine, Reply::Nothing) => true,
            (Stage::Reading, Reply::Bytes(bytes)) => bytes.len() == self.reader.wanted(),
            (Stage::ResolvingCwd { .. }, Reply::Canonical(_)) => true,
            (Stage::ResolvingPost { .. }, Reply::Canonical(_)) => true,
            (Stage::CheckingPost { .. }, Reply::IsDirectory(_)) => true,
            (Stage::NextWord { .. }, Reply::Nothing) => true,
            (Stage::Probing { .. }, Reply::Entry(_)) => true,
            (Stage::Painting { .. }, Reply::Entry(_)) => true,
            (Stage::Printing { .. }, Reply::Nothing) => true,
            (Stage::Done, Reply::Nothing) => true,
            _ => false,
        }
    }

    /// Goes on with the directory known.
    fn take_dir(&mut self, dir: FsPath) -> (action: Action)
        ensures
            (final(self)@, action@) == dir_step(old(self)@, dir@),
    {
        self.dir_prefix = location::with_trailing_separator(&dir);
        self.leftover_prefix = if self.config.leftover.as_str().is_empty() {
            None
        } else {
            let mut prefix = self.dir_prefix.clone();
            prefix.append(self.config.leftover.as_str());
            Some(prefix)
        };
        if self.config.lines_limit == 0 {
            self.stage = Stage::Done;
            Action::Finished
        } else {
            self.stage = Stage::OpeningLog;
            Action::OpenLog(self.config.pwdlog_file.duplicate())
        }
    }

    /// Goes on with a command and its directory.
    fn take_command(&mut self, cwd: FsPath, command: &str) -> (action: Action)
        ensures
            (final(self)@, action@) == command_step(old(self)@, cwd@, command@),
    {
        let words = tokens::scan_tokens(command);
        if words.len() == 0 {
            self.stage = Stage::NextLine;
            return Action::Proceed;
        }
        match words::infer_post_cwd(&cwd, words.as_slice(), &self.config.home) {
            Some(target) => {
                let asked = target.duplicate();
                self.stage = Stage::ResolvingPost { cwd, words, path: target };
                Action::Canonicalize(asked)
            },
            None => {
                self.stage = Stage::NextWord { work: Work { cwd, post: None, words, index: 0 } };
                Action::Proceed
            },
        }
    }

    /// The directory of a command that was given where the last one was given.
    fn recall_cwd(&self, raw: &str) -> (r: Option<FsPath>)
        ensures
            path::path_option(r) == known_cwd(self@.last_cwd, raw@),
    {
        match &self.last_cwd {
            Some((known, dir)) => {
                if text::same_str(known.as_str(), raw) {
                    Some(dir.duplicate())
                } else {
                    None
                }
            },
            None => None,
        }
    }

    /// Goes on with the next line.
    fn take_line(&mut self) -> (action: Action)
        ensures
            (final(self)@, action@) == line_step(old(self)@),
    {
        match tail::for_tail_lines_newest_first(&mut self.reader) {
            TailStep::Finished => {
                self.stage = Stage::Done;
                Action::Finished
            },
            TailStep::Read { position, length } => {
                self.stage = Stage::Reading;
                Action::ReadLog { position, length }
            },
            TailStep::Line(bytes) => {
                let line = tail::handle_tail_line(bytes.as_slice());
                if let Some((raw, command)) = tail::parse_pwdlog_line(line.as_str()) {
                    if !raw.as_str().is_empty() && !command.as_str().is_empty() {
                        if let Some(cwd) = self.recall_cwd(raw.as_str()) {
                            return self.take_command(cwd, command.as_str());
                        }
                        let path = FsPath::from_text(raw.as_str());
                        let asked = path.duplicate();
                        self.stage = Stage::ResolvingCwd { raw, command, path };
                        return Action::Canonicalize(asked);
                    }
                }
                self.stage = Stage::NextLine;
                Action::Proceed
            },
        }
    }

    /// Goes on with the next word.
    fn take_word(&mut self, work: Work) -> (action: Action)
        ensures
            (final(self)@, action@) == word_step(old(self)@, work@),
    {
        if work.index >= work.words.len() {
            self.stage = Stage::NextLine;
            return Action::Proceed;
        }
        let mut next = work;
        let index = next.index;
        next.index = index + 1;
        assert(text::texts(next.words@)[index as int] == next.words@[index as int]@);
        if !words::should_skip_word(next.words[index].as_str()) {
            if let Some(token) = location::expand_tilde(
                next.words[index].as_str(),
                &self.config.home,
            ) {
                let (path, fallback) = resolve_candidate(
                    &token,
                    &next.cwd,
                    next.post.as_ref(),
                    self.config.current_dir.as_ref(),
                );
                let asked = path.duplicate();
                self.stage = Stage::Probing { work: next, path, fallback };
                return Action::Examine(asked);
            }
        }
        self.stage = Stage::NextWord { work: next };
        Action::Proceed
    }

    /// Whether an entry is one that the user asks for.
    fn wants(&self, candidate: &Candidate) -> (r: bool)
        ensures
            r == is_wanted(self@, candidate.path@, candidate.is_dir),
    {
        if let Kind::Dir = self.config.kind {
            if !candidate.is_dir {
                return false;
            }
        }
        let shown = location::path_string(&candidate.path);
        let chars = text::chars_of(shown.as_str());
        let prefix = text::chars_of(self.dir_prefix.as_str());
        if !text::begins_with(chars.as_slice(), prefix.as_slice()) {
            return false;
        }
        match &self.leftover_prefix {
            Some(leftover) => {
                let leftover = text::chars_of(leftover.as_str());
                text::begins_with(chars.as_slice(), leftover.as_slice())
            },
            None => true,
        }
    }

    /// What is shown for a path.
    fn display(&self, path: &FsPath) -> (r: String)
        ensures
            r@ == display_of(self@.settings, path@),
    {
        let dir = text::chars_of(self.config.dir.as_str());
        let slash = ['/'];
        let tilde = ['~'];
        assert(slash@ =~= seq!['/']);
        assert(tilde@ =~= seq!['~']);
        let relative_root = !text::begins_with(dir.as_slice(), &slash) && !text::begins_with(
            dir.as_slice(),
            &tilde,
        );
        location::display_path(
            path,
            &self.config.home,
            &self.config.pwd,
            self.config.display_prefix.as_str(),
            relative_root,
        )
    }

    /// Goes on with an entry that a word names.
    fn take_entry(&mut self, work: Work, path: FsPath, entry: Entry) -> (action: Action)
        requires
            old(self)@.count == 0 || old(self)@.count < old(self)@.settings.max_candidates,
        ensures
            (final(self)@, action@) == entry_step(old(self)@, work@, path@, entry),
    {
        if let Some(candidate) = Candidate::from_path(path, Some(entry)) {
            if self.wants(&candidate) {
                let display = self.display(&candidate.path);
                if self.seen.insert(display.clone()) {
                    let paths = if self.config.ls_colors.is_some() {
                        paint::ancestor_paths(display.as_str(), &candidate.path)
                    } else {
                        Vec::new()
                    };
                    let known: Vec<Option<Entry>> = Vec::new();
                    assert(self@.settings.scheme is None ==> paint::paths_of(paths@)
                        =~= Seq::empty());
                    assert(known@ =~= Seq::empty());
                    return self.take_known(work, candidate, entry, display, paths, known);
                }
                assert(self@.seen =~= old(self)@.seen);
            }
        }
        self.stage = Stage::NextWord { work };
        Action::Proceed
    }

    /// Goes on with a candidate of which the components are known in part.
    fn take_known(
        &mut self,
        work: Work,
        candidate: Candidate,
        entry: Entry,
        display: String,
        paths: Vec<FsPath>,
        known: Vec<Option<Entry>>,
    ) -> (action: Action)
        requires
            candidate.metadata == entry.metadata,
            candidate.symlink_target_exists == entry.target_exists_spec(),
            candidate.is_dir == entry.is_dir_spec(),
            old(self)@.count == 0 || old(self)@.count < old(self)@.settings.max_candidates,
        ensures
            (final(self)@, action@) == paint_step(
                old(self)@,
                work@,
                candidate.path@,
                entry,
                display@,
                paint::paths_of(paths@),
                known@,
            ),
    {
        if known.len() < paths.len() {
            let asked = paths[known.len()].duplicate();
            assert(paint::paths_of(paths@)[known@.len() as int] == asked@);
            self.stage = Stage::Painting {
                work,
                path: candidate.path,
                entry,
                display,
                paths,
                known,
            };
            return Action::Examine(asked);
        }
        let line = match &self.config.ls_colors {
            Some(colors) => colors.colorize_with_metadata(
                display.as_str(),
                &candidate.path,
                candidate.is_dir,
                Some(&candidate.metadata),
                candidate.symlink_target_exists,
                known.as_slice(),
            ),
            None => location::display_with_dir_marker(display.as_str(), candidate.is_dir),
        };
        self.count = self.count + 1;
        let stop = self.count >= self.config.max_candidates;
        let flush = self.count == 1;
        self.stage = Stage::Printing { work, stop };
        Action::Print { display, line, flush }
    }
}

/// The run after a reply, and what it asks then.
#[verifier::spinoff_prover]
#[verifier::rlimit(50)]
pub fn emit_candidates(session: &mut Session, reply: Reply) -> (action: Action)
    requires
        state_wf(old(session)@),
    ensures
        state_wf(final(session)@),
        (final(session)@, action@) == stepped(old(session)@, reply@),
{
    if !session.expects(&reply) {
        return Action::Ignored;
    }
    let mut stage = Stage::Done;
    std::mem::swap(&mut stage, &mut session.stage);
    match (stage, reply) {
        (Stage::Start, _) => {
            let path = location::resolve_input_dir(
                session.config.dir.as_str(),
                &session.config.home,
                &session.config.pwd,
            );
            let asked = path.duplicate();
            session.stage = Stage::ResolvingDir { path };
            Action::Canonicalize(asked)
        },
        (Stage::ResolvingDir { path }, Reply::Canonical(canonical)) => {
            let dir = path::absolutize_existing_or_lexical(
                &path,
                canonical,
                session.config.current_dir.as_ref(),
            );
            session.take_dir(dir)
        },
        (Stage::OpeningLog, Reply::Length(length)) => {
            session.reader = TailReader::new(length, session.config.lines_limit);
            session.stage = Stage::NextLine;
            Action::Proceed
        },
        (Stage::NextLine, _) => session.take_line(),
        (Stage::Reading, Reply::Bytes(bytes)) => {
            session.reader.supply(bytes.as_slice());
            session.stage = Stage::NextLine;
            Action::Proceed
        },
        (Stage::ResolvingCwd { raw, command, path }, Reply::Canonical(canonical)) => {
            let cwd = path::absolutize_existing_or_lexical(
                &path,
                canonical,
                session.config.current_dir.as_ref(),
            );
            session.last_cwd = Some((raw, cwd.duplicate()));
            session.take_command(cwd, command.as_str())
        },
        (Stage::ResolvingPost { cwd, words, path }, Reply::Canonical(canonical)) => {
            let target = path::absolutize_existing_or_lexical(
                &path,
                canonical,
                session.config.current_dir.as_ref(),
            );
            let asked = target.duplicate();
            session.stage = Stage::CheckingPost { cwd, words, path: target };
            Action::CheckDir(asked)
        },
        (Stage::CheckingPost { cwd, words, path }, Reply::IsDirectory(is_dir)) => {
            let post = if is_dir {
                Some(path)
            } else {
                None
            };
            session.stage = Stage::NextWord { work: Work { cwd, post, words, index: 0 } };
            Action::Proceed
        },
        (Stage::NextWord { work }, _) => session.take_word(work),
        (Stage::Probing { work, path, fallback }, Reply::Entry(entry)) => {
            match (entry, fallback) {
                (Some(entry), _) => session.take_entry(work, path, entry),
                (None, Some(other)) => {
                    let asked = other.duplicate();
                    session.stage = Stage::Probing { work, path: other, fallback: None };
                    Action::Examine(asked)
                },
                (None, None) => {
                    session.stage = Stage::NextWord { work };
                    Action::Proceed
                },
            }
        },
        (
            Stage::Painting { work, path, entry, display, paths, known },
            Reply::Entry(component),
        ) => {
            let mut known = known;
            known.push(component);
            let candidate = Candidate {
                path,
                metadata: entry.metadata,
                symlink_target_exists: entry.target_exists(),
                is_dir: entry.is_dir(),
            };
            session.take_known(work, candidate, entry, display, paths, known)
        },
        (Stage::Printing { work, stop }, _) => {
            if stop {
                Action::Finished
            } else {
                session.stage = Stage::NextWord { work };
                Action::Proceed
            }
        },
        _ => Action::Finished,
    }
}

} // verus!
