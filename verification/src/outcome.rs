//! What a run prints, where the file system and the log stay as they are.

use vstd::prelude::*;

use crate::config::Kind;
use crate::config::Settings;
use crate::files::Entry;
use crate::location;
use crate::paint;
use crate::path;
use crate::session::Act;
use crate::session::Answer;
use crate::session::Phase;
use crate::session::State;
use crate::session::Words;
use crate::session;
use crate::session_laws;
use crate::tail::Progress;
use crate::tail;
use crate::text;
use crate::tokens;
use crate::utf8;
use crate::words;

verus! {

/// The file system and the log.
pub struct World {
    /// The canonical form of each path that exists.
    pub canonical: Map<Seq<u8>, Seq<u8>>,
    /// What is at each path.
    pub entries: Map<Seq<u8>, Entry>,
    /// The paths that lead to a directory.
    pub directories: Set<Seq<u8>>,
    /// The content of the log.
    pub log: Seq<u8>,
}

impl World {
    /// The canonical form of a path, if it exists.
    pub open spec fn canonical_form(self, p: Seq<u8>) -> Option<Seq<u8>> {
        if self.canonical.contains_key(p) {
            Some(self.canonical[p])
        } else {
            None
        }
    }

    /// What is at a path.
    pub open spec fn entry(self, p: Seq<u8>) -> Option<Entry> {
        if self.entries.contains_key(p) {
            Some(self.entries[p])
        } else {
            None
        }
    }
}

/// A candidate as it is shown, and the line that is printed for it.
pub struct Shown {
    pub display: Seq<char>,
    pub line: Seq<char>,
}

/// Whether a candidate is shown so already.
pub open spec fn is_shown(shown: Seq<Shown>, display: Seq<char>) -> bool {
    exists|i: int| 0 <= i < shown.len() && (#[trigger] shown[i]).display == display
}

/// Whether there are as many candidates as are wanted; it is asked once there is one.
pub open spec fn is_full(settings: Settings, shown: Seq<Shown>) -> bool {
    shown.len() > 0 && shown.len() >= settings.max_candidates
}

/// A directory in its canonical form where it exists, else in its lexical form.
pub open spec fn directory(settings: Settings, world: World, p: Seq<u8>) -> Seq<u8> {
    path::absolutized(p, world.canonical_form(p), settings.current_dir)
}

/// What the text of a candidate's path begins with: the directory that the user asks for.
pub open spec fn asked_prefix(settings: Settings, world: World) -> Seq<char> {
    location::slash_ended(
        utf8::shown_text(
            directory(
                settings,
                world,
                location::input_dir(settings.dir, settings.home, settings.pwd),
            ),
        ),
    )
}

/// Whether an entry is one that the user asks for: its path begins with the directory and what is
/// typed behind it, and it is a directory where directories are asked for.
pub open spec fn is_asked_for(settings: Settings, world: World, p: Seq<u8>, is_dir: bool) -> bool {
    &&& settings.kind == Kind::Dir ==> is_dir
    &&& text::begins(utf8::shown_text(p), asked_prefix(settings, world) + settings.leftover)
}

/// What is known of paths.
pub open spec fn entries_at(world: World, paths: Seq<Seq<u8>>) -> Seq<Option<Entry>> {
    paths.map_values(|p: Seq<u8>| world.entry(p))
}

/// The line for a candidate: in colours or without, a directory marked as one.
pub open spec fn line_for(
    settings: Settings,
    world: World,
    p: Seq<u8>,
    entry: Entry,
    display: Seq<char>,
) -> Seq<char> {
    match settings.scheme {
        Some(scheme) => paint::painted(
            scheme,
            display,
            p,
            entry.is_dir_spec(),
            Some(entry.metadata),
            entry.target_exists_spec(),
            entries_at(world, paint::ancestors(display, p)),
        ),
        None => display + location::dir_marker(display, entry.is_dir_spec()),
    }
}

/// The candidates with an entry added that was found at a path, where it is asked for and not
/// shown yet.
pub open spec fn with_entry(
    settings: Settings,
    world: World,
    shown: Seq<Shown>,
    p: Seq<u8>,
    entry: Entry,
) -> Seq<Shown> {
    let display = session::display_of(settings, p);
    if is_asked_for(settings, world, p, entry.is_dir_spec()) && !is_shown(shown, display) {
        shown.push(Shown { display, line: line_for(settings, world, p, entry, display) })
    } else {
        shown
    }
}

/// The candidates with the entry added that is at a path, or else at another.
pub open spec fn with_place(
    settings: Settings,
    world: World,
    shown: Seq<Shown>,
    p: Seq<u8>,
    fallback: Option<Seq<u8>>,
) -> Seq<Shown> {
    if world.entry(p) is Some {
        with_entry(settings, world, shown, p, world.entry(p)->0)
    } else if fallback is Some && world.entry(fallback->0) is Some {
        with_entry(settings, world, shown, fallback->0, world.entry(fallback->0)->0)
    } else {
        shown
    }
}

/// The candidates with the entry added that a word of a command names.
pub open spec fn with_word(
    settings: Settings,
    world: World,
    shown: Seq<Shown>,
    cwd: Seq<u8>,
    post: Option<Seq<u8>>,
    word: Seq<char>,
) -> Seq<Shown> {
    let token = location::expanded(word, settings.home);
    if words::is_no_path(word) || token is None {
        shown
    } else {
        let (p, fallback) = session::places(token->0, cwd, post, settings.current_dir);
        with_place(settings, world, shown, p, fallback)
    }
}

/// The candidates with those added that the words of a command name from word `i` on, until there
/// are as many as are wanted.
pub open spec fn with_words(
    settings: Settings,
    world: World,
    shown: Seq<Shown>,
    cwd: Seq<u8>,
    post: Option<Seq<u8>>,
    words: Seq<Seq<char>>,
    i: nat,
) -> Seq<Shown>
    decreases words.len() - i,
{
    if i >= words.len() || is_full(settings, shown) {
        shown
    } else {
        with_words(
            settings,
            world,
            with_word(settings, world, shown, cwd, post, words[i as int]),
            cwd,
            post,
            words,
            i + 1,
        )
    }
}

/// The directory, where it is one, in which a command leaves the shell.
pub open spec fn left_in(
    settings: Settings,
    world: World,
    cwd: Seq<u8>,
    words: Seq<Seq<char>>,
) -> Option<Seq<u8>> {
    match words::cwd_after(cwd, words, settings.home) {
        Some(target) => {
            let dir = directory(settings, world, target);
            if world.directories.contains(dir) {
                Some(dir)
            } else {
                None
            }
        },
        None => None,
    }
}

/// The candidates with those added that a command names.
pub open spec fn with_command(
    settings: Settings,
    world: World,
    shown: Seq<Shown>,
    cwd: Seq<u8>,
    command: Seq<char>,
) -> Seq<Shown> {
    let words = tokens::words(command);
    with_words(settings, world, shown, cwd, left_in(settings, world, cwd, words), words, 0)
}

/// The candidates with those added that the command of a line of the log names.
pub open spec fn with_line(
    settings: Settings,
    world: World,
    shown: Seq<Shown>,
    line: Seq<u8>,
) -> Seq<Shown> {
    match tail::log_fields(tail::line_text(line)) {
        Some((raw, command)) => if raw.len() == 0 || command.len() == 0 {
            shown
        } else {
            with_command(
                settings,
                world,
                shown,
                directory(settings, world, vstd::utf8::encode_utf8(raw)),
                command,
            )
        },
        None => shown,
    }
}

/// The candidates with those added that lines of the log name, one line after the other, until
/// there are as many as are wanted.
pub open spec fn with_lines(
    settings: Settings,
    world: World,
    shown: Seq<Shown>,
    lines: Seq<Seq<u8>>,
) -> Seq<Shown>
    decreases lines.len(),
{
    if lines.len() == 0 || is_full(settings, shown) {
        shown
    } else {
        with_lines(
            settings,
            world,
            with_line(settings, world, shown, lines[0]),
            lines.skip(1),
        )
    }
}

/// The candidates: those that the last lines of the log name, newest line first.
pub open spec fn candidates(settings: Settings, world: World) -> Seq<Shown> {
    with_lines(
        settings,
        world,
        Seq::empty(),
        tail::file_lines(world.log, settings.lines_limit),
    )
}

/// Whether an answer, where it is one, tells what the world is like.
pub open spec fn is_told_by(world: World, s: State, a: Answer) -> bool {
    session::awaits(s, a) ==> match s.phase {
        Phase::ResolvingDir { path } => a == Answer::Canonical(world.canonical_form(path)),
        Phase::OpeningLog => a == Answer::Length(world.log.len()),
        Phase::Reading => session_laws::is_true_of(s, a, world.log),
        Phase::ResolvingCwd { raw, command, path } => a == Answer::Canonical(
            world.canonical_form(path),
        ),
        Phase::ResolvingPost { cwd, words, path } => a == Answer::Canonical(
            world.canonical_form(path),
        ),
        Phase::CheckingPost { cwd, words, path } => a == Answer::IsDirectory(
            world.directories.contains(path),
        ),
        Phase::Probing { work, path, fallback } => a == Answer::Entry(world.entry(path)),
        Phase::Painting { work, path, entry, display, paths, known } => a == Answer::Entry(
            world.entry(paths[known.len() as int]),
        ),
        _ => true,
    }
}

/// The candidates that a run has had printed after these answers.
pub open spec fn shown_after(s: State, answers: Seq<Answer>) -> Seq<Shown>
    decreases answers.len(),
{
    if answers.len() == 0 {
        Seq::empty()
    } else {
        with_act(
            shown_after(s, answers.drop_last()),
            session::stepped(session_laws::run(s, answers.drop_last()), answers.last()).1,
        )
    }
}

/// The candidates with the one added that is printed, if one is.
pub open spec fn with_act(shown: Seq<Shown>, act: Act) -> Seq<Shown> {
    match act {
        Act::Print { display, line, flush } => shown.push(Shown { display, line }),
        _ => shown,
    }
}

/// The candidates at the end of a run that has come to the words of a command.
spec fn end_of_words(world: World, s: State, shown: Seq<Shown>, work: Words) -> Seq<Shown> {
    with_lines(
        s.settings,
        world,
        with_words(s.settings, world, shown, work.cwd, work.post, work.words, work.index),
        tail::remaining(s.reading, world.log),
    )
}

/// The candidates at the end of a run that has had these printed.
spec fn end_of(world: World, s: State, shown: Seq<Shown>) -> Seq<Shown> {
    let settings = s.settings;
    let lines = tail::remaining(s.reading, world.log);
    match s.phase {
        Phase::Start => candidates(settings, world),
        Phase::ResolvingDir { path } => candidates(settings, world),
        Phase::OpeningLog => candidates(settings, world),
        Phase::NextLine => with_lines(settings, world, shown, lines),
        Phase::Reading => with_lines(settings, world, shown, lines),
        Phase::ResolvingCwd { raw, command, path } => with_lines(
            settings,
            world,
            with_command(settings, world, shown, directory(settings, world, path), command),
            lines,
        ),
        Phase::ResolvingPost { cwd, words, path } => {
            let dir = directory(settings, world, path);
            let post = if world.directories.contains(dir) {
                Some(dir)
            } else {
                None
            };
            end_of_words(world, s, shown, Words { cwd, post, words, index: 0 })
        },
        Phase::CheckingPost { cwd, words, path } => {
            let post = if world.directories.contains(path) {
                Some(path)
            } else {
                None
            };
            end_of_words(world, s, shown, Words { cwd, post, words, index: 0 })
        },
        Phase::NextWord { work } => end_of_words(world, s, shown, work),
        Phase::Probing { work, path, fallback } => end_of_words(
            world,
            s,
            with_place(settings, world, shown, path, fallback),
            work,
        ),
        Phase::Painting { work, path, entry, display, paths, known } => end_of_words(
            world,
            s,
            shown.push(Shown { display, line: line_for(settings, world, path, entry, display) }),
            work,
        ),
        Phase::Printing { work, stop } => end_of_words(world, s, shown, work),
        Phase::Done => shown,
    }
}

/// What holds between a run, the world and the candidates that it has had printed.
spec fn in_world(world: World, s: State, shown: Seq<Shown>) -> bool {
    let settings = s.settings;
    &&& s.count == shown.len()
    &&& match s.phase {
        Phase::Painting { work, path, entry, display, paths, known } => {
            &&& s.seen.contains(display)
            &&& forall|d: Seq<char>|
                d != display ==> (#[trigger] s.seen.contains(d) <==> is_shown(shown, d))
            &&& settings.scheme is Some
            &&& display == session::display_of(settings, path)
            &&& paths == paint::ancestors(display, path)
            &&& known.len() < paths.len()
            &&& known == entries_at(world, paths).take(known.len() as int)
            &&& !is_full(settings, shown)
        },
        _ => forall|d: Seq<char>| #[trigger] s.seen.contains(d) <==> is_shown(shown, d),
    }
    &&& match s.phase {
        Phase::Printing { work, stop } => stop == is_full(settings, shown),
        Phase::Done => true,
        _ => !is_full(settings, shown),
    }
    &&& session_laws::has_opened(s) ==> tail::reads(s.reading, world.log)
    &&& s.phase is Reading ==> tail::advanced(s.reading).1 is Read
    &&& !session_laws::has_opened(s) ==> shown.len() == 0 && s.reading == tail::unread(0, 0)
    &&& s.phase matches Phase::ResolvingDir { path } ==> path == location::input_dir(
        settings.dir,
        settings.home,
        settings.pwd,
    )
    &&& !(s.phase is Start || s.phase is ResolvingDir) ==> {
        &&& s.dir_prefix == asked_prefix(settings, world)
        &&& s.leftover_prefix == if settings.leftover.len() > 0 {
            Some(s.dir_prefix + settings.leftover)
        } else {
            None
        }
    }
    &&& match s.last_cwd {
        Some((raw, dir)) => dir == directory(settings, world, vstd::utf8::encode_utf8(raw)),
        None => true,
    }
    &&& s.phase matches Phase::ResolvingCwd { raw, command, path } ==> path
        == vstd::utf8::encode_utf8(raw)
}

proof fn lemma_asked_for(world: World, s: State, shown: Seq<Shown>, p: Seq<u8>, is_dir: bool)
    requires
        in_world(world, s, shown),
        s.phase is Probing,
    ensures
        session::is_wanted(s, p, is_dir) == is_asked_for(s.settings, world, p, is_dir),
{
    let all = utf8::shown_text(p);
    let prefix = s.dir_prefix;
    let more = prefix + s.settings.leftover;
    if s.settings.leftover.len() > 0 {
        if text::begins(all, more) {
            assert(all.take(prefix.len() as int) =~= all.take(more.len() as int).take(
                prefix.len() as int,
            ));
            assert(more.take(prefix.len() as int) =~= prefix);
        }
    } else {
        assert(more =~= prefix);
    }
}

proof fn lemma_shown_with(shown: Seq<Shown>, new: Shown, d: Seq<char>)
    ensures
        is_shown(shown.push(new), d) <==> is_shown(shown, d) || new.display == d,
{
    let all = shown.push(new);
    if is_shown(shown, d) {
        let i = choose|i: int| 0 <= i < shown.len() && (#[trigger] shown[i]).display == d;
        assert(all[i].display == d);
    }
    if new.display == d {
        assert(all[shown.len() as int].display == d);
    }
    if is_shown(all, d) && new.display != d {
        let i = choose|i: int| 0 <= i < all.len() && (#[trigger] all[i]).display == d;
        assert(shown[i].display == d);
    }
}

/// Whether a step of a run in the world keeps what holds, and what the run comes to.
spec fn keeps(world: World, s: State, shown: Seq<Shown>, step: (State, Act)) -> bool {
    &&& in_world(world, step.0, with_act(shown, step.1))
    &&& end_of(world, step.0, with_act(shown, step.1)) == end_of(world, s, shown)
}

proof fn lemma_before_the_log(world: World, s: State, shown: Seq<Shown>, a: Answer)
    requires
        in_world(world, s, shown),
        session::awaits(s, a),
        is_told_by(world, s, a),
        s.phase is Start || s.phase is ResolvingDir || s.phase is OpeningLog,
    ensures
        keeps(world, s, shown, session::stepped(s, a)),
{
    let next = session::stepped(s, a).0;
    assert(shown =~= Seq::empty());
    if s.phase is ResolvingDir {
        if s.settings.lines_limit == 0 {
            assert(tail::file_lines(world.log, 0) =~= Seq::empty());
        }
    }
    if s.phase is OpeningLog {
        assert(world.log.take(world.log.len() as int) + Seq::<u8>::empty() =~= world.log);
    }
}

proof fn lemma_command(world: World, s: State, shown: Seq<Shown>, cwd: Seq<u8>, command: Seq<char>)
    requires
        in_world(world, State { phase: Phase::NextLine, ..s }, shown),
    ensures
        ({
            let (next, act) = session::command_step(s, cwd, command);
            &&& with_act(shown, act) == shown
            &&& in_world(world, next, shown)
            &&& end_of(world, next, shown) == with_lines(
                s.settings,
                world,
                with_command(s.settings, world, shown, cwd, command),
                tail::remaining(s.reading, world.log),
            )
        }),
{
    assert forall|d: Seq<char>| #[trigger] s.seen.contains(d) <==> is_shown(shown, d) by {
        let from = State { phase: Phase::NextLine, ..s };
        assert(from.seen.contains(d) <==> is_shown(shown, d));
    }
}

proof fn lemma_next_line(world: World, s: State, shown: Seq<Shown>, a: Answer)
    requires
        in_world(world, s, shown),
        session::awaits(s, a),
        s.phase is NextLine,
    ensures
        keeps(world, s, shown, session::stepped(s, a)),
{
    let base = State { phase: Phase::Done, ..s };
    let (reading, progress) = tail::advanced(s.reading);
    let lines = tail::remaining(s.reading, world.log);
    let next = State { reading, ..base };
    match progress {
        Progress::Finished => {
            tail::law_finished_means_no_line(s.reading, world.log);
        },
        Progress::Read { position, length } => {},
        Progress::Line(line) => {
            tail::law_line_is_next(s.reading, world.log);
            let others = tail::remaining(reading, world.log);
            assert(lines[0] == line);
            assert(lines.skip(1) =~= others);
            match tail::log_fields(tail::line_text(line)) {
                Some((raw, command)) => {
                    if raw.len() > 0 && command.len() > 0 {
                        if session::known_cwd(s.last_cwd, raw) is Some {
                            lemma_command(
                                world,
                                next,
                                shown,
                                session::known_cwd(s.last_cwd, raw)->0,
                                command,
                            );
                        }
                    }
                },
                None => {},
            }
        },
    }
}

proof fn lemma_of_command(world: World, s: State, shown: Seq<Shown>, a: Answer)
    requires
        in_world(world, s, shown),
        session::awaits(s, a),
        is_told_by(world, s, a),
        s.phase is ResolvingCwd || s.phase is ResolvingPost || s.phase is CheckingPost
            || s.phase is Reading,
    ensures
        keeps(world, s, shown, session::stepped(s, a)),
{
    match s.phase {
        Phase::Reading => {
            tail::law_reading_keeps_lines(s.reading, world.log);
        },
        Phase::ResolvingCwd { raw, command, path } => {
            let cwd = directory(s.settings, world, path);
            let next = State { last_cwd: Some((raw, cwd)), phase: Phase::Done, ..s };
            lemma_command(world, next, shown, cwd, command);
        },
        _ => {},
    }
}

proof fn lemma_entry(world: World, s: State, shown: Seq<Shown>, a: Answer)
    requires
        in_world(world, s, shown),
        session::awaits(s, a),
        is_told_by(world, s, a),
        s.phase is Probing,
        a->Entry_0 is Some,
    ensures
        keeps(world, s, shown, session::stepped(s, a)),
{
    let settings = s.settings;
    let p = s.phase->Probing_path;
    let work = s.phase->Probing_work;
    let entry = a->Entry_0->0;
    let display = session::display_of(settings, p);
    let (next, act) = session::stepped(s, a);
    lemma_asked_for(world, s, shown, p, entry.is_dir_spec());
    if session::is_wanted(s, p, entry.is_dir_spec()) && !s.seen.contains(display) {
        let line = line_for(settings, world, p, entry, display);
        let paths = paint::ancestors(display, p);
        let new = Shown { display, line };
        assert forall|d: Seq<char>| #[trigger] next.seen.contains(d) implies is_shown(
            shown.push(new),
            d,
        ) by {
            lemma_shown_with(shown, new, d);
        }
        assert forall|d: Seq<char>| is_shown(shown.push(new), d) implies #[trigger] next.seen.contains(
            d,
        ) by {
            lemma_shown_with(shown, new, d);
        }
        if settings.scheme is Some && paths.len() > 0 {
            assert(entries_at(world, paths).take(0) =~= Seq::empty());
            assert(act is Examine);
        } else {
            if settings.scheme is Some {
                assert(entries_at(world, paths) =~= Seq::empty());
            }
            assert(act is Print);
            assert(act->Print_line == line);
        }
    }
}

proof fn lemma_component(world: World, s: State, shown: Seq<Shown>, a: Answer)
    requires
        in_world(world, s, shown),
        session::awaits(s, a),
        is_told_by(world, s, a),
        s.phase is Painting,
    ensures
        keeps(world, s, shown, session::stepped(s, a)),
{
    match s.phase {
        Phase::Painting { work, path, entry, display, paths, known } => {
            let (next, act) = session::stepped(s, a);
            let line = line_for(s.settings, world, path, entry, display);
            let new = Shown { display, line };
            let all = entries_at(world, paths);
            let n = known.len() as int;
            let more = known.push(a->Entry_0);
            assert(all.take(n + 1) =~= more) by {
                assert(all.take(n + 1)[n] == world.entry(paths[n]));
                assert forall|i: int| 0 <= i < n implies all.take(n + 1)[i] == more[i] by {
                    assert(all.take(n)[i] == known[i]);
                }
            }
            if n + 1 == paths.len() {
                assert(all.take(n + 1) =~= all);
                assert forall|d: Seq<char>| #[trigger] next.seen.contains(d) implies is_shown(
                    shown.push(new),
                    d,
                ) by {
                    lemma_shown_with(shown, new, d);
                }
                assert forall|d: Seq<char>| is_shown(shown.push(new), d) implies #[trigger] next.seen.contains(
                    d,
                ) by {
                    lemma_shown_with(shown, new, d);
                }
                assert(act is Print);
                assert(act->Print_line == line);
            }
        },
        _ => {},
    }
}

proof fn lemma_of_word(world: World, s: State, shown: Seq<Shown>, a: Answer)
    requires
        in_world(world, s, shown),
        session::awaits(s, a),
        is_told_by(world, s, a),
        s.phase is NextWord || s.phase is Printing || s.phase is Done || (s.phase is Probing
            && a->Entry_0 is None),
    ensures
        keeps(world, s, shown, session::stepped(s, a)),
{
}

proof fn lemma_world_step(world: World, s: State, shown: Seq<Shown>, a: Answer)
    requires
        in_world(world, s, shown),
        is_told_by(world, s, a),
    ensures
        keeps(world, s, shown, session::stepped(s, a)),
{
    if session::awaits(s, a) {
        match s.phase {
            Phase::Start => lemma_before_the_log(world, s, shown, a),
            Phase::ResolvingDir { .. } => lemma_before_the_log(world, s, shown, a),
            Phase::OpeningLog => lemma_before_the_log(world, s, shown, a),
            Phase::NextLine => lemma_next_line(world, s, shown, a),
            Phase::Probing { .. } => if a->Entry_0 is Some {
                lemma_entry(world, s, shown, a);
            } else {
                lemma_of_word(world, s, shown, a);
            },
            Phase::Painting { .. } => lemma_component(world, s, shown, a),
            Phase::NextWord { .. } => lemma_of_word(world, s, shown, a),
            Phase::Printing { .. } => lemma_of_word(world, s, shown, a),
            Phase::Done => lemma_of_word(world, s, shown, a),
            _ => lemma_of_command(world, s, shown, a),
        }
    }
}

proof fn lemma_in_world(world: World, settings: Settings, answers: Seq<Answer>)
    requires
        forall|i: int|
            0 <= i < answers.len() ==> is_told_by(
                world,
                session_laws::run(session::initial(settings), answers.take(i)),
                #[trigger] answers[i],
            ),
    ensures
        ({
            let s = session::initial(settings);
            let end = session_laws::run(s, answers);
            let shown = shown_after(s, answers);
            &&& in_world(world, end, shown)
            &&& end.settings == settings
            &&& end_of(world, end, shown) == candidates(settings, world)
        }),
    decreases answers.len(),
{
    let s = session::initial(settings);
    session_laws::law_runs_are_well_formed(settings, answers);
    if answers.len() == 0 {
        assert forall|d: Seq<char>| #[trigger] s.seen.contains(d) <==> is_shown(
            shown_after(s, answers),
            d,
        ) by {}
    } else {
        let before = answers.drop_last();
        assert forall|i: int| 0 <= i < before.len() implies is_told_by(
            world,
            session_laws::run(s, before.take(i)),
            #[trigger] before[i],
        ) by {
            assert(before.take(i) =~= answers.take(i));
            assert(before[i] == answers[i]);
        }
        lemma_in_world(world, settings, before);
        assert(answers.take(answers.len() - 1) =~= before);
        assert(answers[answers.len() - 1] == answers.last());
        lemma_world_step(world, session_laws::run(s, before), shown_after(s, before), answers.last());
    }
}

/// A run that is answered by one world, and is done, has had the candidates printed: all of them,
/// in their order, and nothing else.
pub proof fn law_a_run_prints_the_candidates(
    world: World,
    settings: Settings,
    answers: Seq<Answer>,
)
    requires
        forall|i: int|
            0 <= i < answers.len() ==> is_told_by(
                world,
                session_laws::run(session::initial(settings), answers.take(i)),
                #[trigger] answers[i],
            ),
        session_laws::run(session::initial(settings), answers).phase is Done,
    ensures
        shown_after(session::initial(settings), answers) == candidates(settings, world),
{
    lemma_in_world(world, settings, answers);
}

proof fn lemma_begins_itself(shown: Seq<Shown>)
    ensures
        text::begins(shown, shown),
{
    assert(shown.take(shown.len() as int) =~= shown);
}

proof fn lemma_begins_through(a: Seq<Shown>, b: Seq<Shown>, c: Seq<Shown>)
    requires
        text::begins(b, a),
        text::begins(c, b),
    ensures
        text::begins(c, a),
{
    assert(c.take(a.len() as int) =~= c.take(b.len() as int).take(a.len() as int));
}

proof fn lemma_word_adds_one(
    settings: Settings,
    world: World,
    shown: Seq<Shown>,
    cwd: Seq<u8>,
    post: Option<Seq<u8>>,
    word: Seq<char>,
)
    ensures
        text::begins(with_word(settings, world, shown, cwd, post, word), shown),
        with_word(settings, world, shown, cwd, post, word).len() <= shown.len() + 1,
{
    let after = with_word(settings, world, shown, cwd, post, word);
    assert(after.take(shown.len() as int) =~= shown);
}

proof fn lemma_words_add(
    settings: Settings,
    world: World,
    shown: Seq<Shown>,
    cwd: Seq<u8>,
    post: Option<Seq<u8>>,
    words: Seq<Seq<char>>,
    i: nat,
)
    ensures
        text::begins(with_words(settings, world, shown, cwd, post, words, i), shown),
    decreases words.len() - i,
{
    if i >= words.len() || is_full(settings, shown) {
        lemma_begins_itself(shown);
    } else {
        let word = words[i as int];
        let after = with_word(settings, world, shown, cwd, post, word);
        lemma_word_adds_one(settings, world, shown, cwd, post, word);
        lemma_words_add(settings, world, after, cwd, post, words, i + 1);
        lemma_begins_through(
            shown,
            after,
            with_words(settings, world, after, cwd, post, words, i + 1),
        );
    }
}

proof fn lemma_line_adds(settings: Settings, world: World, shown: Seq<Shown>, line: Seq<u8>)
    ensures
        text::begins(with_line(settings, world, shown, line), shown),
{
    lemma_begins_itself(shown);
    if let Some((raw, command)) = tail::log_fields(tail::line_text(line)) {
        let cwd = directory(settings, world, vstd::utf8::encode_utf8(raw));
        let words = tokens::words(command);
        lemma_words_add(
            settings,
            world,
            shown,
            cwd,
            left_in(settings, world, cwd, words),
            words,
            0,
        );
    }
}

/// More lines only add candidates behind those that there are.
pub proof fn law_lines_add_candidates_behind(
    settings: Settings,
    world: World,
    shown: Seq<Shown>,
    lines: Seq<Seq<u8>>,
)
    ensures
        text::begins(with_lines(settings, world, shown, lines), shown),
    decreases lines.len(),
{
    if lines.len() == 0 || is_full(settings, shown) {
        lemma_begins_itself(shown);
    } else {
        let after = with_line(settings, world, shown, lines[0]);
        lemma_line_adds(settings, world, shown, lines[0]);
        law_lines_add_candidates_behind(settings, world, after, lines.skip(1));
        lemma_begins_through(
            shown,
            after,
            with_lines(settings, world, after, lines.skip(1)),
        );
    }
}

proof fn lemma_lines_in_order(
    settings: Settings,
    world: World,
    shown: Seq<Shown>,
    a: Seq<Seq<u8>>,
    b: Seq<Seq<u8>>,
)
    ensures
        with_lines(settings, world, shown, a + b) == with_lines(
            settings,
            world,
            with_lines(settings, world, shown, a),
            b,
        ),
    decreases a.len(),
{
    if a.len() == 0 {
        assert(a + b =~= b);
    } else if !is_full(settings, shown) {
        assert((a + b).skip(1) =~= a.skip(1) + b);
        lemma_lines_in_order(
            settings,
            world,
            with_line(settings, world, shown, a[0]),
            a.skip(1),
            b,
        );
    }
}

/// The candidates that the newest lines name come first.
pub proof fn law_newest_candidates_come_first(settings: Settings, world: World, n: nat)
    requires
        n <= settings.lines_limit,
    ensures
        text::begins(
            candidates(settings, world),
            with_lines(settings, world, Seq::empty(), tail::file_lines(world.log, n)),
        ),
{
    let newest = tail::file_lines(world.log, n);
    let all = tail::file_lines(world.log, settings.lines_limit);
    tail::law_limit_keeps_the_newest(tail::unterminated(world.log), n, settings.lines_limit);
    let k = newest.len() as int;
    assert(all =~= newest + all.skip(k));
    lemma_lines_in_order(settings, world, Seq::empty(), newest, all.skip(k));
    law_lines_add_candidates_behind(
        settings,
        world,
        with_lines(settings, world, Seq::empty(), newest),
        all.skip(k),
    );
}

/// The first candidates, up to `n`.
pub open spec fn first_ones(shown: Seq<Shown>, n: nat) -> Seq<Shown> {
    if shown.len() <= n {
        shown
    } else {
        shown.take(n as int)
    }
}

/// The settings with another limit of candidates.
pub open spec fn limited_to(settings: Settings, n: nat) -> Settings {
    Settings { max_candidates: n, ..settings }
}

proof fn lemma_same_word(
    settings: Settings,
    n: nat,
    world: World,
    shown: Seq<Shown>,
    cwd: Seq<u8>,
    post: Option<Seq<u8>>,
    word: Seq<char>,
)
    ensures
        with_word(limited_to(settings, n), world, shown, cwd, post, word) == with_word(
            settings,
            world,
            shown,
            cwd,
            post,
            word,
        ),
{
}

proof fn lemma_words_are_cut(
    settings: Settings,
    n: nat,
    world: World,
    shown: Seq<Shown>,
    cwd: Seq<u8>,
    post: Option<Seq<u8>>,
    words: Seq<Seq<char>>,
    i: nat,
)
    requires
        1 <= n <= settings.max_candidates,
        shown.len() <= n,
    ensures
        with_words(limited_to(settings, n), world, shown, cwd, post, words, i) == first_ones(
            with_words(settings, world, shown, cwd, post, words, i),
            n,
        ),
    decreases words.len() - i,
{
    if shown.len() == n {
        lemma_words_add(settings, world, shown, cwd, post, words, i);
    } else if i < words.len() {
        let word = words[i as int];
        lemma_same_word(settings, n, world, shown, cwd, post, word);
        lemma_word_adds_one(settings, world, shown, cwd, post, word);
        lemma_words_are_cut(
            settings,
            n,
            world,
            with_word(settings, world, shown, cwd, post, word),
            cwd,
            post,
            words,
            i + 1,
        );
    }
}

proof fn lemma_lines_are_cut(
    settings: Settings,
    n: nat,
    world: World,
    shown: Seq<Shown>,
    lines: Seq<Seq<u8>>,
)
    requires
        1 <= n <= settings.max_candidates,
        shown.len() <= n,
    ensures
        with_lines(limited_to(settings, n), world, shown, lines) == first_ones(
            with_lines(settings, world, shown, lines),
            n,
        ),
    decreases lines.len(),
{
    if shown.len() == n {
        law_lines_add_candidates_behind(settings, world, shown, lines);
    } else if lines.len() > 0 {
        let after = with_line(settings, world, shown, lines[0]);
        let cut = with_line(limited_to(settings, n), world, shown, lines[0]);
        assert(cut == first_ones(after, n)) by {
            if let Some((raw, command)) = tail::log_fields(tail::line_text(lines[0])) {
                let cwd = directory(settings, world, vstd::utf8::encode_utf8(raw));
                let words = tokens::words(command);
                lemma_words_are_cut(
                    settings,
                    n,
                    world,
                    shown,
                    cwd,
                    left_in(settings, world, cwd, words),
                    words,
                    0,
                );
            }
        }
        let all = with_lines(settings, world, after, lines.skip(1));
        if after.len() <= n {
            lemma_lines_are_cut(settings, n, world, after, lines.skip(1));
        } else {
            law_lines_add_candidates_behind(settings, world, after, lines.skip(1));
            assert(all.take(n as int) =~= all.take(after.len() as int).take(n as int));
            assert(with_lines(limited_to(settings, n), world, cut, lines.skip(1)) == cut);
        }
    }
}

proof fn lemma_none_is_as_one_for_words(
    settings: Settings,
    world: World,
    shown: Seq<Shown>,
    cwd: Seq<u8>,
    post: Option<Seq<u8>>,
    words: Seq<Seq<char>>,
    i: nat,
)
    ensures
        with_words(limited_to(settings, 0), world, shown, cwd, post, words, i) == with_words(
            limited_to(settings, 1),
            world,
            shown,
            cwd,
            post,
            words,
            i,
        ),
    decreases words.len() - i,
{
    if i < words.len() && shown.len() == 0 {
        let word = words[i as int];
        lemma_same_word(settings, 0, world, shown, cwd, post, word);
        lemma_same_word(settings, 1, world, shown, cwd, post, word);
        lemma_none_is_as_one_for_words(
            settings,
            world,
            with_word(settings, world, shown, cwd, post, word),
            cwd,
            post,
            words,
            i + 1,
        );
    }
}

proof fn lemma_none_is_as_one(
    settings: Settings,
    world: World,
    shown: Seq<Shown>,
    lines: Seq<Seq<u8>>,
)
    ensures
        with_lines(limited_to(settings, 0), world, shown, lines) == with_lines(
            limited_to(settings, 1),
            world,
            shown,
            lines,
        ),
    decreases lines.len(),
{
    if lines.len() > 0 && shown.len() == 0 {
        let none = with_line(limited_to(settings, 0), world, shown, lines[0]);
        let one = with_line(limited_to(settings, 1), world, shown, lines[0]);
        assert(none == one) by {
            if let Some((raw, command)) = tail::log_fields(tail::line_text(lines[0])) {
                let cwd = directory(settings, world, vstd::utf8::encode_utf8(raw));
                let words = tokens::words(command);
                lemma_none_is_as_one_for_words(
                    settings,
                    world,
                    shown,
                    cwd,
                    left_in(settings, world, cwd, words),
                    words,
                    0,
                );
            }
        }
        lemma_none_is_as_one(settings, world, one, lines.skip(1));
    }
}

/// A lower limit gives the first ones of the same candidates, and a limit of none gives what a
/// limit of one gives.
pub proof fn law_limit_keeps_the_first_candidates(settings: Settings, world: World, n: nat)
    requires
        n <= settings.max_candidates,
    ensures
        candidates(limited_to(settings, n), world) == first_ones(
            candidates(settings, world),
            if n == 0 {
                1
            } else {
                n
            },
        ),
{
    let lines = tail::file_lines(world.log, settings.lines_limit);
    let none = Seq::<Shown>::empty();
    if n == 0 {
        let one = limited_to(settings, 1);
        lemma_none_is_as_one(settings, world, none, lines);
        if settings.max_candidates == 0 {
            assert(limited_to(settings, 0) == settings);
            lemma_lines_are_cut(one, 1, world, none, lines);
            assert(limited_to(one, 1) == one);
        } else {
            lemma_lines_are_cut(settings, 1, world, none, lines);
        }
    } else {
        lemma_lines_are_cut(settings, n, world, none, lines);
    }
}

} // verus!
