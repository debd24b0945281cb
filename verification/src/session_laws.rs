//! What holds of a whole run, whatever the caller answers.

use vstd::prelude::*;

use crate::config::Settings;
use crate::files::Entry;
use crate::location;
use crate::path;
use crate::session;
use crate::session::Act;
use crate::session::Answer;
use crate::session::Phase;
use crate::session::State;
use crate::tail;
use crate::tail::Progress;

verus! {

/// A run after these answers.
pub open spec fn run(s: State, answers: Seq<Answer>) -> State
    decreases answers.len(),
{
    if answers.len() == 0 {
        s
    } else {
        session::stepped(run(s, answers.drop_last()), answers.last()).0
    }
}

/// What a run asks after answer `i`.
pub open spec fn asked(s: State, answers: Seq<Answer>, i: int) -> Act {
    session::stepped(run(s, answers.take(i)), answers[i]).1
}

/// The candidates that a run has had printed after these answers, in their order.
pub open spec fn printed(s: State, answers: Seq<Answer>) -> Seq<Seq<char>>
    decreases answers.len(),
{
    if answers.len() == 0 {
        Seq::empty()
    } else {
        let before = printed(s, answers.drop_last());
        match session::stepped(run(s, answers.drop_last()), answers.last()).1 {
            Act::Print { display, line, flush } => before.push(display),
            _ => before,
        }
    }
}

/// What holds between a run and the candidates that it has had printed: each is known to have
/// been shown, and one that is being coloured is known, too, and is another one.
spec fn in_step(s: State, shown: Seq<Seq<char>>) -> bool {
    &&& session::state_wf(s)
    &&& shown.no_duplicates()
    &&& s.count == shown.len()
    &&& forall|i: int| 0 <= i < shown.len() ==> s.seen.contains(#[trigger] shown[i])
    &&& match s.phase {
        Phase::Painting { work, path, entry, display, paths, known } => {
            &&& s.seen.contains(display)
            &&& !shown.contains(display)
            &&& session::is_wanted(s, path, entry.is_dir_spec())
            &&& display == session::display_of(s.settings, path)
        },
        _ => true,
    }
}

/// The candidates printed after one more answer.
spec fn shown_after(s: State, shown: Seq<Seq<char>>, a: Answer) -> Seq<Seq<char>> {
    match session::stepped(s, a).1 {
        Act::Print { display, line, flush } => shown.push(display),
        _ => shown,
    }
}

/// Whether a path is one that the run may print as `display`.
pub open spec fn is_offered(s: State, path: Seq<u8>, is_dir: bool, display: Seq<char>) -> bool {
    session::is_wanted(s, path, is_dir) && display == session::display_of(s.settings, path)
}

/// Whether a step keeps what holds between a run and the candidates that it has had printed.
spec fn stays_in_step(s: State, shown: Seq<Seq<char>>, a: Answer) -> bool {
    let (next, act) = session::stepped(s, a);
    &&& in_step(next, shown_after(s, shown, a))
    &&& next.settings == s.settings
    &&& act is Print ==> act->Print_flush == (s.count == 0)
}

proof fn lemma_one_more(seen: Set<Seq<char>>, shown: Seq<Seq<char>>, display: Seq<char>)
    requires
        shown.no_duplicates(),
        !shown.contains(display),
        seen.contains(display),
        forall|i: int| 0 <= i < shown.len() ==> seen.contains(#[trigger] shown[i]),
    ensures
        shown.push(display).no_duplicates(),
        forall|i: int|
            0 <= i < shown.push(display).len() ==> seen.contains(#[trigger] shown.push(display)[i]),
{
    let after = shown.push(display);
    assert forall|i: int, j: int|
        0 <= i < after.len() && 0 <= j < after.len() && i != j implies after[i] != after[j] by {
        if i == shown.len() {
            assert(after[j] == shown[j]);
        } else if j == shown.len() {
            assert(after[i] == shown[i]);
        }
    }
}

proof fn lemma_step_with_entry(s: State, shown: Seq<Seq<char>>, a: Answer)
    requires
        in_step(s, shown),
        session::awaits(s, a),
        s.phase is Probing,
    ensures
        stays_in_step(s, shown, a),
{
    let (next, act) = session::stepped(s, a);
    let path = s.phase->Probing_path;
    let display = session::display_of(s.settings, path);
    if a->Entry_0 is Some && session::is_wanted(s, path, a->Entry_0->0.is_dir_spec())
        && !s.seen.contains(display) {
        assert(next.seen == s.seen.insert(display));
        assert(!shown.contains(display));
        if act is Print {
            assert forall|i: int| 0 <= i < shown.len() implies next.seen.contains(
                #[trigger] shown[i],
            ) by {
                assert(s.seen.contains(shown[i]));
            }
            lemma_one_more(next.seen, shown, display);
        }
    }
}

proof fn lemma_step_with_component(s: State, shown: Seq<Seq<char>>, a: Answer)
    requires
        in_step(s, shown),
        session::awaits(s, a),
        s.phase is Painting,
    ensures
        stays_in_step(s, shown, a),
{
    lemma_one_more(s.seen, shown, s.phase->Painting_display);
}

/// Whether a step neither prints a candidate nor comes near to it, and keeps what is known of
/// candidates.
spec fn is_quiet(s: State, step: (State, Act)) -> bool {
    let (next, act) = step;
    &&& !(act is Print)
    &&& !(next.phase is Painting)
    &&& !(next.phase is Printing)
    &&& next.seen == s.seen
    &&& next.count == s.count
    &&& next.settings == s.settings
}

proof fn lemma_quiet_command(s: State, cwd: Seq<u8>, command: Seq<char>)
    ensures
        is_quiet(s, session::command_step(s, cwd, command)),
        session::command_step(s, cwd, command).0.reading == s.reading,
        has_opened(session::command_step(s, cwd, command).0),
        !(session::command_step(s, cwd, command).0.phase is Done),
        !(session::command_step(s, cwd, command).0.phase is Reading),
{
}

proof fn lemma_quiet_line(s: State)
    ensures
        is_quiet(s, session::line_step(s)),
{
    match tail::advanced(s.reading).1 {
        Progress::Line(line) => {
            match tail::log_fields(tail::line_text(line)) {
                Some((raw, command)) => {
                    let next = State { reading: tail::advanced(s.reading).0, ..s };
                    if session::known_cwd(s.last_cwd, raw) is Some {
                        lemma_quiet_command(
                            next,
                            session::known_cwd(s.last_cwd, raw)->0,
                            command,
                        );
                    }
                },
                None => {},
            }
        },
        _ => {},
    }
}

proof fn lemma_quiet(s: State, a: Answer)
    requires
        session::awaits(s, a),
        !(s.phase is Probing) && !(s.phase is Painting),
    ensures
        is_quiet(s, session::stepped(s, a)),
{
    match s.phase {
        Phase::NextLine => {
            lemma_quiet_line(State { phase: Phase::Done, ..s });
        },
        Phase::ResolvingCwd { raw, command, path } => {
            let cwd = path::absolutized(path, a->Canonical_0, s.settings.current_dir);
            lemma_quiet_command(
                State { last_cwd: Some((raw, cwd)), phase: Phase::Done, ..s },
                cwd,
                command,
            );
        },
        _ => {},
    }
}

proof fn lemma_quiet_step(s: State, shown: Seq<Seq<char>>, a: Answer)
    requires
        in_step(s, shown),
        session::awaits(s, a),
        !(s.phase is Probing) && !(s.phase is Painting),
    ensures
        stays_in_step(s, shown, a),
{
    lemma_quiet(s, a);
    if s.phase is Printing && s.phase->Printing_stop {
        assert(session::stepped(s, a).0.phase is Done);
    }
}

proof fn lemma_step(s: State, shown: Seq<Seq<char>>, a: Answer)
    requires
        in_step(s, shown),
    ensures
        stays_in_step(s, shown, a),
{
    if session::awaits(s, a) {
        if s.phase is Probing {
            lemma_step_with_entry(s, shown, a);
        } else if s.phase is Painting {
            lemma_step_with_component(s, shown, a);
        } else {
            lemma_quiet_step(s, shown, a);
        }
    }
}

proof fn lemma_run(settings: Settings, answers: Seq<Answer>)
    ensures
        in_step(
            run(session::initial(settings), answers),
            printed(session::initial(settings), answers),
        ),
        run(session::initial(settings), answers).settings == settings,
    decreases answers.len(),
{
    let s = session::initial(settings);
    if answers.len() > 0 {
        lemma_run(settings, answers.drop_last());
        lemma_step(
            run(s, answers.drop_last()),
            printed(s, answers.drop_last()),
            answers.last(),
        );
    }
}

/// A run keeps to what `emit_candidates` asks of it, and its settings do not change.
pub proof fn law_runs_are_well_formed(settings: Settings, answers: Seq<Answer>)
    ensures
        session::state_wf(run(session::initial(settings), answers)),
        run(session::initial(settings), answers).settings == settings,
{
    lemma_run(settings, answers);
}

/// No candidate is printed twice.
pub proof fn law_candidates_are_distinct(settings: Settings, answers: Seq<Answer>)
    ensures
        printed(session::initial(settings), answers).no_duplicates(),
{
    lemma_run(settings, answers);
}

/// No more candidates are printed than are wanted, but for the one that is printed where none
/// is wanted.
pub proof fn law_candidates_are_limited(settings: Settings, answers: Seq<Answer>)
    ensures
        printed(session::initial(settings), answers).len() <= (if settings.max_candidates == 0 {
            1
        } else {
            settings.max_candidates
        }),
    decreases answers.len(),
{
    let s = session::initial(settings);
    lemma_run(settings, answers);
    if answers.len() > 0 {
        law_candidates_are_limited(settings, answers.drop_last());
        lemma_run(settings, answers.drop_last());
        let before = run(s, answers.drop_last());
        let a = answers.last();
        if session::stepped(before, a).1 is Print {
            assert(before.phase is Probing || before.phase is Painting);
        }
    }
}

/// Whether answer `j` told that there is this entry at this path, of which the run had asked.
pub open spec fn was_found(
    s: State,
    answers: Seq<Answer>,
    j: int,
    path: Seq<u8>,
    entry: Entry,
) -> bool {
    &&& 0 <= j < answers.len()
    &&& answers[j] == Answer::Entry(Some(entry))
    &&& match run(s, answers.take(j)).phase {
        Phase::Probing { work, path: probed, fallback } => probed == path,
        _ => false,
    }
}

proof fn lemma_found_before(s: State, answers: Seq<Answer>, j: int, path: Seq<u8>, entry: Entry)
    requires
        answers.len() > 0,
        was_found(s, answers.drop_last(), j, path, entry),
    ensures
        was_found(s, answers, j, path, entry),
{
    assert(answers.drop_last().take(j) =~= answers.take(j));
}

proof fn lemma_painted_was_found(settings: Settings, answers: Seq<Answer>)
    ensures
        match run(session::initial(settings), answers).phase {
            Phase::Painting { work, path, entry, display, paths, known } => exists|j: int|
                was_found(session::initial(settings), answers, j, path, entry),
            _ => true,
        },
    decreases answers.len(),
{
    let s = session::initial(settings);
    if answers.len() > 0 {
        let before = run(s, answers.drop_last());
        let n = answers.len() - 1;
        lemma_painted_was_found(settings, answers.drop_last());
        assert(answers.take(n) =~= answers.drop_last());
        if session::awaits(before, answers.last()) && !(before.phase is Probing)
            && !(before.phase is Painting) {
            lemma_quiet(before, answers.last());
        }
        match run(s, answers).phase {
            Phase::Painting { work, path, entry, display, paths, known } => {
                if before.phase is Painting {
                    let j = choose|j: int|
                        was_found(s, answers.drop_last(), j, path, entry);
                    lemma_found_before(s, answers, j, path, entry);
                } else {
                    assert(was_found(s, answers, n, path, entry));
                }
            },
            _ => {},
        }
    }
}

/// A candidate is the text of a path at which an entry was found, under the directory that the
/// user asks for; it begins with what the user typed, and is a directory where directories are
/// asked for. Without colours it is printed as it is shown, with the marker of a directory. The
/// first one, and no other, is flushed.
pub proof fn law_candidates_are_wanted_entries(settings: Settings, answers: Seq<Answer>, i: int)
    requires
        0 <= i < answers.len(),
        asked(session::initial(settings), answers, i) is Print,
    ensures
        ({
            let s = session::initial(settings);
            let display = asked(s, answers, i)->Print_display;
            let line = asked(s, answers, i)->Print_line;
            &&& exists|j: int, path: Seq<u8>, entry: Entry|
                {
                    &&& j <= i
                    &&& #[trigger] was_found(s, answers, j, path, entry)
                    &&& is_offered(
                        run(s, answers.take(i)),
                        path,
                        entry.is_dir_spec(),
                        display,
                    )
                    &&& settings.scheme is None ==> line == display + location::dir_marker(
                        display,
                        entry.is_dir_spec(),
                    )
                }
            &&& asked(s, answers, i)->Print_flush == (printed(s, answers.take(i)).len() == 0)
        }),
{
    let s = session::initial(settings);
    let before = run(s, answers.take(i));
    lemma_run(settings, answers.take(i));
    lemma_step(before, printed(s, answers.take(i)), answers[i]);
    match before.phase {
        Phase::Probing { work, path, fallback } => {
            assert(was_found(s, answers, i, path, answers[i]->Entry_0->0));
        },
        Phase::Painting { work, path, entry, display, paths, known } => {
            lemma_painted_was_found(settings, answers.take(i));
            let j = choose|j: int| was_found(s, answers.take(i), j, path, entry);
            assert(answers.take(i).take(j) =~= answers.take(j));
            assert(was_found(s, answers, j, path, entry));
        },
        _ => {},
    }
}

/// Whether a run in this phase waits for what is asked.
pub open spec fn is_asked_in(s: State, act: Act) -> bool {
    match s.phase {
        Phase::Start => false,
        Phase::ResolvingDir { path } => act == Act::Canonicalize(path),
        Phase::OpeningLog => act == Act::OpenLog(s.settings.pwdlog_file),
        Phase::NextLine => act is Proceed,
        Phase::Reading => act == (Act::ReadLog {
            position: (s.reading.position - tail::chunk_length(s.reading.position)) as nat,
            length: tail::chunk_length(s.reading.position),
        }),
        Phase::ResolvingCwd { raw, command, path } => act == Act::Canonicalize(path),
        Phase::ResolvingPost { cwd, words, path } => act == Act::Canonicalize(path),
        Phase::CheckingPost { cwd, words, path } => act == Act::CheckDir(path),
        Phase::NextWord { work } => act is Proceed,
        Phase::Probing { work, path, fallback } => act == Act::Examine(path),
        Phase::Painting { work, path, entry, display, paths, known } => known.len() < paths.len()
            && act == Act::Examine(paths[known.len() as int]),
        Phase::Printing { work, stop } => act is Print,
        Phase::Done => act is Finished,
    }
}

/// What a run asks is what it then waits for.
pub proof fn law_asks_for_what_it_awaits(s: State, a: Answer)
    requires
        session::awaits(s, a),
    ensures
        is_asked_in(session::stepped(s, a).0, session::stepped(s, a).1),
{
}

/// Whether an answer is one to what is asked: anything that may be found out, of the bytes as many
/// as are asked for, and nothing where nothing is to be found out.
pub open spec fn is_answer_to(act: Act, a: Answer) -> bool {
    match act {
        Act::Canonicalize(path) => a is Canonical,
        Act::OpenLog(path) => a is Length,
        Act::ReadLog { position, length } => a is Bytes && a->Bytes_0.len() == length,
        Act::Examine(path) => a is Entry,
        Act::CheckDir(path) => a is IsDirectory,
        Act::Print { display, line, flush } => a is Nothing,
        Act::Proceed => a is Nothing,
        Act::Finished => a is Nothing,
        Act::Ignored => false,
    }
}

/// Every answer to what a run asks is taken, and no other is; at its beginning it waits for
/// nothing to be found out.
pub proof fn law_every_answer_is_taken(settings: Settings, s: State, a: Answer, b: Answer)
    requires
        session::awaits(s, a),
    ensures
        session::awaits(session::stepped(s, a).0, b) <==> is_answer_to(
            session::stepped(s, a).1,
            b,
        ),
        session::awaits(session::initial(settings), b) <==> b is Nothing,
{
    law_asks_for_what_it_awaits(s, a);
}

/// An answer that is none to what was asked changes nothing.
pub proof fn law_other_answers_change_nothing(s: State, a: Answer)
    requires
        !session::awaits(s, a),
    ensures
        session::stepped(s, a) == (s, Act::Ignored),
{
}

/// A run that is done stays so, and asks for nothing.
pub proof fn law_done_is_final(s: State, answers: Seq<Answer>)
    requires
        s.phase is Done,
    ensures
        run(s, answers) == s,
        forall|i: int|
            0 <= i < answers.len() ==> (#[trigger] asked(s, answers, i) is Finished || asked(
                s,
                answers,
                i,
            ) is Ignored),
    decreases answers.len(),
{
    if answers.len() > 0 {
        law_done_is_final(s, answers.drop_last());
    }
    assert forall|i: int| 0 <= i < answers.len() implies (#[trigger] asked(s, answers, i)
        is Finished || asked(s, answers, i) is Ignored) by {
        if i < answers.len() - 1 {
            assert(asked(s, answers.drop_last(), i) is Finished || asked(s, answers.drop_last(), i)
                is Ignored);
            assert(answers.drop_last().take(i) =~= answers.take(i));
        } else {
            assert(answers.take(i) =~= answers.drop_last());
        }
    }
}

/// The line that a run looks at with an answer, if it looks at one.
pub open spec fn line_looked_at(s: State, a: Answer) -> Option<Seq<u8>> {
    if session::awaits(s, a) && s.phase is NextLine {
        match tail::advanced(s.reading).1 {
            Progress::Line(line) => Some(line),
            _ => None,
        }
    } else {
        None
    }
}

/// The lines that a run has looked at after these answers, in their order.
pub open spec fn looked_at(s: State, answers: Seq<Answer>) -> Seq<Seq<u8>>
    decreases answers.len(),
{
    if answers.len() == 0 {
        Seq::empty()
    } else {
        let before = looked_at(s, answers.drop_last());
        match line_looked_at(run(s, answers.drop_last()), answers.last()) {
            Some(line) => before.push(line),
            None => before,
        }
    }
}

/// Whether an answer, where it is one, tells the length or the bytes of a log with this content.
pub open spec fn is_true_of(s: State, a: Answer, content: Seq<u8>) -> bool {
    session::awaits(s, a) ==> match a {
        Answer::Length(length) => length == content.len(),
        Answer::Bytes(bytes) => s.reading.position <= content.len() && bytes == content.subrange(
            s.reading.position - bytes.len(),
            s.reading.position as int,
        ),
        _ => true,
    }
}

/// Whether a run has opened the log, or is done.
pub open spec fn has_opened(s: State) -> bool {
    !(s.phase is Start || s.phase is ResolvingDir || s.phase is OpeningLog)
}

/// What holds between a run, a log and the lines of it that were looked at.
spec fn follows(s: State, content: Seq<u8>, lines: Seq<Seq<u8>>) -> bool {
    &&& has_opened(s) ==> {
        &&& tail::reads(s.reading, content)
        &&& lines + tail::remaining(s.reading, content) == tail::file_lines(
            content,
            s.settings.lines_limit,
        )
    }
    &&& !has_opened(s) ==> lines.len() == 0 && s.reading == tail::unread(0, 0)
    &&& s.phase is Reading ==> tail::advanced(s.reading).1 is Read
    &&& s.phase is Done ==> tail::remaining(s.reading, content).len() == 0 || s.count
        >= s.settings.max_candidates
    &&& s.phase is Printing && s.phase->Printing_stop ==> s.count >= s.settings.max_candidates
}

/// The lines that were looked at after one more answer.
spec fn lines_after(s: State, lines: Seq<Seq<u8>>, a: Answer) -> Seq<Seq<u8>> {
    match line_looked_at(s, a) {
        Some(line) => lines.push(line),
        None => lines,
    }
}

proof fn lemma_follows_before_the_log(
    s: State,
    content: Seq<u8>,
    lines: Seq<Seq<u8>>,
    a: Answer,
)
    requires
        follows(s, content, lines),
        is_true_of(s, a, content),
        session::awaits(s, a),
        !has_opened(s),
    ensures
        follows(session::stepped(s, a).0, content, lines),
{
    let next = session::stepped(s, a).0;
    match s.phase {
        Phase::ResolvingDir { path } => {
            assert(content.take(0) + Seq::<u8>::empty() =~= Seq::<u8>::empty());
            assert(lines + Seq::<Seq<u8>>::empty() =~= Seq::<Seq<u8>>::empty());
        },
        Phase::OpeningLog => {
            assert(content.take(content.len() as int) + Seq::<u8>::empty() =~= content);
            assert(lines + tail::remaining(next.reading, content) =~= tail::remaining(
                next.reading,
                content,
            ));
        },
        _ => {},
    }
}

proof fn lemma_follows_with_a_line(s: State, content: Seq<u8>, lines: Seq<Seq<u8>>, a: Answer)
    requires
        follows(s, content, lines),
        session::awaits(s, a),
        s.phase is NextLine,
    ensures
        follows(session::stepped(s, a).0, content, lines_after(s, lines, a)),
{
    let (reading, progress) = tail::advanced(s.reading);
    match progress {
        Progress::Line(line) => {
            tail::law_line_is_next(s.reading, content);
            let after = tail::remaining(reading, content);
            assert(lines + (seq![line] + after) =~= lines.push(line) + after);
            let next = State { reading, phase: Phase::Done, ..s };
            match tail::log_fields(tail::line_text(line)) {
                Some((raw, command)) => {
                    if session::known_cwd(s.last_cwd, raw) is Some {
                        lemma_quiet_command(
                            next,
                            session::known_cwd(s.last_cwd, raw)->0,
                            command,
                        );
                    }
                },
                None => {},
            }
        },
        Progress::Finished => {
            tail::law_finished_means_no_line(s.reading, content);
        },
        _ => {},
    }
}

proof fn lemma_follows_with_an_entry(s: State, content: Seq<u8>, lines: Seq<Seq<u8>>, a: Answer)
    requires
        follows(s, content, lines),
        session::awaits(s, a),
        s.phase is Probing || s.phase is Painting,
    ensures
        follows(session::stepped(s, a).0, content, lines),
{
    let next = session::stepped(s, a).0;
    assert(next.reading == s.reading);
    assert(next.phase is Probing || next.phase is Painting || next.phase is NextWord
        || next.phase is Printing);
}

proof fn lemma_follows_otherwise(s: State, content: Seq<u8>, lines: Seq<Seq<u8>>, a: Answer)
    requires
        follows(s, content, lines),
        is_true_of(s, a, content),
        session::awaits(s, a),
        has_opened(s),
        !(s.phase is NextLine) && !(s.phase is Probing) && !(s.phase is Painting),
    ensures
        follows(session::stepped(s, a).0, content, lines),
{
    match s.phase {
        Phase::Reading => {
            tail::law_reading_keeps_lines(s.reading, content);
        },
        Phase::ResolvingCwd { raw, command, path } => {
            let cwd = path::absolutized(path, a->Canonical_0, s.settings.current_dir);
            lemma_quiet_command(
                State { last_cwd: Some((raw, cwd)), phase: Phase::Done, ..s },
                cwd,
                command,
            );
        },
        _ => {},
    }
}

proof fn lemma_follows(s: State, content: Seq<u8>, lines: Seq<Seq<u8>>, a: Answer)
    requires
        follows(s, content, lines),
        is_true_of(s, a, content),
    ensures
        follows(session::stepped(s, a).0, content, lines_after(s, lines, a)),
{
    if session::awaits(s, a) {
        if !has_opened(s) {
            lemma_follows_before_the_log(s, content, lines, a);
        } else if s.phase is NextLine {
            lemma_follows_with_a_line(s, content, lines, a);
        } else if s.phase is Probing || s.phase is Painting {
            lemma_follows_with_an_entry(s, content, lines, a);
        } else {
            lemma_follows_otherwise(s, content, lines, a);
        }
    }
}

/// Where the caller answers with a log, the lines that a run looks at are its last ones, newest
/// first and each once: they are the first of those that are wanted.
pub proof fn law_lines_are_looked_at_newest_first(
    settings: Settings,
    answers: Seq<Answer>,
    content: Seq<u8>,
)
    requires
        forall|i: int|
            0 <= i < answers.len() ==> is_true_of(
                run(session::initial(settings), answers.take(i)),
                #[trigger] answers[i],
                content,
            ),
    ensures
        ({
            let lines = looked_at(session::initial(settings), answers);
            let all = tail::file_lines(content, settings.lines_limit);
            lines.len() <= all.len() && lines == all.take(lines.len() as int)
        }),
{
    let s = session::initial(settings);
    lemma_runs_follow(settings, answers, content);
    lemma_run(settings, answers);
    let lines = looked_at(s, answers);
    let all = tail::file_lines(content, settings.lines_limit);
    assert(lines =~= all.take(lines.len() as int));
}

proof fn lemma_runs_follow(settings: Settings, answers: Seq<Answer>, content: Seq<u8>)
    requires
        forall|i: int|
            0 <= i < answers.len() ==> is_true_of(
                run(session::initial(settings), answers.take(i)),
                #[trigger] answers[i],
                content,
            ),
    ensures
        follows(
            run(session::initial(settings), answers),
            content,
            looked_at(session::initial(settings), answers),
        ),
    decreases answers.len(),
{
    let s = session::initial(settings);
    if answers.len() > 0 {
        let before = answers.drop_last();
        assert forall|i: int| 0 <= i < before.len() implies is_true_of(
            run(s, before.take(i)),
            #[trigger] before[i],
            content,
        ) by {
            assert(before.take(i) =~= answers.take(i));
            assert(before[i] == answers[i]);
        }
        lemma_runs_follow(settings, before, content);
        assert(answers.take(answers.len() - 1) =~= before);
        assert(answers[answers.len() - 1] == answers.last());
        lemma_follows(run(s, before), content, looked_at(s, before), answers.last());
    }
}

/// Where the caller answers with a log, a run that is done has looked at all lines that are
/// wanted, or has had as many candidates printed as are wanted.
pub proof fn law_a_run_ends_with_the_log_or_the_limit(
    settings: Settings,
    answers: Seq<Answer>,
    content: Seq<u8>,
)
    requires
        forall|i: int|
            0 <= i < answers.len() ==> is_true_of(
                run(session::initial(settings), answers.take(i)),
                #[trigger] answers[i],
                content,
            ),
        run(session::initial(settings), answers).phase is Done,
    ensures
        ({
            let s = session::initial(settings);
            ||| looked_at(s, answers) == tail::file_lines(content, settings.lines_limit)
            ||| printed(s, answers).len() >= settings.max_candidates
        }),
{
    let s = session::initial(settings);
    lemma_runs_follow(settings, answers, content);
    lemma_run(settings, answers);
    let left = tail::remaining(run(s, answers).reading, content);
    if left.len() == 0 {
        assert(looked_at(s, answers) + left =~= looked_at(s, answers));
    }
}

/// An entry that is wanted and not shown yet becomes a candidate: it is printed at once, or as
/// soon as its components are known.
pub proof fn law_wanted_entries_become_candidates(s: State, a: Answer)
    requires
        s.phase is Probing,
        a is Entry && a->Entry_0 is Some,
        session::is_wanted(s, s.phase->Probing_path, a->Entry_0->0.is_dir_spec()),
        !s.seen.contains(session::display_of(s.settings, s.phase->Probing_path)),
    ensures
        ({
            let (next, act) = session::stepped(s, a);
            let display = session::display_of(s.settings, s.phase->Probing_path);
            &&& act is Print || next.phase is Painting
            &&& act is Print ==> act->Print_display == display
            &&& next.phase is Painting ==> next.phase->Painting_display == display
            &&& s.settings.scheme is None ==> act is Print
        }),
{
}

/// A candidate whose components are being asked for is printed when they are known.
pub proof fn law_painted_candidates_are_printed(s: State, a: Answer)
    requires
        s.phase is Painting,
        a is Entry,
    ensures
        ({
            let (next, act) = session::stepped(s, a);
            if s.phase->known.len() + 1 < s.phase->paths.len() {
                &&& next.phase is Painting
                &&& next.phase->Painting_display == s.phase->Painting_display
            } else {
                &&& act is Print
                &&& act->Print_display == s.phase->Painting_display
            }
        }),
{
}

/// How far a run is from its end: the steps before the log is open, the bytes of the log that
/// are not read, the lines that are wanted, the steps within a line, its words that are left,
/// the steps within a word, and the components of a candidate of which nothing is known.
pub struct Distance {
    pub opening: nat,
    pub bytes: nat,
    pub lines: nat,
    pub line: nat,
    pub words: nat,
    pub word: nat,
    pub components: nat,
}

/// Whether one distance is less than another, its parts compared in order.
pub open spec fn is_less(a: Distance, b: Distance) -> bool {
    a.opening < b.opening || a.opening == b.opening && (a.bytes < b.bytes || a.bytes == b.bytes && (
    a.lines < b.lines || a.lines == b.lines && (a.line < b.line || a.line == b.line && (a.words
        < b.words || a.words == b.words && (a.word < b.word || a.word == b.word && a.components
        < b.components)))))
}

/// The difference of two numbers; zero where the second is greater.
pub open spec fn rest_of(total: nat, done: nat) -> nat {
    if done < total {
        (total - done) as nat
    } else {
        0
    }
}

/// How far a run is from its end.
pub open spec fn distance(s: State) -> Distance {
    let (opening, line, words, word, components): (nat, nat, nat, nat, nat) = match s.phase {
        Phase::Start => (3, 0, 0, 0, 0),
        Phase::ResolvingDir { .. } => (2, 0, 0, 0, 0),
        Phase::OpeningLog => (1, 0, 0, 0, 0),
        Phase::ResolvingCwd { .. } => (0, 6, 0, 0, 0),
        Phase::ResolvingPost { .. } => (0, 5, 0, 0, 0),
        Phase::CheckingPost { .. } => (0, 4, 0, 0, 0),
        Phase::NextWord { work } => (0, 3, rest_of(work.words.len(), work.index), 0, 0),
        Phase::Probing { work, path, fallback } => (
            0,
            3,
            rest_of(work.words.len(), work.index),
            if fallback is Some {
                4
            } else {
                3
            },
            0,
        ),
        Phase::Painting { work, path, entry, display, paths, known } => (
            0,
            3,
            rest_of(work.words.len(), work.index),
            2,
            rest_of(paths.len(), known.len()),
        ),
        Phase::Printing { work, stop } => (0, 3, rest_of(work.words.len(), work.index), 1, 0),
        Phase::NextLine => (0, 2, 0, 0, 0),
        Phase::Reading => (0, 1, 0, 0, 0),
        Phase::Done => (0, 0, 0, 0, 0),
    };
    Distance {
        opening,
        bytes: s.reading.position,
        lines: s.reading.left,
        line,
        words,
        word,
        components,
    }
}

proof fn lemma_reading_is_asked(settings: Settings, answers: Seq<Answer>)
    ensures
        run(session::initial(settings), answers).phase is Reading ==> tail::advanced(
            run(session::initial(settings), answers).reading,
        ).1 is Read,
    decreases answers.len(),
{
    if answers.len() > 0 {
        lemma_reading_is_asked(settings, answers.drop_last());
    }
}

/// Whether a step brings a run nearer to its end.
spec fn comes_nearer(s: State, a: Answer) -> bool {
    is_less(distance(session::stepped(s, a).0), distance(s))
}

proof fn lemma_nearer_before_the_log(s: State, a: Answer)
    requires
        session::awaits(s, a),
        s.phase is Start || s.phase is ResolvingDir || s.phase is OpeningLog,
    ensures
        comes_nearer(s, a),
{
}

proof fn lemma_nearer_with_a_line(s: State, a: Answer)
    requires
        session::awaits(s, a),
        s.phase is NextLine,
    ensures
        comes_nearer(s, a),
{
}

proof fn lemma_nearer_with_bytes(s: State, a: Answer)
    requires
        session::awaits(s, a),
        s.phase is Reading,
        tail::advanced(s.reading).1 is Read,
    ensures
        comes_nearer(s, a),
{
}

proof fn lemma_nearer_with_a_command(s: State, a: Answer)
    requires
        session::awaits(s, a),
        s.phase is ResolvingCwd || s.phase is ResolvingPost || s.phase is CheckingPost,
    ensures
        comes_nearer(s, a),
{
}

proof fn lemma_nearer_with_a_word(s: State, a: Answer)
    requires
        session::awaits(s, a),
        s.phase is NextWord || s.phase is Printing,
    ensures
        comes_nearer(s, a),
{
}

proof fn lemma_nearer_with_an_entry(s: State, a: Answer)
    requires
        session::awaits(s, a),
        s.phase is Probing,
    ensures
        comes_nearer(s, a),
{
}

proof fn lemma_nearer_with_a_component(s: State, a: Answer)
    requires
        session::awaits(s, a),
        s.phase is Painting,
    ensures
        comes_nearer(s, a),
{
}

/// Each answer to what was asked brings a run nearer to its end, so that a caller who goes on
/// answering comes to it.
pub proof fn law_answers_lead_to_the_end(settings: Settings, answers: Seq<Answer>, a: Answer)
    requires
        session::awaits(run(session::initial(settings), answers), a),
        !(run(session::initial(settings), answers).phase is Done),
    ensures
        is_less(
            distance(session::stepped(run(session::initial(settings), answers), a).0),
            distance(run(session::initial(settings), answers)),
        ),
{
    let s = run(session::initial(settings), answers);
    lemma_reading_is_asked(settings, answers);
    match s.phase {
        Phase::NextLine => lemma_nearer_with_a_line(s, a),
        Phase::Reading => lemma_nearer_with_bytes(s, a),
        Phase::ResolvingCwd { .. } => lemma_nearer_with_a_command(s, a),
        Phase::ResolvingPost { .. } => lemma_nearer_with_a_command(s, a),
        Phase::CheckingPost { .. } => lemma_nearer_with_a_command(s, a),
        Phase::NextWord { .. } => lemma_nearer_with_a_word(s, a),
        Phase::Printing { .. } => lemma_nearer_with_a_word(s, a),
        Phase::Probing { .. } => lemma_nearer_with_an_entry(s, a),
        Phase::Painting { .. } => lemma_nearer_with_a_component(s, a),
        _ => lemma_nearer_before_the_log(s, a),
    }
}

} // verus!
