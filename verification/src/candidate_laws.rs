//! What holds of the candidates: which entries they are, that none is left out, and their order.

use vstd::prelude::*;

use crate::command_laws;
use crate::config::Settings;
use crate::files::Entry;
use crate::files::FileKind;
use crate::location;
use crate::location_laws;
use crate::outcome;
use crate::outcome::Shown;
use crate::outcome::World;
use crate::path;
use crate::session;
use crate::session::Answer;
use crate::session_laws;
use crate::tail;
use crate::tokens;
use crate::words;

verus! {

/// Whether a word of a command, given in the directory `cwd`, names what is at `p`: it is a path
/// and there is an entry. A relative path is seen from `cwd`, and, where nothing is there, from the
/// directory in which the command left the shell.
pub open spec fn is_named_by(
    settings: Settings,
    world: World,
    cwd: Seq<u8>,
    post: Option<Seq<u8>>,
    word: Seq<char>,
    p: Seq<u8>,
) -> bool {
    let token = location::expanded(word, settings.home);
    &&& !words::is_no_path(word)
    &&& token is Some
    &&& world.entries.contains_key(p)
    &&& if token->0.len() > 0 && token->0[0] == 47u8 {
        p == path::normalized(token->0)
    } else {
        let here = path::lexical(path::joined(cwd, token->0), settings.current_dir);
        ||| p == here
        ||| {
            &&& !world.entries.contains_key(here)
            &&& post is Some
            &&& p == path::lexical(path::joined(post->0, token->0), settings.current_dir)
        }
    }
}

/// Whether a candidate is the entry at `p`: it is asked for, and shown and printed as such.
pub open spec fn is_candidate_for(settings: Settings, world: World, p: Seq<u8>, shown: Shown) -> bool {
    &&& outcome::is_asked_for(settings, world, p, world.entries[p].is_dir_spec())
    &&& shown.display == session::display_of(settings, p)
    &&& shown.line == outcome::line_for(settings, world, p, world.entries[p], shown.display)
}

/// Whether word `k` of the command in a line of the log names what is at `p`.
pub open spec fn is_named_in(
    settings: Settings,
    world: World,
    line: Seq<u8>,
    k: int,
    p: Seq<u8>,
) -> bool {
    match tail::log_fields(tail::line_text(line)) {
        Some((raw, command)) => {
            let cwd = outcome::directory(settings, world, vstd::utf8::encode_utf8(raw));
            let list = tokens::words(command);
            &&& raw.len() > 0
            &&& command.len() > 0
            &&& 0 <= k < list.len()
            &&& is_named_by(
                settings,
                world,
                cwd,
                outcome::left_in(settings, world, cwd, list),
                list[k],
                p,
            )
        },
        None => false,
    }
}

/// A word adds the entry that it names, where that is asked for and not shown yet, behind the
/// other candidates, and adds nothing else.
pub proof fn law_a_word_adds_what_it_names(
    settings: Settings,
    world: World,
    shown: Seq<Shown>,
    cwd: Seq<u8>,
    post: Option<Seq<u8>>,
    word: Seq<char>,
    p: Seq<u8>,
)
    ensures
        ({
            let after = outcome::with_word(settings, world, shown, cwd, post, word);
            let display = session::display_of(settings, p);
            let is_asked = outcome::is_asked_for(
                settings,
                world,
                p,
                world.entries[p].is_dir_spec(),
            );
            &&& is_named_by(settings, world, cwd, post, word, p) && is_asked
                && !(exists|i: int| 0 <= i < shown.len() && (#[trigger] shown[i]).display == display)
                ==> after.len() == shown.len() + 1 && after.drop_last() == shown
                && is_candidate_for(settings, world, p, after.last())
            &&& is_named_by(settings, world, cwd, post, word, p) && (!is_asked || exists|i: int|
                0 <= i < shown.len() && (#[trigger] shown[i]).display == display) ==> after == shown
        }),
        (forall|q: Seq<u8>| !is_named_by(settings, world, cwd, post, word, q))
            ==> outcome::with_word(settings, world, shown, cwd, post, word) == shown,
{
    let after = outcome::with_word(settings, world, shown, cwd, post, word);
    if is_named_by(settings, world, cwd, post, word, p) {
        let display = session::display_of(settings, p);
        let line = outcome::line_for(settings, world, p, world.entries[p], display);
        if outcome::is_asked_for(settings, world, p, world.entries[p].is_dir_spec())
            && !outcome::is_shown(shown, display) {
            assert(after == shown.push(Shown { display, line }));
            assert(after.drop_last() =~= shown);
        }
    }
    if forall|q: Seq<u8>| !is_named_by(settings, world, cwd, post, word, q) {
        let token = location::expanded(word, settings.home);
        if !words::is_no_path(word) && token is Some {
            let (first, other) = session::places(token->0, cwd, post, settings.current_dir);
            assert(!is_named_by(settings, world, cwd, post, word, first));
            if other is Some {
                assert(!is_named_by(settings, world, cwd, post, word, other->0));
            }
        }
    }
}

proof fn lemma_word_is_sound(
    settings: Settings,
    world: World,
    shown: Seq<Shown>,
    cwd: Seq<u8>,
    post: Option<Seq<u8>>,
    word: Seq<char>,
)
    ensures
        ({
            let after = outcome::with_word(settings, world, shown, cwd, post, word);
            after == shown || (after.len() == shown.len() + 1 && after.take(shown.len() as int)
                == shown && exists|p: Seq<u8>|
                #[trigger] is_named_by(settings, world, cwd, post, word, p) && is_candidate_for(
                    settings,
                    world,
                    p,
                    after.last(),
                ))
        }),
{
    let after = outcome::with_word(settings, world, shown, cwd, post, word);
    if exists|q: Seq<u8>| is_named_by(settings, world, cwd, post, word, q) {
        let p = choose|q: Seq<u8>| is_named_by(settings, world, cwd, post, word, q);
        law_a_word_adds_what_it_names(settings, world, shown, cwd, post, word, p);
        if after != shown {
            assert(after.take(shown.len() as int) =~= after.drop_last());
        }
    } else {
        law_a_word_adds_what_it_names(settings, world, shown, cwd, post, word, Seq::empty());
    }
}

/// Whether a candidate comes from one of the words from word `i` on.
pub open spec fn comes_from_words(
    settings: Settings,
    world: World,
    cwd: Seq<u8>,
    post: Option<Seq<u8>>,
    list: Seq<Seq<char>>,
    i: int,
    shown: Shown,
) -> bool {
    exists|k: int, p: Seq<u8>|
        i <= k < list.len() && #[trigger] is_named_by(settings, world, cwd, post, list[k], p)
            && is_candidate_for(settings, world, p, shown)
}

proof fn lemma_words_are_sound(
    settings: Settings,
    world: World,
    shown: Seq<Shown>,
    cwd: Seq<u8>,
    post: Option<Seq<u8>>,
    list: Seq<Seq<char>>,
    i: nat,
)
    ensures
        ({
            let after = outcome::with_words(settings, world, shown, cwd, post, list, i);
            &&& shown.len() <= after.len()
            &&& after.take(shown.len() as int) == shown
            &&& forall|j: int|
                shown.len() <= j < after.len() ==> comes_from_words(
                    settings,
                    world,
                    cwd,
                    post,
                    list,
                    i as int,
                    #[trigger] after[j],
                )
        }),
    decreases list.len() - i,
{
    let after = outcome::with_words(settings, world, shown, cwd, post, list, i);
    if i >= list.len() || outcome::is_full(settings, shown) {
        assert(after.take(shown.len() as int) =~= shown);
    } else {
        let word = list[i as int];
        let next = outcome::with_word(settings, world, shown, cwd, post, word);
        lemma_word_is_sound(settings, world, shown, cwd, post, word);
        assert(next == shown ==> next.take(shown.len() as int) =~= shown);
        lemma_words_are_sound(settings, world, next, cwd, post, list, i + 1);
        assert(after.take(shown.len() as int) =~= after.take(next.len() as int).take(
            shown.len() as int,
        ));
        assert forall|j: int| shown.len() <= j < after.len() implies comes_from_words(
            settings,
            world,
            cwd,
            post,
            list,
            i as int,
            #[trigger] after[j],
        ) by {
            if j < next.len() {
                assert(after.take(next.len() as int)[j] == next.last());
                let p = choose|p: Seq<u8>|
                    #[trigger] is_named_by(settings, world, cwd, post, word, p) && is_candidate_for(
                        settings,
                        world,
                        p,
                        next.last(),
                    );
                assert(is_named_by(settings, world, cwd, post, list[i as int], p));
            } else {
                let (k, p) = choose|k: int, p: Seq<u8>|
                    i + 1 <= k < list.len() && #[trigger] is_named_by(
                        settings,
                        world,
                        cwd,
                        post,
                        list[k],
                        p,
                    ) && is_candidate_for(settings, world, p, after[j]);
                assert(is_named_by(settings, world, cwd, post, list[k], p));
            }
        }
    }
}

/// Whether a candidate comes from a word of a line.
pub open spec fn comes_from_line(
    settings: Settings,
    world: World,
    line: Seq<u8>,
    shown: Shown,
) -> bool {
    exists|k: int, p: Seq<u8>|
        #[trigger] is_named_in(settings, world, line, k, p) && is_candidate_for(
            settings,
            world,
            p,
            shown,
        )
}

/// Whether a candidate comes from a word of one of the lines.
pub open spec fn comes_from_lines(
    settings: Settings,
    world: World,
    lines: Seq<Seq<u8>>,
    shown: Shown,
) -> bool {
    exists|i: int, k: int, p: Seq<u8>|
        0 <= i < lines.len() && #[trigger] is_named_in(settings, world, lines[i], k, p)
            && is_candidate_for(settings, world, p, shown)
}

proof fn lemma_line_is_sound(settings: Settings, world: World, shown: Seq<Shown>, line: Seq<u8>)
    ensures
        ({
            let after = outcome::with_line(settings, world, shown, line);
            &&& shown.len() <= after.len()
            &&& after.take(shown.len() as int) == shown
            &&& forall|j: int|
                shown.len() <= j < after.len() ==> comes_from_line(
                    settings,
                    world,
                    line,
                    #[trigger] after[j],
                )
        }),
{
    let after = outcome::with_line(settings, world, shown, line);
    match tail::log_fields(tail::line_text(line)) {
        Some((raw, command)) => if raw.len() > 0 && command.len() > 0 {
            let cwd = outcome::directory(settings, world, vstd::utf8::encode_utf8(raw));
            let list = tokens::words(command);
            let post = outcome::left_in(settings, world, cwd, list);
            lemma_words_are_sound(settings, world, shown, cwd, post, list, 0);
            assert forall|j: int| shown.len() <= j < after.len() implies comes_from_line(
                settings,
                world,
                line,
                #[trigger] after[j],
            ) by {
                assert(comes_from_words(settings, world, cwd, post, list, 0, after[j]));
                let (k, p) = choose|k: int, p: Seq<u8>|
                    0 <= k < list.len() && #[trigger] is_named_by(
                        settings,
                        world,
                        cwd,
                        post,
                        list[k],
                        p,
                    ) && is_candidate_for(settings, world, p, after[j]);
                assert(is_named_in(settings, world, line, k, p));
            }
        } else {
            assert(after.take(shown.len() as int) =~= shown);
        },
        None => {
            assert(after.take(shown.len() as int) =~= shown);
        },
    }
}

/// Every candidate that lines of the log add is an entry that a word of a command in one of them
/// names and that is asked for, shown and printed as such.
pub proof fn law_candidates_are_named_in_the_log(
    settings: Settings,
    world: World,
    shown: Seq<Shown>,
    lines: Seq<Seq<u8>>,
)
    ensures
        ({
            let after = outcome::with_lines(settings, world, shown, lines);
            &&& shown.len() <= after.len()
            &&& after.take(shown.len() as int) == shown
            &&& forall|j: int|
                shown.len() <= j < after.len() ==> comes_from_lines(
                    settings,
                    world,
                    lines,
                    #[trigger] after[j],
                )
        }),
    decreases lines.len(),
{
    let after = outcome::with_lines(settings, world, shown, lines);
    if lines.len() == 0 || outcome::is_full(settings, shown) {
        assert(after.take(shown.len() as int) =~= shown);
    } else {
        let next = outcome::with_line(settings, world, shown, lines[0]);
        let others = lines.skip(1);
        lemma_line_is_sound(settings, world, shown, lines[0]);
        law_candidates_are_named_in_the_log(settings, world, next, others);
        assert(after.take(shown.len() as int) =~= after.take(next.len() as int).take(
            shown.len() as int,
        ));
        assert forall|j: int| shown.len() <= j < after.len() implies comes_from_lines(
            settings,
            world,
            lines,
            #[trigger] after[j],
        ) by {
            if j < next.len() {
                assert(after.take(next.len() as int)[j] == next[j]);
                assert(comes_from_line(settings, world, lines[0], next[j]));
                let (k, p) = choose|k: int, p: Seq<u8>|
                    #[trigger] is_named_in(settings, world, lines[0], k, p) && is_candidate_for(
                        settings,
                        world,
                        p,
                        next[j],
                    );
                assert(is_named_in(settings, world, lines[0], k, p));
            } else {
                let (i, k, p) = choose|i: int, k: int, p: Seq<u8>|
                    0 <= i < others.len() && #[trigger] is_named_in(
                        settings,
                        world,
                        others[i],
                        k,
                        p,
                    ) && is_candidate_for(settings, world, p, after[j]);
                assert(others[i] == lines[i + 1]);
                assert(is_named_in(settings, world, lines[i + 1], k, p));
            }
        }
    }
}

proof fn lemma_still_shown(a: Seq<Shown>, b: Seq<Shown>, display: Seq<char>)
    requires
        a.len() <= b.len(),
        b.take(a.len() as int) == a,
        outcome::is_shown(a, display),
    ensures
        outcome::is_shown(b, display),
{
    let i = choose|i: int| 0 <= i < a.len() && (#[trigger] a[i]).display == display;
    assert(b.take(a.len() as int)[i] == b[i]);
}

proof fn lemma_still_full(settings: Settings, a: Seq<Shown>, b: Seq<Shown>)
    requires
        a.len() <= b.len(),
        outcome::is_full(settings, a),
    ensures
        outcome::is_full(settings, b),
{
}

proof fn lemma_words_leave_none_out(
    settings: Settings,
    world: World,
    shown: Seq<Shown>,
    cwd: Seq<u8>,
    post: Option<Seq<u8>>,
    list: Seq<Seq<char>>,
    i: nat,
    k: int,
    p: Seq<u8>,
)
    requires
        i <= k < list.len(),
        is_named_by(settings, world, cwd, post, list[k], p),
        outcome::is_asked_for(settings, world, p, world.entries[p].is_dir_spec()),
    ensures
        ({
            let after = outcome::with_words(settings, world, shown, cwd, post, list, i);
            outcome::is_full(settings, after) || outcome::is_shown(
                after,
                session::display_of(settings, p),
            )
        }),
    decreases list.len() - i,
{
    if !outcome::is_full(settings, shown) {
        let word = list[i as int];
        let next = outcome::with_word(settings, world, shown, cwd, post, word);
        let display = session::display_of(settings, p);
        if k == i {
            law_a_word_adds_what_it_names(settings, world, shown, cwd, post, word, p);
            assert(outcome::is_shown(next, display)) by {
                if next != shown {
                    assert(next[next.len() - 1].display == display);
                }
            }
            lemma_words_are_sound(settings, world, next, cwd, post, list, i + 1);
            lemma_still_shown(
                next,
                outcome::with_words(settings, world, next, cwd, post, list, i + 1),
                display,
            );
        } else {
            lemma_words_leave_none_out(settings, world, next, cwd, post, list, i + 1, k, p);
        }
    }
}

/// No entry that a word in the lines names and that is asked for is left out, unless there are as
/// many candidates as are wanted.
pub proof fn law_no_candidate_is_left_out(
    settings: Settings,
    world: World,
    shown: Seq<Shown>,
    lines: Seq<Seq<u8>>,
    i: int,
    k: int,
    p: Seq<u8>,
)
    requires
        0 <= i < lines.len(),
        is_named_in(settings, world, lines[i], k, p),
        outcome::is_asked_for(settings, world, p, world.entries[p].is_dir_spec()),
    ensures
        ({
            let after = outcome::with_lines(settings, world, shown, lines);
            ||| after.len() > 0 && after.len() >= settings.max_candidates
            ||| exists|j: int|
                0 <= j < after.len() && (#[trigger] after[j]).display == session::display_of(
                    settings,
                    p,
                )
        }),
    decreases lines.len(),
{
    if !outcome::is_full(settings, shown) {
        let line = lines[0];
        let next = outcome::with_line(settings, world, shown, line);
        let others = lines.skip(1);
        let after = outcome::with_lines(settings, world, next, others);
        let display = session::display_of(settings, p);
        law_candidates_are_named_in_the_log(settings, world, next, others);
        if i == 0 {
            let (raw, command) = tail::log_fields(tail::line_text(line))->0;
            let cwd = outcome::directory(settings, world, vstd::utf8::encode_utf8(raw));
            let list = tokens::words(command);
            let post = outcome::left_in(settings, world, cwd, list);
            lemma_words_leave_none_out(settings, world, shown, cwd, post, list, 0, k, p);
            if outcome::is_full(settings, next) {
                lemma_still_full(settings, next, after);
            } else {
                lemma_still_shown(next, after, display);
            }
        } else {
            assert(others[i - 1] == lines[i]);
            law_no_candidate_is_left_out(settings, world, next, others, i - 1, k, p);
        }
    }
}

proof fn lemma_words_in_order(
    settings: Settings,
    world: World,
    shown: Seq<Shown>,
    cwd: Seq<u8>,
    post: Option<Seq<u8>>,
    list: Seq<Seq<char>>,
    word: Seq<char>,
    i: nat,
)
    requires
        i <= list.len(),
    ensures
        outcome::with_words(settings, world, shown, cwd, post, list.push(word), i) == ({
            let before = outcome::with_words(settings, world, shown, cwd, post, list, i);
            if outcome::is_full(settings, before) {
                before
            } else {
                outcome::with_word(settings, world, before, cwd, post, word)
            }
        }),
    decreases list.len() - i,
{
    let all = list.push(word);
    if !outcome::is_full(settings, shown) {
        let next = outcome::with_word(settings, world, shown, cwd, post, all[i as int]);
        if i < list.len() {
            assert(all[i as int] == list[i as int]);
            lemma_words_in_order(settings, world, next, cwd, post, list, word, i + 1);
        } else {
            assert(outcome::with_words(settings, world, next, cwd, post, all, i + 1) == next);
        }
    }
}

/// The words of a command are looked at one after the other: another word at its end adds what it
/// names behind what the others add, unless there are as many candidates as are wanted.
pub proof fn law_words_are_looked_at_in_order(
    settings: Settings,
    world: World,
    shown: Seq<Shown>,
    cwd: Seq<u8>,
    post: Option<Seq<u8>>,
    list: Seq<Seq<char>>,
    word: Seq<char>,
)
    ensures
        ({
            let before = outcome::with_words(settings, world, shown, cwd, post, list, 0);
            let after = outcome::with_words(settings, world, shown, cwd, post, list.push(word), 0);
            &&& before.len() > 0 && before.len() >= settings.max_candidates ==> after == before
            &&& before.len() == 0 || before.len() < settings.max_candidates ==> after
                == outcome::with_word(settings, world, before, cwd, post, word)
        }),
{
    lemma_words_in_order(settings, world, shown, cwd, post, list, word, 0);
}

/// Where there are as many candidates as are wanted, no line adds one; else another line at the end
/// adds its candidates behind those of the others.
pub proof fn law_lines_are_looked_at_in_order(
    settings: Settings,
    world: World,
    shown: Seq<Shown>,
    lines: Seq<Seq<u8>>,
    line: Seq<u8>,
)
    ensures
        ({
            let before = outcome::with_lines(settings, world, shown, lines);
            let after = outcome::with_lines(settings, world, shown, lines.push(line));
            &&& before.len() > 0 && before.len() >= settings.max_candidates ==> after == before
            &&& before.len() == 0 || before.len() < settings.max_candidates ==> after
                == outcome::with_line(settings, world, before, line)
        }),
    decreases lines.len(),
{
    let all = lines.push(line);
    if lines.len() == 0 {
        assert(all.skip(1) =~= Seq::empty());
        let next = outcome::with_line(settings, world, shown, line);
        assert(outcome::with_lines(settings, world, next, all.skip(1)) == next);
    } else if !outcome::is_full(settings, shown) {
        assert(all.skip(1) =~= lines.skip(1).push(line));
        law_lines_are_looked_at_in_order(
            settings,
            world,
            outcome::with_line(settings, world, shown, lines[0]),
            lines.skip(1),
            line,
        );
    }
}

/// A word of ordinary characters that names an entry which is asked for makes it a candidate,
/// whatever its first character is, unless there are as many candidates as are wanted.
pub proof fn law_ordinary_words_make_candidates(
    settings: Settings,
    world: World,
    shown: Seq<Shown>,
    lines: Seq<Seq<u8>>,
    i: int,
    raw: Seq<char>,
    command: Seq<char>,
    k: int,
)
    requires
        0 <= i < lines.len(),
        tail::log_fields(tail::line_text(lines[i])) == Some((raw, command)),
        raw.len() > 0,
        command.len() > 0,
        0 <= k < tokens::words(command).len(),
        tokens::words(command)[k].len() > 0,
        tokens::words(command)[k][0] != '-' && tokens::words(command)[k][0] != '~'
            && tokens::words(command)[k][0] != '/',
        forall|n: int|
            0 <= n < tokens::words(command)[k].len() ==> #[trigger] tokens::words(command)[k][n]
                != '(' && tokens::words(command)[k][n] != '`' && tokens::words(command)[k][n] != ':'
                && tokens::words(command)[k][n] != '@' && tokens::words(command)[k][n] != '=',
    ensures
        ({
            let cwd = outcome::directory(settings, world, vstd::utf8::encode_utf8(raw));
            let p = path::lexical(
                path::joined(cwd, vstd::utf8::encode_utf8(tokens::words(command)[k])),
                settings.current_dir,
            );
            let after = outcome::with_lines(settings, world, shown, lines);
            world.entries.contains_key(p) && outcome::is_asked_for(
                settings,
                world,
                p,
                world.entries[p].is_dir_spec(),
            ) ==> after.len() > 0 && after.len() >= settings.max_candidates || exists|j: int|
                0 <= j < after.len() && (#[trigger] after[j]).display == session::display_of(
                    settings,
                    p,
                )
        }),
{
    let word = tokens::words(command)[k];
    let cwd = outcome::directory(settings, world, vstd::utf8::encode_utf8(raw));
    let token = vstd::utf8::encode_utf8(word);
    let p = path::lexical(path::joined(cwd, token), settings.current_dir);
    command_laws::law_ordinary_words_are_not_passed_over(word);
    location_laws::law_words_spell_paths(word, settings.home);
    location_laws::lemma_only_slash_is_the_root(word);
    if world.entries.contains_key(p) && outcome::is_asked_for(
        settings,
        world,
        p,
        world.entries[p].is_dir_spec(),
    ) {
        assert(is_named_in(settings, world, lines[i], k, p));
        law_no_candidate_is_left_out(settings, world, shown, lines, i, k, p);
    }
}

/// Whether no two candidates are shown alike.
pub open spec fn all_differ(shown: Seq<Shown>) -> bool {
    forall|i: int, j: int|
        0 <= i < j < shown.len() ==> (#[trigger] shown[i]).display != (#[trigger] shown[j]).display
}

/// No two candidates are shown alike.
pub proof fn law_candidates_are_shown_once(
    settings: Settings,
    world: World,
    shown: Seq<Shown>,
    lines: Seq<Seq<u8>>,
)
    requires
        all_differ(shown),
    ensures
        all_differ(outcome::with_lines(settings, world, shown, lines)),
    decreases lines.len(),
{
    if lines.len() > 0 && !outcome::is_full(settings, shown) {
        let next = outcome::with_line(settings, world, shown, lines[0]);
        match tail::log_fields(tail::line_text(lines[0])) {
            Some((raw, command)) => {
                let cwd = outcome::directory(settings, world, vstd::utf8::encode_utf8(raw));
                let list = tokens::words(command);
                let post = outcome::left_in(settings, world, cwd, list);
                lemma_words_show_once(settings, world, shown, cwd, post, list, 0);
            },
            None => {},
        }
        law_candidates_are_shown_once(settings, world, next, lines.skip(1));
    }
}

proof fn lemma_words_show_once(
    settings: Settings,
    world: World,
    shown: Seq<Shown>,
    cwd: Seq<u8>,
    post: Option<Seq<u8>>,
    list: Seq<Seq<char>>,
    n: nat,
)
    requires
        all_differ(shown),
    ensures
        all_differ(outcome::with_words(settings, world, shown, cwd, post, list, n)),
    decreases list.len() - n,
{
    if n < list.len() && !outcome::is_full(settings, shown) {
        let word = list[n as int];
        let next = outcome::with_word(settings, world, shown, cwd, post, word);
        lemma_word_is_sound(settings, world, shown, cwd, post, word);
        if next != shown {
            let p = choose|p: Seq<u8>|
                #[trigger] is_named_by(settings, world, cwd, post, word, p) && is_candidate_for(
                    settings,
                    world,
                    p,
                    next.last(),
                );
            law_a_word_adds_what_it_names(settings, world, shown, cwd, post, word, p);
            assert forall|i: int, j: int| 0 <= i < j < next.len() implies (
            #[trigger] next[i]).display != (#[trigger] next[j]).display by {
                assert(next.take(shown.len() as int)[i] == next[i]);
                assert(shown[i].display != next.last().display || j < shown.len());
                if j < shown.len() {
                    assert(next.take(shown.len() as int)[j] == next[j]);
                }
            }
        }
        lemma_words_show_once(settings, world, next, cwd, post, list, n + 1);
    }
}

/// A directory is its canonical form where it exists, and else its lexical form.
pub proof fn law_directories_are_canonical(settings: Settings, world: World, p: Seq<u8>)
    ensures
        world.canonical.contains_key(p) ==> outcome::directory(settings, world, p)
            == world.canonical[p],
        !world.canonical.contains_key(p) ==> outcome::directory(settings, world, p)
            == path::lexical(p, settings.current_dir),
{
}

/// A command leaves the shell in the directory that it leads to, in its canonical form, where that
/// is a directory.
pub proof fn law_commands_lead_into_directories(
    settings: Settings,
    world: World,
    cwd: Seq<u8>,
    list: Seq<Seq<char>>,
    p: Seq<u8>,
)
    ensures
        ({
            let dir = outcome::directory(settings, world, p);
            &&& words::cwd_after(cwd, list, settings.home) == Some(p)
                && world.directories.contains(dir) ==> outcome::left_in(settings, world, cwd, list)
                == Some(dir)
            &&& words::cwd_after(cwd, list, settings.home) == Some(p)
                && !world.directories.contains(dir) ==> outcome::left_in(
                settings,
                world,
                cwd,
                list,
            ) is None
        }),
        words::cwd_after(cwd, list, settings.home) is None ==> outcome::left_in(
            settings,
            world,
            cwd,
            list,
        ) is None,
{
}

/// Without colours a line is the candidate as it is shown, with `/` behind a directory that does
/// not end in it.
pub proof fn law_plain_lines_mark_directories(
    settings: Settings,
    world: World,
    p: Seq<u8>,
    entry: Entry,
    display: Seq<char>,
)
    requires
        settings.scheme is None,
        display.len() > 0,
    ensures
        ({
            let line = outcome::line_for(settings, world, p, entry, display);
            let is_dir = entry.metadata.kind == FileKind::Directory || (entry.metadata.kind
                == FileKind::Symlink && entry.target is Some && entry.target->0.kind
                == FileKind::Directory);
            &&& is_dir && display[display.len() - 1] != '/' ==> line == display + seq!['/']
            &&& !is_dir || display[display.len() - 1] == '/' ==> line == display
        }),
{
    assert(display + Seq::<char>::empty() =~= display);
}

/// A run reads no log where no line is wanted, and else the one that the settings name.
pub proof fn law_logs_are_opened_where_lines_are_wanted(
    settings: Settings,
    answers: Seq<Answer>,
    i: int,
)
    requires
        0 <= i < answers.len(),
    ensures
        ({
            let act = session_laws::asked(session::initial(settings), answers, i);
            &&& act is OpenLog ==> settings.lines_limit > 0 && act->OpenLog_0
                == settings.pwdlog_file
            &&& act is ReadLog ==> settings.lines_limit > 0
        }),
{
    lemma_no_lines_no_log(settings, answers.take(i));
}

proof fn lemma_no_lines_no_log(settings: Settings, answers: Seq<Answer>)
    ensures
        ({
            let s = session_laws::run(session::initial(settings), answers);
            &&& s.settings == settings
            &&& settings.lines_limit == 0 ==> s.phase is Start || s.phase is ResolvingDir
                || s.phase is Done
        }),
    decreases answers.len(),
{
    if answers.len() > 0 {
        lemma_no_lines_no_log(settings, answers.drop_last());
        session_laws::law_runs_are_well_formed(settings, answers);
    }
}

} // verus!
