//! What holds of typed directories, of words that name paths, and of how paths are shown.

use vstd::prelude::*;

use crate::config::Kind;
use crate::config::Settings;
use crate::display_laws;
use crate::files::Entry;
use crate::location;
use crate::outcome;
use crate::outcome::World;
use crate::path;
use crate::path_laws;
use crate::session;
use crate::session::Answer;
use crate::session_laws;
use crate::text;
use crate::utf8;

verus! {

proof fn lemma_begins_one(s: Seq<char>, c: char)
    ensures
        text::begins(s, seq![c]) == (s.len() > 0 && s[0] == c),
        s == seq![c] <==> s.len() == 1 && s[0] == c,
{
    if s.len() > 0 && s[0] == c {
        assert(s.take(1) =~= seq![c]);
    } else if text::begins(s, seq![c]) {
        assert(s.take(1)[0] == c);
    }
    if s.len() == 1 && s[0] == c {
        assert(s =~= seq![c]);
    }
}

proof fn lemma_begins_two(s: Seq<char>, a: char, b: char)
    ensures
        text::begins(s, seq![a, b]) == (s.len() > 1 && s[0] == a && s[1] == b),
{
    if text::begins(s, seq![a, b]) {
        assert(s.take(2)[0] == a && s.take(2)[1] == b);
    } else if s.len() > 1 && s[0] == a && s[1] == b {
        assert(s.take(2) =~= seq![a, b]);
    }
}

/// A word names the path that it spells, but for a `~` at its beginning: by itself or before `/`
/// it is the home directory, and else the word names no path.
pub proof fn law_words_spell_paths(token: Seq<char>, home: Seq<u8>)
    ensures
        token.len() == 0 || token[0] != '~' ==> location::expanded(token, home) == Some(
            vstd::utf8::encode_utf8(token),
        ),
        token.len() == 1 && token[0] == '~' ==> location::expanded(token, home) == Some(home),
        token.len() > 1 && token[0] == '~' && token[1] == '/' ==> location::expanded(token, home)
            == Some(path::joined(home, vstd::utf8::encode_utf8(token.skip(2)))),
        token.len() > 1 && token[0] == '~' && token[1] != '/' ==> location::expanded(token, home)
            is None,
{
    lemma_begins_one(token, '~');
    lemma_begins_two(token, '~', '/');
}

/// The bytes of a text that does not begin with `/` are no absolute path.
pub proof fn lemma_only_slash_is_the_root(s: Seq<char>)
    requires
        s.len() > 0,
        s[0] != '/',
    ensures
        vstd::utf8::encode_utf8(s).len() == 0 || vstd::utf8::encode_utf8(s)[0] != 47u8,
{
    let bytes = vstd::utf8::encode_utf8(s);
    if bytes.len() > 0 && bytes[0] == 47u8 {
        let first = s.take(1);
        assert(s =~= first + s.skip(1));
        utf8::law_texts_are_encoded_in_order(first, s.skip(1));
        utf8::law_slash_is_its_byte(first);
        assert(first[0] == s[0]);
    }
}

/// A directory is typed from the root, from the home directory, or from the working directory; a
/// `./` before it makes no difference.
pub proof fn law_directories_are_typed(dir: Seq<char>, home: Seq<u8>, pwd: Seq<u8>)
    ensures
        dir.len() > 0 && dir[0] == '/' ==> location::input_dir(dir, home, pwd)
            == vstd::utf8::encode_utf8(dir),
        dir.len() == 1 && dir[0] == '~' ==> location::input_dir(dir, home, pwd) == home,
        dir.len() > 1 && dir[0] == '~' && dir[1] == '/' ==> location::input_dir(dir, home, pwd)
            == path::joined(home, vstd::utf8::encode_utf8(dir.skip(2))),
        dir.len() > 1 && dir[0] == '.' && dir[1] == '/' ==> location::input_dir(dir, home, pwd)
            == path::joined(pwd, vstd::utf8::encode_utf8(dir.skip(2))),
        !(dir.len() > 0 && dir[0] == '/') && !(dir.len() == 1 && dir[0] == '~') && !(dir.len() > 1
            && (dir[0] == '~' || dir[0] == '.') && dir[1] == '/') ==> location::input_dir(
            dir,
            home,
            pwd,
        ) == path::joined(pwd, vstd::utf8::encode_utf8(dir)),
{
    lemma_begins_one(dir, '~');
    lemma_begins_one(dir, '/');
    lemma_begins_two(dir, '~', '/');
    lemma_begins_two(dir, '.', '/');
}

/// Whether a directory was typed from the home directory: as `~`, or beginning with `~/`.
pub open spec fn typed_from_home(s: Seq<char>) -> bool {
    s.len() == 1 && s[0] == '~' || s.len() > 1 && s[0] == '~' && s[1] == '/'
}

/// Whether a directory was typed from the working directory: it begins neither with `/` nor with
/// `~`.
pub open spec fn typed_from_here(s: Seq<char>) -> bool {
    s.len() == 0 || (s[0] != '/' && s[0] != '~')
}

/// A path that consists of the names of a directory and more names.
pub open spec fn path_below(dirs: Seq<Seq<u8>>, names: Seq<Seq<char>>) -> Seq<u8> {
    seq![47u8] + text::join(dirs + display_laws::encoded(names), 47u8)
}

/// Whether a path is the directory with these names behind the root.
pub open spec fn is_directory_of(p: Seq<u8>, dirs: Seq<Seq<u8>>) -> bool {
    path::components(p) == seq![path::Component::<u8>::Root] + path_laws::as_components(dirs)
}

proof fn lemma_names_below(dirs: Seq<Seq<u8>>, names: Seq<Seq<char>>, base: Seq<u8>)
    requires
        path_laws::are_names(dirs),
        path_laws::are_names(names),
        is_directory_of(base, dirs),
    ensures
        path::starts_with_path(path_below(dirs, names), base),
        path::same_path(path_below(dirs, names), base) == (names.len() == 0),
        utf8::shown_text(path::without_prefix(path_below(dirs, names), base)->0) == text::join(
            names,
            '/',
        ),
{
    let bytes = display_laws::encoded(names);
    let all = dirs + bytes;
    let p = path_below(dirs, names);
    let k = dirs.len() as int;
    display_laws::lemma_encoded_are_names(names);
    assert(path_laws::are_names(all)) by {
        assert forall|i: int| 0 <= i < all.len() implies path_laws::is_name(#[trigger] all[i]) by {
            if i < k {
                assert(all[i] == dirs[i]);
            } else {
                assert(all[i] == bytes[i - k]);
            }
        }
    }
    path_laws::law_path_of_names_begins_at_the_root(all);
    path_laws::law_components_of_path_of_names(true, all);
    assert(all.take(k) =~= dirs);
    assert(all.skip(k) =~= bytes);
    path_laws::law_other_names_follow(true, all, base, k);
    let whole = path::components(p);
    let first = path::components(base);
    assert(whole.take(first.len() as int) =~= first);
    assert(names.len() == 0 ==> all =~= dirs);
    assert(names.len() > 0 ==> whole.len() > first.len());
    display_laws::lemma_encoded_join(names);
    utf8::law_text_is_shown_as_itself(text::join(names, '/'));
}

/// Where the directory was typed from the working directory, a path below that one is shown by its
/// names behind it, and by nothing else.
pub proof fn law_paths_below_here_are_shown_from_here(
    settings: Settings,
    dirs: Seq<Seq<u8>>,
    names: Seq<Seq<char>>,
)
    requires
        typed_from_here(settings.dir),
        !typed_from_home(settings.display_prefix),
        path_laws::are_names(dirs),
        path_laws::are_names(names),
        names.len() > 0,
        is_directory_of(settings.pwd, dirs),
    ensures
        session::display_of(settings, path_below(dirs, names)) == text::join(names, '/'),
{
    lemma_names_below(dirs, names, settings.pwd);
    lemma_begins_one(settings.dir, '/');
    lemma_begins_one(settings.dir, '~');
    lemma_begins_one(settings.display_prefix, '~');
    lemma_begins_two(settings.display_prefix, '~', '/');
}

/// Where the directory was typed from the home directory, a path below that one is shown as `~/`
/// and its names behind it, and the home directory itself as `~`.
pub proof fn law_paths_below_home_are_shown_from_home(
    settings: Settings,
    dirs: Seq<Seq<u8>>,
    names: Seq<Seq<char>>,
)
    requires
        typed_from_home(settings.display_prefix),
        path_laws::are_names(dirs),
        path_laws::are_names(names),
        is_directory_of(settings.home, dirs),
    ensures
        session::display_of(settings, path_below(dirs, names)) == (if names.len() == 0 {
            seq!['~']
        } else {
            seq!['~', '/'] + text::join(names, '/')
        }),
{
    lemma_names_below(dirs, names, settings.home);
    lemma_begins_one(settings.display_prefix, '~');
    lemma_begins_two(settings.display_prefix, '~', '/');
}

/// Any other path is shown as a whole: one that is not below the home directory or was not typed
/// from there, and is not below the working directory or was not typed from there.
pub proof fn law_other_paths_are_shown_as_a_whole(settings: Settings, p: Seq<u8>)
    requires
        !typed_from_home(settings.display_prefix) || !text::begins(
            path::components(p),
            path::components(settings.home),
        ),
        !typed_from_here(settings.dir) || !text::begins(
            path::components(p),
            path::components(settings.pwd),
        ) || path::components(p) == path::components(settings.pwd),
    ensures
        session::display_of(settings, p) == utf8::shown_text(p),
{
    lemma_begins_one(settings.dir, '/');
    lemma_begins_one(settings.dir, '~');
    lemma_begins_one(settings.display_prefix, '~');
    lemma_begins_two(settings.display_prefix, '~', '/');
}

/// Where the directory was typed from the working directory, every candidate that a run has
/// printed and that is below that one is shown by its names behind it.
pub proof fn law_candidates_below_here_are_printed_from_here(
    settings: Settings,
    answers: Seq<Answer>,
    i: int,
)
    requires
        0 <= i < answers.len(),
        session_laws::asked(session::initial(settings), answers, i) is Print,
        typed_from_here(settings.dir),
        !typed_from_home(settings.display_prefix),
    ensures
        ({
            let s = session::initial(settings);
            let display = session_laws::asked(s, answers, i)->Print_display;
            exists|j: int, p: Seq<u8>, entry: Entry|
                {
                    &&& j <= i
                    &&& #[trigger] session_laws::was_found(s, answers, j, p, entry)
                    &&& forall|dirs: Seq<Seq<u8>>, names: Seq<Seq<char>>|
                        path_laws::are_names(dirs) && path_laws::are_names(names) && names.len() > 0
                            && is_directory_of(settings.pwd, dirs) && p == #[trigger] path_below(
                            dirs,
                            names,
                        ) ==> display == text::join(names, '/')
                }
        }),
{
    let s = session::initial(settings);
    let display = session_laws::asked(s, answers, i)->Print_display;
    session_laws::law_candidates_are_wanted_entries(settings, answers, i);
    session_laws::law_runs_are_well_formed(settings, answers.take(i));
    let (j, p, entry) = choose|j: int, p: Seq<u8>, entry: Entry|
        {
            &&& j <= i
            &&& #[trigger] session_laws::was_found(s, answers, j, p, entry)
            &&& session_laws::is_offered(
                session_laws::run(s, answers.take(i)),
                p,
                entry.is_dir_spec(),
                display,
            )
        };
    assert forall|dirs: Seq<Seq<u8>>, names: Seq<Seq<char>>|
        path_laws::are_names(dirs) && path_laws::are_names(names) && names.len() > 0
            && is_directory_of(settings.pwd, dirs) && p == #[trigger] path_below(
            dirs,
            names,
        ) implies display == text::join(names, '/') by {
        law_paths_below_here_are_shown_from_here(settings, dirs, names);
    }
    assert(session_laws::was_found(s, answers, j, p, entry));
}

/// A path is asked for where its text is that of the directory, one separator, what was typed
/// behind it, and anything more; where directories are asked for, it is one.
pub proof fn law_what_is_asked_for(
    settings: Settings,
    world: World,
    p: Seq<u8>,
    is_dir: bool,
    rest: Seq<char>,
)
    ensures
        ({
            let dir = utf8::shown_text(
                outcome::directory(
                    settings,
                    world,
                    location::input_dir(settings.dir, settings.home, settings.pwd),
                ),
            );
            let prefix = if dir.len() > 0 && dir[dir.len() - 1] == '/' {
                dir
            } else {
                dir.push('/')
            };
            &&& outcome::is_asked_for(settings, world, p, is_dir) ==> {
                &&& settings.kind == Kind::Dir ==> is_dir
                &&& prefix.len() + settings.leftover.len() <= utf8::shown_text(p).len()
                &&& utf8::shown_text(p) == prefix + settings.leftover + utf8::shown_text(p).skip(
                    (prefix.len() + settings.leftover.len()) as int,
                )
            }
            &&& (settings.kind == Kind::Dir ==> is_dir) && utf8::shown_text(p) == prefix
                + settings.leftover + rest ==> outcome::is_asked_for(settings, world, p, is_dir)
        }),
{
    let dir = utf8::shown_text(
        outcome::directory(
            settings,
            world,
            location::input_dir(settings.dir, settings.home, settings.pwd),
        ),
    );
    let prefix = if dir.len() > 0 && dir[dir.len() - 1] == '/' {
        dir
    } else {
        dir.push('/')
    };
    let all = utf8::shown_text(p);
    let more = prefix + settings.leftover;
    let n = more.len() as int;
    assert(outcome::asked_prefix(settings, world) == prefix);
    if text::begins(all, more) {
        assert(all =~= all.take(n) + all.skip(n));
    }
    if all == more + rest {
        assert(all.take(n) =~= more);
    }
}

/// A canonical form is taken as it is; else a relative path is seen from the current directory, or
/// from `.`, and brought into normal form.
pub proof fn law_paths_are_made_absolute(
    p: Seq<u8>,
    canonical: Seq<u8>,
    current: Seq<u8>,
    current_dir: Option<Seq<u8>>,
)
    ensures
        path::absolutized(p, Some(canonical), current_dir) == canonical,
        path::absolutized(p, None, current_dir) == path::lexical(p, current_dir),
        p.len() > 0 && p[0] == 47u8 ==> path::lexical(p, current_dir) == path::normalized(p),
        p.len() == 0 || p[0] != 47u8 ==> path::lexical(p, Some(current)) == path::normalized(
            path::joined(current, p),
        ) && path::lexical(p, None) == path::normalized(path::joined(seq![46u8], p)),
{
}

/// A word may name an entry at one place where it is absolute, and else in the directory of the
/// command first, and then in the one that the command leads to, if it leads to one.
pub proof fn law_places_of_words(
    token: Seq<u8>,
    cwd: Seq<u8>,
    post: Seq<u8>,
    current_dir: Option<Seq<u8>>,
)
    ensures
        token.len() > 0 && token[0] == 47u8 ==> session::places(token, cwd, Some(post), current_dir)
            == (path::normalized(token), None::<Seq<u8>>) && session::places(
            token,
            cwd,
            None,
            current_dir,
        ) == (path::normalized(token), None::<Seq<u8>>),
        token.len() == 0 || token[0] != 47u8 ==> session::places(
            token,
            cwd,
            Some(post),
            current_dir,
        ) == (
            path::lexical(path::joined(cwd, token), current_dir),
            Some(path::lexical(path::joined(post, token), current_dir)),
        ) && session::places(token, cwd, None, current_dir) == (
            path::lexical(path::joined(cwd, token), current_dir),
            None::<Seq<u8>>,
        ),
{
}

/// A directory gets one `/` behind it where it is not shown with one, and nothing else gets any.
pub proof fn law_marks_of_directories(display: Seq<char>)
    ensures
        location::dir_marker(display, false) == Seq::<char>::empty(),
        display.len() > 0 && display[display.len() - 1] == '/' ==> location::dir_marker(
            display,
            true,
        ) == Seq::<char>::empty(),
        display.len() == 0 || display[display.len() - 1] != '/' ==> location::dir_marker(
            display,
            true,
        ) == seq!['/'],
{
}

} // verus!
