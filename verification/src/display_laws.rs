//! What holds of displayed paths.

use vstd::prelude::*;

use crate::location;
use crate::paint;
use crate::paint::Piece;
use crate::paint::Step;
use crate::path;
use crate::path::PathSymbol;
use crate::path_laws;
use crate::text;
use crate::utf8;

verus! {

proof fn lemma_end_is_utf8(p: Seq<u8>, start: int)
    requires
        vstd::utf8::valid_utf8(p),
        0 < start <= p.len(),
        p[start - 1] == u8::slash(),
    ensures
        vstd::utf8::valid_utf8(p.skip(start)),
{
    vstd::utf8::is_char_boundary_iff_not_is_continuation_byte(p, start - 1);
    vstd::utf8::valid_utf8_split(p, start - 1);
    let s = p.subrange(start - 1, p.len() as int);
    assert(vstd::utf8::pop_first_scalar(s) =~= p.skip(start));
}

proof fn lemma_beginning_is_utf8(p: Seq<u8>, end: int)
    requires
        vstd::utf8::valid_utf8(p),
        0 <= end < p.len(),
        p[end] == u8::slash(),
    ensures
        vstd::utf8::valid_utf8(p.take(end)),
{
    vstd::utf8::is_char_boundary_iff_not_is_continuation_byte(p, end);
    vstd::utf8::valid_utf8_split(p, end);
    assert(p.subrange(0, end) =~= p.take(end));
}

proof fn lemma_slash_is_utf8()
    ensures
        vstd::utf8::valid_utf8(seq![u8::slash()]),
{
    utf8::law_slash_is_its_byte(seq!['/']);
    vstd::utf8::encode_utf8_valid_utf8(seq!['/']);
}

/// What follows a directory in a path that is valid UTF-8 is valid UTF-8.
pub proof fn law_rest_is_text(p: Seq<u8>, base: Seq<u8>)
    requires
        vstd::utf8::valid_utf8(p),
        path::starts_with_path(p, base),
    ensures
        vstd::utf8::valid_utf8(path::without_prefix(p, base)->0),
{
    let (start, end) = path_laws::law_rest_is_between_separators(p, base);
    let rest = p.subrange(start, end);
    if start < end && rest != seq![u8::slash()] {
        let behind = p.skip(start);
        if start == 0 {
            assert(behind =~= p);
        } else {
            lemma_end_is_utf8(p, start);
        }
        if end < p.len() {
            assert(behind[end - start] == p[end]);
            lemma_beginning_is_utf8(behind, end - start);
            assert(behind.take(end - start) =~= rest);
        } else {
            assert(behind =~= rest);
        }
    } else if start < end {
        lemma_slash_is_utf8();
    } else {
        assert(rest =~= Seq::<u8>::empty());
    }
}

/// Whether a path is shown from the home directory.
pub open spec fn is_shown_from_home(p: Seq<u8>, home: Seq<u8>, display_prefix: Seq<char>) -> bool {
    location::is_home_prefix(display_prefix) && path::starts_with_path(p, home)
}

/// What is shown for an absolute path that is valid UTF-8 leads to that path where it is typed as
/// a directory, but for a relative path that looks as if it began at the home directory.
pub proof fn law_display_leads_to_the_path(
    p: Seq<u8>,
    home: Seq<u8>,
    pwd: Seq<u8>,
    display_prefix: Seq<char>,
    relative_root: bool,
)
    requires
        path::is_absolute(p),
        vstd::utf8::valid_utf8(p),
        location::is_home_prefix(
            location::displayed(p, home, pwd, display_prefix, relative_root),
        ) ==> is_shown_from_home(p, home, display_prefix),
    ensures
        path::same_path(
            location::input_dir(
                location::displayed(p, home, pwd, display_prefix, relative_root),
                home,
                pwd,
            ),
            p,
        ),
{
    let d = location::displayed(p, home, pwd, display_prefix, relative_root);
    if is_shown_from_home(p, home, display_prefix) {
        if !path::same_path(p, home) {
            let rest = path::without_prefix(p, home)->0;
            law_rest_is_text(p, home);
            vstd::utf8::decode_utf8_encode_utf8(rest);
            path_laws::law_prefix_and_rest_make_up_the_path(p, home);
            assert(d.take(2) =~= seq!['~', '/']);
            assert(d.skip(2) =~= vstd::utf8::decode_utf8(rest));
        }
    } else if relative_root && path::starts_with_path(p, pwd) && !path::same_path(p, pwd) {
        let rest = path::without_prefix(p, pwd)->0;
        law_rest_is_text(p, pwd);
        vstd::utf8::decode_utf8_encode_utf8(rest);
        path_laws::law_prefix_and_rest_make_up_the_path(p, pwd);
        utf8::law_slash_is_its_byte(d);
        if pwd.len() == 0 {
            assert(path::joined(pwd, rest) =~= rest);
            if !path::is_absolute(rest) {
                path_laws::law_root_is_the_first_component(p);
                path_laws::law_root_is_the_first_component(rest);
            }
            lemma_slash_first(d);
        } else {
            path_laws::law_rest_has_the_other_components(p, pwd);
            if text::begins(d, seq!['/']) {
                assert(d[0] == d.take(1)[0]);
            }
            if text::begins(d, seq!['.', '/']) {
                lemma_dot_first(d);
            }
        }
    } else {
        vstd::utf8::decode_utf8_encode_utf8(p);
        lemma_slash_first(d);
    }
}

proof fn lemma_slash_first(d: Seq<char>)
    requires
        path::is_absolute(vstd::utf8::encode_utf8(d)),
    ensures
        text::begins(d, seq!['/']),
        d != seq!['~'],
        location::home_relative(d) is None,
{
    utf8::law_slash_is_its_byte(d);
    assert(d.take(1) =~= seq!['/']);
    if text::begins(d, seq!['~', '/']) {
        assert(d.take(2)[0] == '~');
    }
}

proof fn lemma_dot_first(d: Seq<char>)
    requires
        text::begins(d, seq!['.', '/']),
    ensures
        ({
            let c = path::components(vstd::utf8::encode_utf8(d));
            c.len() > 0 && c[0] is Here
        }),
{
    let dot = seq!['.', '/'];
    let rest = vstd::utf8::encode_utf8(d.skip(2));
    assert(d =~= dot + d.skip(2));
    utf8::law_texts_are_encoded_in_order(dot, d.skip(2));
    assert(vstd::utf8::is_ascii_chars(dot));
    vstd::utf8::is_ascii_chars_encode_utf8(dot);
    let bytes = vstd::utf8::encode_utf8(dot);
    assert(bytes[0] == dot[0] as u8 && bytes[1] == dot[1] as u8);
    assert(bytes =~= seq![u8::dot(), u8::slash()]);
    path_laws::law_dot_is_the_first_component(rest);
}

/// Where a displayed path starts from.
pub enum Origin {
    /// The root directory.
    Root,
    /// The home directory.
    Home,
    /// The working directory.
    Here,
}

/// The display of names from an origin.
pub open spec fn display_of_names(origin: Origin, names: Seq<Seq<char>>) -> Seq<char> {
    match origin {
        Origin::Root => seq!['/'] + text::join(names, '/'),
        Origin::Home => if names.len() == 0 {
            seq!['~']
        } else {
            seq!['~', '/'] + text::join(names, '/')
        },
        Origin::Here => text::join(names, '/'),
    }
}

/// Whether names can be displayed from an origin: they are names of entries, and from the working
/// directory there is one, and the first one does not look like the home directory.
pub open spec fn can_be_displayed(origin: Origin, names: Seq<Seq<char>>) -> bool {
    &&& path_laws::are_names(names)
    &&& origin is Here ==> names.len() > 0 && names[0] != seq!['~']
}

/// The texts of pieces, one behind the other.
pub open spec fn text_of(pieces: Seq<Piece>) -> Seq<char>
    decreases pieces.len(),
{
    if pieces.len() == 0 {
        Seq::empty()
    } else {
        text_of(pieces.drop_last()) + pieces.last().text
    }
}

/// Names as pieces, without separators.
spec fn bare_names(names: Seq<Seq<char>>) -> Seq<Piece> {
    names.map_values(|name: Seq<char>| Piece { text: name, step: Step::Normal(name) })
}

/// Names as pieces.
spec fn name_pieces(names: Seq<Seq<char>>) -> Seq<Piece> {
    paint::separated(bare_names(names), false)
}

/// The piece before the names.
spec fn origin_pieces(origin: Origin, names: Seq<Seq<char>>) -> Seq<Piece> {
    match origin {
        Origin::Root => seq![Piece { text: seq!['/'], step: Step::Root }],
        Origin::Home => seq![
            Piece {
                text: if names.len() == 0 {
                    seq!['~']
                } else {
                    seq!['~', '/']
                },
                step: Step::Base,
            },
        ],
        Origin::Here => Seq::empty(),
    }
}

proof fn lemma_join_begins(names: Seq<Seq<char>>)
    requires
        names.len() > 0,
    ensures
        names.len() == 1 ==> text::join(names, '/') == names[0],
        names.len() > 1 ==> text::begins(text::join(names, '/'), names[0].push('/')),
    decreases names.len(),
{
    if names.len() > 1 {
        let first = names.drop_last();
        let s = text::join(names, '/');
        let n = names[0].len() as int;
        lemma_join_begins(first);
        if first.len() > 1 {
            assert(text::join(first, '/').take(n + 1) =~= names[0].push('/'));
        }
        assert(s.take(n + 1) =~= names[0].push('/')) by {
            if first.len() > 1 {
                assert forall|i: int| 0 <= i < n + 1 implies s[i] == names[0].push('/')[i] by {
                    assert(s[i] == text::join(first, '/')[i]);
                    assert(text::join(first, '/').take(n + 1)[i] == names[0].push('/')[i]);
                }
            }
        }
    }
}

proof fn lemma_no_home_prefix(names: Seq<Seq<char>>)
    requires
        can_be_displayed(Origin::Here, names),
    ensures
        !location::is_home_prefix(text::join(names, '/')),
{
    let s = text::join(names, '/');
    let name = names[0];
    lemma_join_begins(names);
    assert(path_laws::is_name(name));
    if names.len() > 1 {
        let n = name.len() as int;
        assert(s.take(n + 1) == name.push('/'));
        assert forall|i: int| 0 <= i <= n implies s[i] == name.push('/')[i] by {
            assert(s[i] == s.take(n + 1)[i]);
        }
        if text::begins(s, seq!['~', '/']) {
            assert(s[0] == s.take(2)[0] && s[1] == s.take(2)[1]);
            if n == 1 {
                assert(name =~= seq!['~']);
            } else {
                assert(name[1] == '/');
                assert(name.contains('/'));
            }
        }
    } else {
        if text::begins(s, seq!['~', '/']) {
            assert(s.take(2)[1] == '/');
            assert(s.contains(s[1]));
        }
    }
}

proof fn lemma_bare_pieces(s: Seq<char>, names: Seq<Seq<char>>)
    requires
        path::components(s) == path_laws::as_components(names),
    ensures
        paint::bare_pieces(s) == bare_names(names),
{
    assert(paint::bare_pieces(s) =~= bare_names(names));
}

proof fn lemma_display_pieces(origin: Origin, names: Seq<Seq<char>>)
    requires
        can_be_displayed(origin, names),
    ensures
        paint::display_pieces(display_of_names(origin, names)) == origin_pieces(origin, names)
            + name_pieces(names),
        path::is_absolute(display_of_names(origin, names)) == (origin is Root),
{
    let d = display_of_names(origin, names);
    let rest = text::join(names, '/');
    path_laws::law_components_of_names(names);
    lemma_bare_pieces(rest, names);
    match origin {
        Origin::Root => {
            path_laws::law_components_of_names_behind_the_root(names);
            assert(d[0] == '/');
            if text::begins(d, seq!['~', '/']) {
                assert(d.take(2)[0] == '~');
            }
            let root = Piece { text: seq!['/'], step: Step::Root };
            assert(paint::bare_pieces(d) =~= seq![root] + bare_names(names));
            assert(paint::separated(seq![root] + bare_names(names), true) =~= seq![root]
                + name_pieces(names));
        },
        Origin::Home => {
            if names.len() == 0 {
                assert(name_pieces(names) =~= Seq::empty());
                assert(paint::display_pieces(d) =~= origin_pieces(origin, names) + name_pieces(
                    names,
                ));
            } else {
                assert(d.take(2) =~= seq!['~', '/']);
                assert(d.skip(2) =~= rest);
            }
        },
        Origin::Here => {
            lemma_no_home_prefix(names);
            assert(origin_pieces(origin, names) + name_pieces(names) =~= name_pieces(names));
        },
    }
}

proof fn lemma_text_of_first(names: Seq<Seq<char>>, k: int)
    requires
        0 <= k < names.len(),
    ensures
        text_of(name_pieces(names).take(k)) == (if k == 0 {
            Seq::empty()
        } else {
            text::join(names.take(k), '/').push('/')
        }),
    decreases k,
{
    let pieces = name_pieces(names);
    if k > 0 {
        lemma_text_of_first(names, k - 1);
        assert(pieces.take(k).drop_last() =~= pieces.take(k - 1));
        assert(pieces.take(k).last() == pieces[k - 1]);
        assert(pieces[k - 1].text == names[k - 1].push('/'));
        assert(names.take(k).drop_last() =~= names.take(k - 1));
        assert(names.take(k).last() == names[k - 1]);
        assert(text_of(pieces.take(k)) =~= text::join(names.take(k), '/').push('/'));
    }
}

proof fn lemma_text_of_names(names: Seq<Seq<char>>)
    ensures
        text_of(name_pieces(names)) == text::join(names, '/'),
{
    let pieces = name_pieces(names);
    let n = names.len() as int;
    if n == 0 {
        assert(text_of(pieces) =~= text::join(names, '/'));
    } else {
        lemma_text_of_first(names, n - 1);
        assert(pieces.drop_last() =~= pieces.take(n - 1));
        assert(pieces.last().text == names.last());
        assert(names.drop_last() =~= names.take(n - 1));
        assert(text_of(pieces) =~= text::join(names, '/'));
    }
}

proof fn lemma_text_of_both(a: Seq<Piece>, b: Seq<Piece>)
    ensures
        text_of(a + b) == text_of(a) + text_of(b),
    decreases b.len(),
{
    if b.len() == 0 {
        assert(a + b =~= a);
        assert(text_of(a) + text_of(b) =~= text_of(a));
    } else {
        assert((a + b).drop_last() =~= a + b.drop_last());
        lemma_text_of_both(a, b.drop_last());
        assert(text_of(a + b) =~= text_of(a) + text_of(b));
    }
}

proof fn lemma_pieces_make_up(origin: Origin, names: Seq<Seq<char>>)
    requires
        can_be_displayed(origin, names),
    ensures
        text_of(paint::display_pieces(display_of_names(origin, names))) == display_of_names(
            origin,
            names,
        ),
{
    let first = origin_pieces(origin, names);
    lemma_display_pieces(origin, names);
    lemma_text_of_both(first, name_pieces(names));
    lemma_text_of_names(names);
    if first.len() > 0 {
        assert(text_of(first.drop_last()) =~= Seq::empty());
        assert(text_of(first) =~= first[0].text);
    }
    if names.len() == 0 {
        assert(text::join(names, '/') =~= Seq::empty());
    }
    assert(text_of(first) + text::join(names, '/') =~= display_of_names(origin, names));
}

proof fn lemma_join_from_the_first(names: Seq<Seq<char>>)
    requires
        names.len() > 1,
    ensures
        text::join(names, '/') == names[0].push('/') + text::join(names.skip(1), '/'),
    decreases names.len(),
{
    let others = names.skip(1);
    if names.len() == 2 {
        assert(names.drop_last() =~= seq![names[0]]);
        assert(others =~= seq![names[1]]);
        assert(text::join(seq![names[0]], '/') == names[0]);
        assert(text::join(others, '/') == names[1]);
    } else {
        lemma_join_from_the_first(names.drop_last());
        assert(names.drop_last().skip(1) =~= others.drop_last());
        assert(others.last() == names.last());
        assert(text::join(names, '/') =~= names[0].push('/') + text::join(others, '/'));
    }
}

/// The pieces of a displayed path make up the display. A relative path whose first name is `~`
/// is displayed as one from the home directory is.
pub proof fn law_pieces_make_up_the_display(origin: Origin, names: Seq<Seq<char>>)
    requires
        path_laws::are_names(names),
    ensures
        text_of(paint::display_pieces(display_of_names(origin, names))) == display_of_names(
            origin,
            names,
        ),
{
    if can_be_displayed(origin, names) {
        lemma_pieces_make_up(origin, names);
    } else if names.len() == 0 {
        let none = Seq::<char>::empty();
        assert(display_of_names(origin, names) =~= none);
        path_laws::law_components_of_names(names);
        lemma_bare_pieces(none, names);
        assert(paint::display_pieces(none) =~= Seq::empty());
    } else {
        let others = names.skip(1);
        if names.len() == 1 {
            assert(names =~= seq![names[0]]);
        } else {
            lemma_join_from_the_first(names);
            assert(names[0].push('/') =~= seq!['~', '/']);
        }
        assert(display_of_names(Origin::Here, names) == display_of_names(Origin::Home, others));
        lemma_pieces_make_up(Origin::Home, others);
    }
}

/// The bytes of names.
pub open spec fn encoded(names: Seq<Seq<char>>) -> Seq<Seq<u8>> {
    names.map_values(|name: Seq<char>| vstd::utf8::encode_utf8(name))
}

proof fn lemma_encoded_ascii(s: Seq<char>, bytes: Seq<u8>, t: Seq<char>)
    requires
        vstd::utf8::is_ascii_chars(s),
        bytes.len() == s.len(),
        forall|i: int| 0 <= i < s.len() ==> #[trigger] bytes[i] == s[i] as u8,
        t != s,
    ensures
        vstd::utf8::encode_utf8(t) != bytes,
{
    vstd::utf8::is_ascii_chars_encode_utf8(s);
    vstd::utf8::encode_utf8_decode_utf8(s);
    vstd::utf8::encode_utf8_decode_utf8(t);
    assert(vstd::utf8::encode_utf8(s) =~= bytes);
}

/// The bytes of a name of an entry are a name of an entry.
pub proof fn law_names_are_encoded_as_names(name: Seq<char>)
    requires
        path_laws::is_name(name),
    ensures
        path_laws::is_name(vstd::utf8::encode_utf8(name)),
{
    utf8::law_slash_is_its_byte(name);
    lemma_encoded_ascii(seq!['.'], seq![u8::dot()], name);
    lemma_encoded_ascii(seq!['.', '.'], seq![u8::dot(), u8::dot()], name);
}

/// The bytes of names of entries are names of entries.
pub proof fn lemma_encoded_are_names(names: Seq<Seq<char>>)
    requires
        path_laws::are_names(names),
    ensures
        path_laws::are_names(encoded(names)),
{
    assert forall|i: int| 0 <= i < names.len() implies path_laws::is_name(
        #[trigger] encoded(names)[i],
    ) by {
        law_names_are_encoded_as_names(names[i]);
    }
}

proof fn lemma_normal_count(origin: Origin, names: Seq<Seq<char>>, k: int)
    requires
        0 <= k <= names.len(),
    ensures
        paint::normal_count(origin_pieces(origin, names) + name_pieces(names).take(k)) == k,
    decreases k,
{
    let first = origin_pieces(origin, names);
    let pieces = name_pieces(names);
    if k == 0 {
        assert(first + pieces.take(0) =~= first);
        if first.len() > 0 {
            assert(paint::normal_count(first.drop_last()) == 0);
        }
    } else {
        lemma_normal_count(origin, names, k - 1);
        assert((first + pieces.take(k)).drop_last() =~= first + pieces.take(k - 1));
        assert((first + pieces.take(k)).last() == pieces[k - 1]);
    }
}

/// The directories that a display from an origin is under, where the path is under `dirs`: none
/// where it is from the root directory.
pub open spec fn dirs_before(origin: Origin, dirs: Seq<Seq<u8>>) -> Seq<Seq<u8>> {
    if origin is Root {
        Seq::empty()
    } else {
        dirs
    }
}

/// The path that the pieces up to name `k` lead to.
spec fn path_upto(
    origin: Origin,
    root: bool,
    dirs: Seq<Seq<u8>>,
    names: Seq<Seq<char>>,
    k: int,
) -> Seq<u8> {
    path::path_of_names(root || origin is Root, dirs_before(origin, dirs) + encoded(names).take(k))
}

proof fn lemma_walked(
    origin: Origin,
    root: bool,
    dirs: Seq<Seq<u8>>,
    names: Seq<Seq<char>>,
    k: int,
)
    requires
        can_be_displayed(origin, names),
        path_laws::are_names(dirs),
        0 <= k <= names.len(),
    ensures
        ({
            let p = path::path_of_names(root, dirs + encoded(names));
            let d = display_of_names(origin, names);
            let pieces = paint::display_pieces(d);
            let n = origin_pieces(origin, names).len();
            &&& pieces.len() == n + names.len()
            &&& n + k > 0 ==> paint::walked(paint::base_path(d, p, pieces), pieces, n + k)
                == path_upto(origin, root, dirs, names, k)
        }),
    decreases k,
{
    let bytes = encoded(names);
    let all = dirs + bytes;
    let p = path::path_of_names(root, all);
    let d = display_of_names(origin, names);
    let pieces = paint::display_pieces(d);
    let first = origin_pieces(origin, names);
    let n = first.len() as int;
    let base = paint::base_path(d, p, pieces);
    lemma_display_pieces(origin, names);
    lemma_encoded_are_names(names);
    assert(path_laws::are_names(all)) by {
        assert forall|i: int| 0 <= i < all.len() implies path_laws::is_name(#[trigger] all[i]) by {
            if i < dirs.len() {
                assert(all[i] == dirs[i]);
            } else {
                assert(all[i] == bytes[i - dirs.len()]);
            }
        }
    }
    if !(origin is Root) {
        lemma_normal_count(origin, names, names.len() as int);
        assert(first + name_pieces(names).take(names.len() as int) =~= pieces);
        path_laws::law_popping_takes_names(root, all, names.len());
        assert(all.take(all.len() - names.len()) =~= dirs);
        assert(base == path::path_of_names(root, dirs));
    }
    let before = dirs_before(origin, dirs);
    if k == 0 {
        assert(before + bytes.take(0) =~= before);
        if n > 0 {
            assert(pieces[0] == first[0]);
            assert(paint::walked(base, pieces, 0) == base);
            if origin is Root {
                assert(text::join(before, u8::slash()) =~= Seq::<u8>::empty());
                assert(path::path_of_names(true, before) =~= seq![u8::slash()]);
            }
        }
    } else {
        lemma_walked(origin, root, dirs, names, k - 1);
        assert(pieces[n + k - 1] == name_pieces(names)[k - 1]);
        assert(pieces[n + k - 1].step == Step::Normal(names[k - 1]));
        if n + k - 1 == 0 {
            assert(paint::walked(base, pieces, 0) == base);
            assert(before + bytes.take(0) =~= dirs);
        }
        let so_far = before + bytes.take(k - 1);
        assert(path_laws::are_names(so_far)) by {
            assert forall|i: int| 0 <= i < so_far.len() implies path_laws::is_name(
                #[trigger] so_far[i],
            ) by {
                if i < before.len() {
                    assert(so_far[i] == dirs[i]);
                } else {
                    assert(so_far[i] == bytes[i - before.len()]);
                }
            }
        }
        assert(path_laws::is_name(bytes[k - 1]));
        path_laws::law_joining_appends_a_name(root || origin is Root, so_far, bytes[k - 1]);
        assert(so_far.push(bytes[k - 1]) =~= before + bytes.take(k));
    }
}

/// The components of a displayed path lead, one after the other, from the directory that the
/// display starts from to the path itself, and the paths that are asked for are those before it.
pub proof fn law_components_lead_to_the_path(
    origin: Origin,
    root: bool,
    dirs: Seq<Seq<u8>>,
    names: Seq<Seq<char>>,
    i: int,
)
    requires
        can_be_displayed(origin, names),
        path_laws::are_names(dirs),
        origin is Root ==> root && dirs.len() == 0,
        0 <= i < paint::display_pieces(display_of_names(origin, names)).len(),
    ensures
        ({
            let p = path::path_of_names(root, dirs + encoded(names));
            let d = display_of_names(origin, names);
            let pieces = paint::display_pieces(d);
            let shown = if origin is Here {
                i + 1
            } else {
                i
            };
            let reached = path::path_of_names(root, dirs + encoded(names).take(shown));
            &&& paint::walked(paint::base_path(d, p, pieces), pieces, i + 1) == reached
            &&& i < pieces.len() - 1 ==> paint::ancestors(d, p)[i] == reached
            &&& i == pieces.len() - 1 ==> reached == p
        }),
{
    let shown = if origin is Here {
        i + 1
    } else {
        i
    };
    lemma_walked(origin, root, dirs, names, 0);
    lemma_walked(origin, root, dirs, names, shown);
    assert(dirs_before(origin, dirs) =~= dirs);
    assert(encoded(names).take(names.len() as int) =~= encoded(names));
}

/// A directory is shown with `/` at its end, and anything else as it is.
pub proof fn law_marker_tells_directories(display: Seq<char>, is_dir: bool)
    ensures
        is_dir ==> location::ends_in_slash(display + location::dir_marker(display, is_dir)),
        !is_dir || location::ends_in_slash(display) ==> display + location::dir_marker(
            display,
            is_dir,
        ) == display,
{
    let shown = display + location::dir_marker(display, is_dir);
    if location::needs_marker(display, is_dir) {
        assert(shown.last() == '/');
    } else {
        assert(shown =~= display);
    }
}

/// The bytes of joined names are the bytes of the names, joined.
pub proof fn lemma_encoded_join(names: Seq<Seq<char>>)
    ensures
        vstd::utf8::encode_utf8(text::join(names, '/')) == text::join(encoded(names), u8::slash()),
    decreases names.len(),
{
    let bytes = encoded(names);
    if names.len() == 0 {
        assert(text::join(bytes, u8::slash()) =~= vstd::utf8::encode_utf8(text::join(names, '/')));
    } else if names.len() == 1 {
        assert(text::join(bytes, u8::slash()) == bytes[0]);
        assert(text::join(names, '/') == names[0]);
    } else {
        let first = names.drop_last();
        let head = text::join(first, '/');
        let slash = seq!['/'];
        lemma_encoded_join(first);
        assert(bytes.drop_last() =~= encoded(first));
        assert(bytes.last() == vstd::utf8::encode_utf8(names.last()));
        assert(text::join(names, '/') =~= head + (slash + names.last()));
        utf8::law_texts_are_encoded_in_order(head, slash + names.last());
        utf8::law_texts_are_encoded_in_order(slash, names.last());
        utf8::law_slash_is_its_byte(slash);
        assert(vstd::utf8::encode_utf8(text::join(names, '/')) =~= text::join(bytes, u8::slash()));
    }
}

/// The texts of names.
pub open spec fn decoded(names: Seq<Seq<u8>>) -> Seq<Seq<char>> {
    names.map_values(|name: Seq<u8>| vstd::utf8::decode_utf8(name))
}

proof fn lemma_decoded_name(name: Seq<u8>)
    requires
        path_laws::is_name(name),
        vstd::utf8::valid_utf8(name),
    ensures
        path_laws::is_name(vstd::utf8::decode_utf8(name)),
        vstd::utf8::encode_utf8(vstd::utf8::decode_utf8(name)) == name,
{
    let s = vstd::utf8::decode_utf8(name);
    vstd::utf8::decode_utf8_encode_utf8(name);
    utf8::law_slash_is_its_byte(s);
    let dot = seq!['.'];
    let dots = seq!['.', '.'];
    assert(vstd::utf8::is_ascii_chars(dot));
    assert(vstd::utf8::is_ascii_chars(dots));
    vstd::utf8::is_ascii_chars_encode_utf8(dot);
    vstd::utf8::is_ascii_chars_encode_utf8(dots);
    let one = vstd::utf8::encode_utf8(dot);
    let two = vstd::utf8::encode_utf8(dots);
    assert(one[0] == dot[0] as u8);
    assert(two[0] == dots[0] as u8 && two[1] == dots[1] as u8);
    assert(one =~= seq![u8::dot()]);
    assert(two =~= seq![u8::dot(), u8::dot()]);
}

/// The text of joined names is the texts of the names, joined.
pub proof fn law_names_are_decoded_one_by_one(names: Seq<Seq<u8>>)
    requires
        path_laws::are_names(names),
        vstd::utf8::valid_utf8(text::join(names, u8::slash())),
    ensures
        path_laws::are_names(decoded(names)),
        vstd::utf8::encode_utf8(text::join(decoded(names), '/')) == text::join(
            names,
            u8::slash(),
        ),
        vstd::utf8::decode_utf8(text::join(names, u8::slash())) == text::join(
            decoded(names),
            '/',
        ),
    decreases names.len(),
{
    let texts = decoded(names);
    let all = text::join(names, u8::slash());
    if names.len() == 0 {
        assert(all =~= Seq::<u8>::empty());
        assert(text::join(texts, '/') =~= Seq::<char>::empty());
    } else if names.len() == 1 {
        assert(path_laws::is_name(names[0]));
        lemma_decoded_name(names[0]);
        assert(text::join(texts, '/') == texts[0]);
        assert(all == names[0]);
    } else {
        let first = names.drop_last();
        let before = text::join(first, u8::slash());
        let last = names.last();
        assert(path_laws::are_names(first));
        assert(path_laws::is_name(last));
        assert(all == before.push(u8::slash()) + last);
        lemma_beginning_is_utf8(all, before.len() as int);
        assert(all.take(before.len() as int) =~= before);
        lemma_end_is_utf8(all, before.len() + 1int);
        assert(all.skip(before.len() + 1int) =~= last);
        law_names_are_decoded_one_by_one(first);
        lemma_decoded_name(last);
        assert(texts.drop_last() =~= decoded(first));
        assert(texts.last() == vstd::utf8::decode_utf8(last));
        assert forall|i: int| 0 <= i < texts.len() implies path_laws::is_name(
            #[trigger] texts[i],
        ) by {
            if i < texts.len() - 1 {
                assert(texts[i] == decoded(first)[i]);
            }
        }
        let head = text::join(decoded(first), '/');
        let slash = seq!['/'];
        assert(head.push('/') + texts.last() =~= head + (slash + texts.last()));
        utf8::law_texts_are_encoded_in_order(head, slash + texts.last());
        utf8::law_texts_are_encoded_in_order(slash, texts.last());
        utf8::law_slash_is_its_byte(slash);
        assert(vstd::utf8::encode_utf8(text::join(texts, '/')) =~= all);
    }
    vstd::utf8::encode_utf8_decode_utf8(text::join(texts, '/'));
}

/// What is shown for a path in normal form that is valid UTF-8 and not empty shows names from an
/// origin, where there is a home directory.
pub proof fn law_display_shows_names(
    p: Seq<u8>,
    home: Seq<u8>,
    pwd: Seq<u8>,
    display_prefix: Seq<char>,
    relative_root: bool,
) -> (r: (Origin, Seq<Seq<char>>))
    requires
        p.len() > 0,
        path::normalized(p) == p,
        vstd::utf8::valid_utf8(p),
        home.len() > 0,
    ensures
        path_laws::are_names(r.1),
        location::displayed(p, home, pwd, display_prefix, relative_root) == display_of_names(
            r.0,
            r.1,
        ),
        location::displayed(p, home, pwd, display_prefix, relative_root).len() > 0,
{
    let d = location::displayed(p, home, pwd, display_prefix, relative_root);
    let root = path::is_absolute(p);
    let names = path::resolved_names(path::components(p));
    path_laws::law_normal_path_has_names(p);
    if is_shown_from_home(p, home, display_prefix) && path::same_path(p, home) {
        (Origin::Home, Seq::empty())
    } else if is_shown_from_home(p, home, display_prefix) {
        let others = lemma_other_names(p, home);
        (Origin::Home, decoded(others))
    } else if relative_root && pwd.len() > 0 && path::starts_with_path(p, pwd)
        && !path::same_path(p, pwd) {
        let others = lemma_other_names(p, pwd);
        vstd::utf8::encode_utf8_decode_utf8(d);
        (Origin::Here, decoded(others))
    } else {
        if pwd.len() == 0 {
            path_laws::law_empty_prefix_takes_nothing_away(p, pwd);
        }
        assert(d == vstd::utf8::decode_utf8(p));
        vstd::utf8::decode_utf8_encode_utf8(p);
        if root {
            let rest = text::join(names, u8::slash());
            lemma_end_is_utf8(p, 1);
            assert(p.skip(1) =~= rest);
            law_names_are_decoded_one_by_one(names);
            let shown = display_of_names(Origin::Root, decoded(names));
            utf8::law_texts_are_encoded_in_order(
                seq!['/'],
                text::join(decoded(names), '/'),
            );
            utf8::law_slash_is_its_byte(seq!['/']);
            assert(vstd::utf8::encode_utf8(shown) =~= p);
            vstd::utf8::encode_utf8_decode_utf8(shown);
            (Origin::Root, decoded(names))
        } else {
            law_names_are_decoded_one_by_one(names);
            (Origin::Here, decoded(names))
        }
    }
}

/// The names behind a directory, of which there is one, in a path in normal form.
proof fn lemma_other_names(p: Seq<u8>, base: Seq<u8>) -> (others: Seq<Seq<u8>>)
    requires
        path::normalized(p) == p,
        vstd::utf8::valid_utf8(p),
        base.len() > 0,
        path::starts_with_path(p, base),
        !path::same_path(p, base),
    ensures
        others.len() > 0,
        path_laws::are_names(decoded(others)),
        utf8::shown_text(path::without_prefix(p, base)->0) == text::join(decoded(others), '/'),
        text::join(decoded(others), '/').len() > 0,
{
    let names = path::resolved_names(path::components(p));
    let k = path_laws::lemma_names_before(p, base);
    let others = names.skip(k);
    path_laws::law_normal_path_has_names(p);
    path_laws::law_components_of_path_of_names(path::is_absolute(p), names);
    assert(path_laws::are_names(others));
    if k == names.len() {
        assert(names.take(k) =~= names);
    }
    law_rest_is_text(p, base);
    law_names_are_decoded_one_by_one(others);
    lemma_join_begins(decoded(others));
    assert(path_laws::is_name(decoded(others)[0]));
    others
}

/// Component `i` of the display of names: where it starts from, and then the names, with a
/// separator behind each but the last.
pub open spec fn component_text(origin: Origin, names: Seq<Seq<char>>, i: int) -> Seq<char> {
    let k = if origin is Here {
        i
    } else {
        i - 1
    };
    if k >= 0 {
        if k < names.len() - 1 {
            names[k] + seq!['/']
        } else {
            names[k]
        }
    } else if origin is Root {
        seq!['/']
    } else if names.len() == 0 {
        seq!['~']
    } else {
        seq!['~', '/']
    }
}

/// The components of a displayed path are where it starts from and its names, one by one.
pub proof fn law_components_are_names(origin: Origin, names: Seq<Seq<char>>)
    requires
        can_be_displayed(origin, names),
    ensures
        ({
            let pieces = paint::display_pieces(display_of_names(origin, names));
            &&& pieces.len() == names.len() + if origin is Here {
                0int
            } else {
                1
            }
            &&& forall|i: int|
                0 <= i < pieces.len() ==> (#[trigger] pieces[i]).text == component_text(
                    origin,
                    names,
                    i,
                )
        }),
{
    let pieces = paint::display_pieces(display_of_names(origin, names));
    lemma_display_pieces(origin, names);
    let first = origin_pieces(origin, names);
    let n = first.len() as int;
    assert forall|i: int| 0 <= i < pieces.len() implies (#[trigger] pieces[i]).text
        == component_text(origin, names, i) by {
        if i >= n {
            assert(pieces[i] == name_pieces(names)[i - n]);
            assert(names[i - n].push('/') =~= names[i - n] + seq!['/']);
        }
    }
}

/// The text of a component of a path.
pub open spec fn written(c: path::Component<char>) -> Seq<char> {
    match c {
        path::Component::Root => "/"@,
        path::Component::Here => "."@,
        path::Component::Up => ".."@,
        path::Component::Name(name) => name,
    }
}

proof fn lemma_pieces_are_written(s: Seq<char>, skip_first: bool, i: int)
    requires
        0 <= i < path::components(s).len(),
    ensures
        ({
            let all = path::components(s);
            let piece = paint::separated(paint::bare_pieces(s), skip_first)[i];
            let own = written(all[i]);
            &&& paint::separated(paint::bare_pieces(s), skip_first).len() == all.len()
            &&& i == all.len() - 1 || (skip_first && i == 0) ==> piece.text == own
            &&& i < all.len() - 1 && !(skip_first && i == 0) ==> piece.text == own + seq!['/']
            &&& all[i] is Root ==> piece.step is Root
            &&& !(all[i] is Root) ==> piece.step == Step::Normal(own)
        }),
{
    reveal_strlit("/");
    reveal_strlit(".");
    reveal_strlit("..");
    assert("/"@ =~= seq!['/']);
    assert("."@ =~= seq!['.']);
    assert(".."@ =~= seq!['.', '.']);
    let own = written(path::components(s)[i]);
    assert(own.push('/') =~= own + seq!['/']);
}

/// The pieces of a displayed path are its components, one by one, with a separator behind each but
/// the last and but the root. Only the root leads to the root, and any other component to an entry
/// of the directory before it.
pub proof fn law_pieces_are_components(display: Seq<char>, i: int)
    requires
        display.len() == 0 || display[0] != '~',
        0 <= i < path::components(display).len(),
    ensures
        ({
            let all = path::components(display);
            let pieces = paint::display_pieces(display);
            let own = written(all[i]);
            let root = display.len() > 0 && display[0] == '/';
            &&& pieces.len() == all.len()
            &&& i == all.len() - 1 || (root && i == 0) ==> pieces[i].text == own
            &&& i < all.len() - 1 && !(root && i == 0) ==> pieces[i].text == own + seq!['/']
            &&& all[i] is Root ==> pieces[i].step is Root
            &&& !(all[i] is Root) ==> pieces[i].step == Step::Normal(own)
        }),
{
    if text::begins(display, seq!['~', '/']) {
        assert(display.take(2)[0] == '~');
    }
    lemma_pieces_are_written(display, path::is_absolute(display), i);
}

/// Behind `~/` the pieces are the components of what follows, where that is a relative path.
pub proof fn law_pieces_behind_home_are_components(rest: Seq<char>, i: int)
    requires
        rest.len() == 0 || rest[0] != '/',
        0 <= i < path::components(rest).len(),
    ensures
        ({
            let all = path::components(rest);
            let pieces = paint::display_pieces(seq!['~', '/'] + rest);
            let own = written(all[i]);
            &&& pieces.len() == all.len() + 1
            &&& pieces[0].text == seq!['~', '/']
            &&& pieces[0].step is Base
            &&& pieces[i + 1].text == (if i == all.len() - 1 {
                own
            } else {
                own + seq!['/']
            })
            &&& !(all[i] is Root) ==> pieces[i + 1].step == Step::Normal(own)
        }),
{
    let d = seq!['~', '/'] + rest;
    assert(d.take(2) =~= seq!['~', '/']);
    assert(d.skip(2) =~= rest);
    lemma_pieces_are_written(rest, false, i);
}

proof fn lemma_all_are_normal(pieces: Seq<Piece>)
    requires
        forall|i: int| 0 <= i < pieces.len() ==> (#[trigger] pieces[i]).step is Normal,
    ensures
        paint::normal_count(pieces) == pieces.len(),
    decreases pieces.len(),
{
    if pieces.len() > 0 {
        let before = pieces.drop_last();
        assert forall|i: int| 0 <= i < before.len() implies (#[trigger] before[i]).step is Normal by {
            assert(before[i] == pieces[i]);
        }
        lemma_all_are_normal(before);
        assert(pieces[pieces.len() - 1].step is Normal);
    }
}

/// A relative display starts as many directories above its path as it has components; one from
/// the root starts from nothing.
pub proof fn law_displays_start_above_the_path(display: Seq<char>, p: Seq<u8>)
    requires
        display.len() == 0 || display[0] != '~',
    ensures
        ({
            let base = paint::base_path(display, p, paint::display_pieces(display));
            &&& display.len() > 0 && display[0] == '/' ==> base == Seq::<u8>::empty()
            &&& display.len() == 0 || display[0] != '/' ==> base == path::popped_times(
                p,
                path::components(display).len(),
            )
        }),
{
    let pieces = paint::display_pieces(display);
    let all = path::components(display);
    if text::begins(display, seq!['~', '/']) {
        assert(display.take(2)[0] == '~');
    }
    if display.len() == 0 || display[0] != '/' {
        assert forall|i: int| 0 <= i < pieces.len() implies (#[trigger] pieces[i]).step
            is Normal by {
            law_pieces_are_components(display, i);
            path_laws::lemma_only_the_first_is_the_root(display, i);
        }
        lemma_all_are_normal(pieces);
    }
}

} // verus!
