//! What holds of paths and their components.

use vstd::prelude::*;

use crate::path;
use crate::path::Component;
use crate::path::Mark;
use crate::path::Part;
use crate::path::PathSymbol;
use crate::text;

verus! {

/// Whether a piece of text is the name of an entry: not empty, without separators, and neither
/// `.` nor `..`.
pub open spec fn is_name<T: PathSymbol>(s: Seq<T>) -> bool {
    &&& s.len() > 0
    &&& !s.contains(T::slash())
    &&& s != seq![T::dot()]
    &&& s != seq![T::dot(), T::dot()]
}

/// Whether all pieces of text are names of entries.
pub open spec fn are_names<T: PathSymbol>(names: Seq<Seq<T>>) -> bool {
    forall|i: int| 0 <= i < names.len() ==> is_name(#[trigger] names[i])
}

/// Names as components.
pub open spec fn as_components<T>(names: Seq<Seq<T>>) -> Seq<Component<T>> {
    names.map_values(|name: Seq<T>| Component::Name(name))
}

/// The root as a component, where a path has it.
pub open spec fn root_component<T>(root: bool) -> Seq<Component<T>> {
    if root {
        seq![Component::Root]
    } else {
        Seq::empty()
    }
}

/// The component that a piece between separators is, if it is one.
pub open spec fn component_of<T: PathSymbol>(piece: Seq<T>, first: bool) -> Option<Component<T>> {
    match path::part_of(piece, first) {
        Some(Part::Here) => Some(Component::Here),
        Some(Part::Up) => Some(Component::Up),
        Some(_) => Some(Component::Name(piece)),
        None => None,
    }
}

/// The components that pieces between separators are, where they stand at the beginning of a
/// path or not.
pub open spec fn piece_components<T: PathSymbol>(pieces: Seq<Seq<T>>, first: bool) -> Seq<
    Component<T>,
>
    decreases pieces.len(),
{
    if pieces.len() == 0 {
        Seq::empty()
    } else {
        let before = piece_components(pieces.drop_last(), first);
        match component_of(pieces.last(), first && pieces.len() == 1) {
            Some(c) => before.push(c),
            None => before,
        }
    }
}

/// The components at marks of a path.
spec fn components_at<T: PathSymbol>(p: Seq<T>, marks: Seq<Mark>) -> Seq<Component<T>> {
    marks.map_values(|m: Mark| path::component_at(p, m))
}

proof fn lemma_components_upto<T: PathSymbol>(p: Seq<T>, n: int)
    requires
        0 <= n <= text::split(p, T::slash()).len(),
    ensures
        components_at(p, path::marks_upto(p, n)) == root_component::<T>(path::is_absolute(p))
            + piece_components(text::split(p, T::slash()).take(n), true),
    decreases n,
{
    let pieces = text::split(p, T::slash());
    let root = root_component::<T>(path::is_absolute(p));
    if n == 0 {
        assert(pieces.take(0).len() == 0);
        assert(components_at(p, path::marks_upto(p, 0)) =~= root + piece_components(
            pieces.take(0),
            true,
        ));
    } else {
        lemma_components_upto(p, n - 1);
        let before = path::marks_upto(p, n - 1);
        assert(pieces.take(n).drop_last() =~= pieces.take(n - 1));
        assert(pieces.take(n).last() == pieces[n - 1]);
        let c = text::cuts(p, T::slash())[n - 1];
        assert(pieces[n - 1] == p.subrange(c.0, c.1));
        match path::part_of(pieces[n - 1], n == 1) {
            Some(part) => {
                let m = Mark { part, start: c.0, end: c.1 };
                assert(path::marks_upto(p, n) == before.push(m));
                assert(components_at(p, before.push(m)) =~= components_at(p, before).push(
                    path::component_at(p, m),
                ));
                assert(components_at(p, path::marks_upto(p, n)) =~= root + piece_components(
                    pieces.take(n),
                    true,
                ));
            },
            None => {},
        }
    }
}

/// The components of a path are the root, where the path begins there, and those that its
/// pieces between separators are.
pub proof fn law_components_are_pieces<T: PathSymbol>(p: Seq<T>)
    ensures
        path::components(p) == root_component::<T>(path::is_absolute(p)) + piece_components(
            text::split(p, T::slash()),
            true,
        ),
{
    let pieces = text::split(p, T::slash());
    lemma_components_upto(p, pieces.len() as int);
    assert(pieces.take(pieces.len() as int) =~= pieces);
    assert(path::components(p) =~= components_at(p, path::marks(p)));
}

proof fn lemma_pieces_of_both<T: PathSymbol>(a: Seq<Seq<T>>, b: Seq<Seq<T>>, first: bool)
    ensures
        piece_components(a + b, first) == piece_components(a, first) + piece_components(
            b,
            first && a.len() == 0,
        ),
    decreases b.len(),
{
    if b.len() == 0 {
        assert(a + b =~= a);
        assert(piece_components(a, first) + Seq::empty() =~= piece_components(a, first));
    } else {
        assert((a + b).drop_last() =~= a + b.drop_last());
        lemma_pieces_of_both(a, b.drop_last(), first);
        assert(piece_components(a + b, first) =~= piece_components(a, first) + piece_components(
            b,
            first && a.len() == 0,
        ));
    }
}

proof fn lemma_name_pieces<T: PathSymbol>(names: Seq<Seq<T>>, first: bool)
    requires
        are_names(names),
    ensures
        piece_components(names, first) == as_components(names),
    decreases names.len(),
{
    if names.len() > 0 {
        assert(are_names(names.drop_last()));
        lemma_name_pieces(names.drop_last(), first);
        assert(is_name(names.last()));
    }
    assert(piece_components(names, first) =~= as_components(names));
}

proof fn lemma_no_pieces<T: PathSymbol>(first: bool)
    ensures
        text::split(Seq::<T>::empty(), T::slash()) == seq![Seq::<T>::empty()],
        piece_components(seq![Seq::<T>::empty()], first) =~= Seq::empty(),
{
    assert(!Seq::<T>::empty().contains(T::slash()));
    text::law_split_of_whole(Seq::<T>::empty(), T::slash());
    assert(seq![Seq::<T>::empty()].drop_last() =~= Seq::empty());
    assert(seq![Seq::<T>::empty()].last() == Seq::<T>::empty());
    assert(piece_components(seq![Seq::<T>::empty()].drop_last(), first) =~= Seq::empty());
}

/// What follows a separator adds its components to those of what stands before it, where that
/// is not empty.
pub proof fn law_components_of_both<T: PathSymbol>(a: Seq<T>, b: Seq<T>)
    requires
        a.len() > 0,
    ensures
        path::components(a.push(T::slash()) + b) == path::components(a) + piece_components(
            text::split(b, T::slash()),
            false,
        ),
{
    let p = a.push(T::slash()) + b;
    assert(p[0] == a[0]);
    law_components_are_pieces(a);
    law_components_are_pieces(p);
    text::law_split_of_both(a, b, T::slash());
    text::lemma_cuts(a, T::slash());
    lemma_pieces_of_both(text::split(a, T::slash()), text::split(b, T::slash()), true);
    assert(path::components(p) =~= path::components(a) + piece_components(
        text::split(b, T::slash()),
        false,
    ));
}

/// The components of names with separators between them are these names.
pub proof fn law_components_of_names<T: PathSymbol>(names: Seq<Seq<T>>)
    requires
        are_names(names),
    ensures
        path::components(text::join(names, T::slash())) == as_components(names),
        !path::is_absolute(text::join(names, T::slash())),
{
    let p = text::join(names, T::slash());
    lemma_joined_names_begin(names);
    law_components_are_pieces(p);
    if names.len() == 0 {
        lemma_no_pieces::<T>(true);
    } else {
        text::law_split_undoes_join(names, T::slash());
        lemma_name_pieces(names, true);
    }
    assert(path::components(p) =~= as_components(names));
}

proof fn lemma_joined_names_begin<T: PathSymbol>(names: Seq<Seq<T>>)
    requires
        are_names(names),
    ensures
        names.len() > 0 ==> text::join(names, T::slash()).len() > 0 && text::join(
            names,
            T::slash(),
        )[0] == names[0][0] && names[0][0] != T::slash(),
        names.len() == 0 ==> text::join(names, T::slash()).len() == 0,
    decreases names.len(),
{
    if names.len() > 0 {
        assert(is_name(names[0]));
        assert(names[0].contains(names[0][0]));
        if names.len() > 1 {
            assert(are_names(names.drop_last()));
            lemma_joined_names_begin(names.drop_last());
        }
    }
}

/// The components of names behind the root are the root and these names.
pub proof fn law_components_of_names_behind_the_root<T: PathSymbol>(names: Seq<Seq<T>>)
    requires
        are_names(names),
    ensures
        path::components(seq![T::slash()] + text::join(names, T::slash())) == root_component::<T>(
            true,
        ) + as_components(names),
{
    let none = Seq::<T>::empty();
    let rest = text::join(names, T::slash());
    let p = seq![T::slash()] + rest;
    assert(p =~= none.push(T::slash()) + rest);
    law_components_are_pieces(p);
    text::law_split_of_both(none, rest, T::slash());
    lemma_no_pieces::<T>(true);
    lemma_pieces_of_both(seq![none], text::split(rest, T::slash()), true);
    if names.len() == 0 {
        lemma_joined_names_begin(names);
        assert(rest =~= none);
        lemma_no_pieces::<T>(false);
    } else {
        text::law_split_undoes_join(names, T::slash());
        lemma_name_pieces(names, false);
    }
    assert(path::components(p) =~= root_component::<T>(true) + as_components(names));
}

/// The components of a path with these names are the names, behind the root where the path
/// begins there.
pub proof fn law_components_of_path_of_names(root: bool, names: Seq<Seq<u8>>)
    requires
        are_names(names),
    ensures
        path::components(path::path_of_names(root, names)) == root_component::<u8>(root)
            + as_components(names),
        path::is_absolute(path::path_of_names(root, names)) == root,
{
    law_components_of_names(names);
    law_components_of_names_behind_the_root(names);
    assert(root_component::<u8>(false) + as_components(names) =~= as_components(names));
}

/// Whether the names among components are names of entries.
spec fn name_components(c: Seq<Component<u8>>) -> bool {
    forall|i: int| 0 <= i < c.len() && c[i] is Name ==> is_name((#[trigger] c[i])->Name_0)
}

proof fn lemma_pieces_are_names(pieces: Seq<Seq<u8>>, first: bool)
    requires
        forall|i: int| 0 <= i < pieces.len() ==> !(#[trigger] pieces[i]).contains(u8::slash()),
    ensures
        name_components(piece_components(pieces, first)),
    decreases pieces.len(),
{
    if pieces.len() > 0 {
        lemma_pieces_are_names(pieces.drop_last(), first);
        assert(!pieces[pieces.len() - 1].contains(u8::slash()));
    }
}

proof fn lemma_resolved_are_names(c: Seq<Component<u8>>)
    requires
        name_components(c),
    ensures
        are_names(path::resolved_names(c)),
    decreases c.len(),
{
    if c.len() > 0 {
        assert forall|i: int| 0 <= i < c.len() - 1 && c.drop_last()[i] is Name implies is_name(
            (#[trigger] c.drop_last()[i])->Name_0,
        ) by {
            assert(c[i] == c.drop_last()[i]);
        }
        lemma_resolved_are_names(c.drop_last());
        if c.last() is Name {
            assert(is_name(c[c.len() - 1]->Name_0));
        }
    }
}

/// The names that a path resolves to are names of entries.
pub proof fn law_resolved_names_are_names(p: Seq<u8>)
    ensures
        are_names(path::resolved_names(path::components(p))),
{
    let pieces = text::split(p, u8::slash());
    law_components_are_pieces(p);
    assert forall|i: int| 0 <= i < pieces.len() implies !(#[trigger] pieces[i]).contains(
        u8::slash(),
    ) by {
        text::law_pieces_hold_no_separator(p, u8::slash(), i);
    }
    lemma_pieces_are_names(pieces, true);
    let c = path::components(p);
    let root = root_component::<u8>(path::is_absolute(p));
    assert forall|i: int| 0 <= i < c.len() && c[i] is Name implies is_name(
        (#[trigger] c[i])->Name_0,
    ) by {
        if i >= root.len() {
            assert(c[i] == piece_components(pieces, true)[i - root.len()]);
        }
    }
    lemma_resolved_are_names(c);
}

proof fn lemma_names_resolve_to_themselves(root: bool, names: Seq<Seq<u8>>)
    ensures
        path::resolved_names(root_component::<u8>(root) + as_components(names)) == names,
    decreases names.len(),
{
    let c = root_component::<u8>(root) + as_components(names);
    if names.len() == 0 {
        if root {
            assert(c.drop_last() =~= Seq::empty());
            assert(path::resolved_names(c.drop_last()) =~= Seq::empty());
        }
        assert(path::resolved_names(c) =~= names);
    } else {
        lemma_names_resolve_to_themselves(root, names.drop_last());
        assert(c.drop_last() =~= root_component::<u8>(root) + as_components(names.drop_last()));
        assert(c.last() == Component::Name(names.last()));
        assert(names.drop_last().push(names.last()) =~= names);
    }
}

/// A path of names is in normal form.
pub proof fn law_path_of_names_is_normal(root: bool, names: Seq<Seq<u8>>)
    requires
        are_names(names),
    ensures
        path::normalized(path::path_of_names(root, names)) == path::path_of_names(root, names),
{
    law_components_of_path_of_names(root, names);
    lemma_names_resolve_to_themselves(root, names);
}

/// The normal form of a path has names as its components, behind the root where the path begins
/// there: no `.` and no `..`.
pub proof fn law_normal_form_has_names_only(p: Seq<u8>)
    ensures
        path::components(path::normalized(p)) == root_component::<u8>(path::is_absolute(p))
            + as_components(path::resolved_names(path::components(p))),
        path::is_absolute(path::normalized(p)) == path::is_absolute(p),
{
    law_resolved_names_are_names(p);
    law_components_of_path_of_names(
        path::is_absolute(p),
        path::resolved_names(path::components(p)),
    );
}

/// Bringing a path into normal form twice is the same as once.
pub proof fn law_normal_form_is_kept(p: Seq<u8>)
    ensures
        path::normalized(path::normalized(p)) == path::normalized(p),
{
    law_resolved_names_are_names(p);
    law_path_of_names_is_normal(path::is_absolute(p), path::resolved_names(path::components(p)));
}

/// The lexical form of a path is in normal form, and absolute where the path or the current
/// directory is.
pub proof fn law_lexical_form_is_normal(p: Seq<u8>, current_dir: Option<Seq<u8>>)
    ensures
        path::normalized(path::lexical(p, current_dir)) == path::lexical(p, current_dir),
        path::is_absolute(p) || (current_dir is Some && path::is_absolute(current_dir->0))
            ==> path::is_absolute(path::lexical(p, current_dir)),
{
    let dir = match current_dir {
        Some(dir) => dir,
        None => seq![u8::dot()],
    };
    law_normal_form_is_kept(p);
    law_normal_form_is_kept(path::joined(dir, p));
    law_normal_form_has_names_only(p);
    law_normal_form_has_names_only(path::joined(dir, p));
}

/// Where the components of a path with these names stand.
spec fn name_marks(root: bool, names: Seq<Seq<u8>>) -> Seq<Mark>
    decreases names.len(),
{
    if names.len() == 0 {
        if root {
            seq![Mark { part: Part::Root, start: 0, end: 1 }]
        } else {
            Seq::empty()
        }
    } else {
        let end = path::path_of_names(root, names).len() as int;
        name_marks(root, names.drop_last()).push(
            Mark { part: Part::Name, start: end - names.last().len(), end },
        )
    }
}

proof fn lemma_marks_upto_of_both(a: Seq<u8>, b: Seq<u8>, n: int)
    requires
        a.len() > 0,
        0 <= n <= text::cuts(a, u8::slash()).len(),
    ensures
        path::marks_upto(a.push(u8::slash()) + b, n) == path::marks_upto(a, n),
    decreases n,
{
    let p = a.push(u8::slash()) + b;
    assert(p[0] == a[0]);
    text::lemma_cuts_of_both(a, b, u8::slash());
    text::lemma_cuts(a, u8::slash());
    if n > 0 {
        lemma_marks_upto_of_both(a, b, n - 1);
        let c = text::cuts(a, u8::slash())[n - 1];
        assert(text::cuts(p, u8::slash())[n - 1] == c);
        assert(p.subrange(c.0, c.1) =~= a.subrange(c.0, c.1));
    }
}

proof fn lemma_marks_of_both(a: Seq<u8>, name: Seq<u8>)
    requires
        a.len() > 0,
        is_name(name),
    ensures
        path::marks(a.push(u8::slash()) + name) == path::marks(a).push(
            Mark { part: Part::Name, start: a.len() + 1int, end: a.len() + 1int + name.len() },
        ),
{
    let p = a.push(u8::slash()) + name;
    let n = text::cuts(a, u8::slash()).len() as int;
    text::lemma_cuts_of_both(a, name, u8::slash());
    text::lemma_cuts_of_whole(name, u8::slash());
    text::lemma_cuts(a, u8::slash());
    lemma_marks_upto_of_both(a, name, n);
    assert(text::cuts(p, u8::slash()).len() == n + 1);
    assert(text::cuts(p, u8::slash())[n] == (a.len() + 1int, a.len() + 1int + name.len()));
    assert(p.subrange(a.len() + 1int, a.len() + 1int + name.len()) =~= name);
}

proof fn lemma_marks_of_first(root: bool, name: Seq<u8>)
    requires
        is_name(name),
    ensures
        path::marks(path::path_of_names(root, seq![name])) == name_marks(root, Seq::empty()).push(
            Mark {
                part: Part::Name,
                start: name_marks(root, Seq::empty()).len() as int,
                end: name_marks(root, Seq::empty()).len() as int + name.len(),
            },
        ),
{
    let p = path::path_of_names(root, seq![name]);
    text::lemma_cuts_of_whole(name, u8::slash());
    reveal_with_fuel(path::marks_upto, 3);
    if root {
        assert(p =~= Seq::<u8>::empty().push(u8::slash()) + name);
        text::lemma_cuts_of_both(Seq::<u8>::empty(), name, u8::slash());
        assert(text::cuts(p, u8::slash()) =~= seq![(0int, 0int), (1int, 1int + name.len())]);
        assert(p.subrange(0, 0) =~= Seq::<u8>::empty());
        assert(p.subrange(1, 1int + name.len()) =~= name);
    } else {
        assert(p =~= name);
        assert(name.contains(name[0]));
        assert(p.subrange(0, name.len() as int) =~= name);
    }
}

proof fn lemma_marks_of_names(root: bool, names: Seq<Seq<u8>>)
    requires
        are_names(names),
    ensures
        path::marks(path::path_of_names(root, names)) == name_marks(root, names),
        names.len() > 0 ==> path::path_of_names(root, names).last() != u8::slash(),
    decreases names.len(),
{
    let p = path::path_of_names(root, names);
    if names.len() == 0 {
        reveal_with_fuel(path::marks_upto, 3);
        reveal_with_fuel(text::cuts, 3);
        if root {
            assert(p =~= seq![u8::slash()]);
            assert(p.drop_last() =~= Seq::<u8>::empty());
            assert(text::cuts(p, u8::slash()) =~= seq![(0int, 0int), (1int, 1int)]);
            assert(p.subrange(0, 0) =~= Seq::<u8>::empty());
            assert(p.subrange(1, 1) =~= Seq::<u8>::empty());
        } else {
            assert(p =~= Seq::<u8>::empty());
            assert(p.subrange(0, 0) =~= Seq::<u8>::empty());
        }
        assert(path::marks(p) =~= name_marks(root, names));
    } else {
        assert(is_name(names.last()));
        assert(names.last().contains(names.last().last()));
        if names.len() == 1 {
            assert(names =~= seq![names[0]]);
            assert(names.drop_last() =~= Seq::<Seq<u8>>::empty());
            lemma_marks_of_first(root, names[0]);
        } else {
            let first = names.drop_last();
            let q = path::path_of_names(root, first);
            assert(are_names(first));
            lemma_marks_of_names(root, first);
            lemma_joined_names_begin(first);
            assert(p =~= q.push(u8::slash()) + names.last());
            lemma_marks_of_both(q, names.last());
        }
    }
}

proof fn lemma_last_marks(root: bool, names: Seq<Seq<u8>>)
    requires
        are_names(names),
        names.len() > 0,
    ensures
        ({
            let p = path::path_of_names(root, names);
            let q = path::path_of_names(root, names.drop_last());
            let m = name_marks(root, names);
            &&& m.len() > 0
            &&& m.last() == (Mark {
                part: Part::Name,
                start: p.len() - names.last().len(),
                end: p.len() as int,
            })
            &&& p.len() >= names.last().len()
            &&& p.skip(p.len() - names.last().len()) == names.last()
            &&& m.len() == 1 ==> q.len() == 0
            &&& m.len() > 1 ==> m[m.len() - 2].end == q.len()
            &&& q.len() <= p.len()
            &&& p.take(q.len() as int) == q
        }),
{
    let first = names.drop_last();
    let p = path::path_of_names(root, names);
    let q = path::path_of_names(root, first);
    assert(are_names(first));
    if root || first.len() > 0 {
        lemma_first_mark(root, first);
    } else {
        assert(name_marks(root, first) =~= Seq::<Mark>::empty());
        assert(text::join(first, u8::slash()) =~= Seq::<u8>::empty());
    }
    if names.len() > 1 {
        assert(p =~= q.push(u8::slash()) + names.last());
    } else {
        assert(names =~= seq![names[0]]);
        assert(text::join(names, u8::slash()) == names[0]);
        assert(text::join(first, u8::slash()) =~= Seq::<u8>::empty());
    }
    assert(p.skip(p.len() - names.last().len()) =~= names.last());
    assert(p.take(q.len() as int) =~= q);
}

/// Popping a path of names takes the last name away.
pub proof fn law_popping_takes_the_last_name(root: bool, names: Seq<Seq<u8>>)
    requires
        are_names(names),
        names.len() > 0,
    ensures
        path::popped(path::path_of_names(root, names)) == path::path_of_names(
            root,
            names.drop_last(),
        ),
        path::file_name(path::path_of_names(root, names)) == Some(names.last()),
{
    let p = path::path_of_names(root, names);
    lemma_marks_of_names(root, names);
    lemma_last_marks(root, names);
    assert(p.subrange(p.len() - names.last().len(), p.len() as int) =~= p.skip(
        p.len() - names.last().len(),
    ));
}

/// Popping a path of names some times takes as many names away.
pub proof fn law_popping_takes_names(root: bool, names: Seq<Seq<u8>>, n: nat)
    requires
        are_names(names),
        n <= names.len(),
    ensures
        path::popped_times(path::path_of_names(root, names), n) == path::path_of_names(
            root,
            names.take(names.len() - n),
        ),
    decreases n,
{
    if n == 0 {
        assert(names.take(names.len() as int) =~= names);
    } else {
        law_popping_takes_names(root, names, (n - 1) as nat);
        let kept = names.take(names.len() - n + 1);
        assert(are_names(kept));
        law_popping_takes_the_last_name(root, kept);
        assert(kept.drop_last() =~= names.take(names.len() - n));
    }
}

/// Joining a name to a path of names appends it.
pub proof fn law_joining_appends_a_name(root: bool, names: Seq<Seq<u8>>, name: Seq<u8>)
    requires
        are_names(names),
        is_name(name),
    ensures
        path::joined(path::path_of_names(root, names), name) == path::path_of_names(
            root,
            names.push(name),
        ),
{
    let p = path::path_of_names(root, names);
    let all = names.push(name);
    lemma_marks_of_names(root, names);
    lemma_joined_names_begin(names);
    assert(name.contains(name[0]));
    assert(all.drop_last() =~= names);
    assert(path::joined(p, name) =~= path::path_of_names(root, all));
}

proof fn lemma_rest_of_names(root: bool, names: Seq<Seq<u8>>, k: int)
    requires
        are_names(names),
        0 <= k < names.len(),
    ensures
        ({
            let p = path::path_of_names(root, names);
            let m = name_marks(root, names);
            let i = root_component::<u8>(root).len() + k;
            &&& m.len() == root_component::<u8>(root).len() + names.len()
            &&& 0 <= m[i].start <= p.len()
            &&& p.skip(m[i].start) == text::join(names.skip(k), u8::slash())
            &&& m[i].start > 0 ==> p[m[i].start - 1] == u8::slash()
        }),
    decreases names.len(),
{
    let p = path::path_of_names(root, names);
    let m = name_marks(root, names);
    let first = names.drop_last();
    let q = path::path_of_names(root, first);
    let i = root_component::<u8>(root).len() + k;
    assert(are_names(first));
    assert(is_name(names.last()));
    if names.len() > 1 {
        assert(p =~= q.push(u8::slash()) + names.last());
        if k < names.len() - 1 {
            lemma_rest_of_names(root, first, k);
            assert(m[i] == name_marks(root, first)[i]);
            assert(names.skip(k).drop_last() =~= first.skip(k));
            assert(names.skip(k).last() == names.last());
            assert(p.skip(m[i].start) =~= q.skip(m[i].start).push(u8::slash()) + names.last());
        } else {
            lemma_rest_of_names(root, first, 0);
            assert(names.skip(k) =~= seq![names.last()]);
            assert(p.skip(m[i].start) =~= names.last());
        }
    } else {
        assert(names =~= seq![names[0]]);
        assert(first =~= Seq::<Seq<u8>>::empty());
        assert(names.skip(0) =~= names);
        assert(p.skip(m[i].start) =~= names[0]);
    }
}

/// What follows the first names in a path of names is the other names.
pub proof fn law_other_names_follow(root: bool, names: Seq<Seq<u8>>, base: Seq<u8>, k: int)
    requires
        are_names(names),
        0 <= k <= names.len(),
        path::components(base) == root_component::<u8>(root) + as_components(names.take(k)),
    ensures
        path::without_prefix(path::path_of_names(root, names), base) == Some(
            text::join(names.skip(k), u8::slash()),
        ),
{
    let p = path::path_of_names(root, names);
    let all = path::components(p);
    let n = path::components(base).len() as int;
    law_components_of_path_of_names(root, names);
    lemma_marks_of_names(root, names);
    assert(all.take(n) =~= path::components(base));
    assert(path::components(p).len() == path::marks(p).len());
    if k < names.len() {
        lemma_rest_of_names(root, names, k);
        let m = name_marks(root, names);
        assert(m.last().end == p.len());
        assert(p.subrange(m[n].start, p.len() as int) =~= p.skip(m[n].start));
    } else {
        assert(names.skip(k) =~= Seq::<Seq<u8>>::empty());
        assert(text::join(names.skip(k), u8::slash()) =~= Seq::<u8>::empty());
    }
}

/// A relative path adds its components to those of the directory that it is joined to.
pub proof fn law_joining_adds_components(base: Seq<u8>, p: Seq<u8>)
    requires
        base.len() > 0,
        !path::is_absolute(p),
    ensures
        path::components(path::joined(base, p)) == path::components(base) + piece_components(
            text::split(p, u8::slash()),
            false,
        ),
{
    let pieces = text::split(p, u8::slash());
    if base.last() != u8::slash() {
        law_components_of_both(base, p);
    } else {
        let a = base.drop_last();
        let none = Seq::<u8>::empty();
        lemma_no_pieces::<u8>(false);
        lemma_no_pieces::<u8>(true);
        assert(base =~= a.push(u8::slash()) + none);
        assert(path::joined(base, p) =~= a.push(u8::slash()) + p);
        if a.len() > 0 {
            law_components_of_both(a, p);
            law_components_of_both(a, none);
            assert(path::components(base) =~= path::components(a));
        } else {
            assert(a =~= none);
            law_components_are_pieces(base);
            law_components_are_pieces(path::joined(base, p));
            text::law_split_of_both(a, p, u8::slash());
            text::law_split_of_both(a, none, u8::slash());
            lemma_pieces_of_both(seq![none], pieces, true);
            lemma_pieces_of_both(seq![none], seq![none], true);
            assert(path::components(base) =~= root_component::<u8>(true));
            assert(path::components(path::joined(base, p)) =~= path::components(base)
                + piece_components(pieces, false));
        }
    }
}

proof fn lemma_first_cut(s: Seq<u8>)
    requires
        s.len() > 0,
        s[0] != u8::slash(),
    ensures
        text::cuts(s, u8::slash())[0].1 > 0,
    decreases s.len(),
{
    text::lemma_cuts(s, u8::slash());
    text::lemma_cuts(s.drop_last(), u8::slash());
    if s.len() > 1 {
        lemma_first_cut(s.drop_last());
    } else {
        assert(s.drop_last() =~= Seq::<u8>::empty());
    }
}

/// A path that begins with `./` begins with the directory itself.
pub proof fn law_dot_is_the_first_component(p: Seq<u8>)
    ensures
        ({
            let c = path::components(seq![u8::dot(), u8::slash()] + p);
            c.len() > 0 && c[0] == Component::<u8>::Here
        }),
{
    let dot = seq![u8::dot()];
    assert(seq![u8::dot(), u8::slash()] + p =~= dot.push(u8::slash()) + p);
    assert(!dot.contains(u8::slash()));
    law_components_of_both(dot, p);
    law_components_are_pieces(dot);
    text::law_split_of_whole(dot, u8::slash());
    let pieces = seq![dot];
    assert(piece_components(pieces.drop_last(), true) =~= Seq::empty());
    assert(component_of(pieces.last(), true) == Some(Component::<u8>::Here));
}

/// A path begins at the root where its first component is the root, and only there.
pub proof fn law_root_is_the_first_component(p: Seq<u8>)
    ensures
        path::is_absolute(p) <==> path::components(p).len() > 0 && path::components(p)[0] is Root,
{
    let pieces = text::split(p, u8::slash());
    law_components_are_pieces(p);
    lemma_never_root(pieces, true);
}

proof fn lemma_never_root(pieces: Seq<Seq<u8>>, first: bool)
    ensures
        forall|i: int|
            0 <= i < piece_components(pieces, first).len() ==> !(#[trigger] piece_components(
                pieces,
                first,
            )[i] is Root),
    decreases pieces.len(),
{
    if pieces.len() > 0 {
        lemma_never_root(pieces.drop_last(), first);
    }
}

/// Only the empty path has no components.
pub proof fn law_only_the_empty_path_has_no_components(p: Seq<u8>)
    ensures
        path::components(p).len() == 0 <==> p.len() == 0,
{
    law_components_are_pieces(p);
    if p.len() == 0 {
        assert(p =~= Seq::<u8>::empty());
        lemma_no_pieces::<u8>(true);
    } else if p[0] != u8::slash() {
        let pieces = text::split(p, u8::slash());
        text::lemma_cuts(p, u8::slash());
        lemma_first_cut(p);
        lemma_pieces_of_both(seq![pieces[0]], pieces.skip(1), true);
        assert(seq![pieces[0]] + pieces.skip(1) =~= pieces);
        assert(pieces[0].len() > 0);
        assert(seq![pieces[0]].last() == pieces[0]);
        assert(component_of(pieces[0], true) is Some);
        assert(piece_components(seq![pieces[0]], true).len() > 0);
    }
}

/// A path in normal form is the path of its names.
pub proof fn law_normal_path_has_names(p: Seq<u8>)
    requires
        path::normalized(p) == p,
    ensures
        are_names(path::resolved_names(path::components(p))),
        p == path::path_of_names(path::is_absolute(p), path::resolved_names(path::components(p))),
{
    law_resolved_names_are_names(p);
}

/// The first names of a path in normal form that are the components of `base`, where it has any.
pub proof fn lemma_names_before(p: Seq<u8>, base: Seq<u8>) -> (k: int)
    requires
        path::normalized(p) == p,
        path::starts_with_path(p, base),
        base.len() > 0,
    ensures
        ({
            let names = path::resolved_names(path::components(p));
            &&& 0 <= k <= names.len()
            &&& path::components(base) == root_component::<u8>(path::is_absolute(p))
                + as_components(names.take(k))
            &&& path::without_prefix(p, base) == Some(text::join(names.skip(k), u8::slash()))
        }),
{
    let root = path::is_absolute(p);
    let names = path::resolved_names(path::components(p));
    let r = root_component::<u8>(root);
    law_normal_path_has_names(p);
    law_components_of_path_of_names(root, names);
    law_only_the_empty_path_has_no_components(base);
    let k = path::components(base).len() - r.len();
    assert(path::components(base) =~= r + as_components(names.take(k)));
    law_other_names_follow(root, names, base, k);
    k
}

/// Taking the empty path away from a path in normal form takes nothing away.
pub proof fn law_empty_prefix_takes_nothing_away(p: Seq<u8>, base: Seq<u8>)
    requires
        path::normalized(p) == p,
        base.len() == 0,
    ensures
        path::without_prefix(p, base) == Some(p),
{
    let root = path::is_absolute(p);
    let names = path::resolved_names(path::components(p));
    law_normal_path_has_names(p);
    law_only_the_empty_path_has_no_components(base);
    law_only_the_empty_path_has_no_components(p);
    lemma_marks_of_names(root, names);
    assert(path::components(p).len() == path::marks(p).len());
    assert(path::components(p).take(0) =~= path::components(base));
    if path::marks(p).len() > 0 {
        lemma_first_mark(root, names);
        assert(p.subrange(0, p.len() as int) =~= p);
    } else {
        assert(p =~= Seq::<u8>::empty());
    }
}

proof fn lemma_marks_grow(p: Seq<u8>, i: int, j: int)
    requires
        0 <= i <= j,
    ensures
        path::marks_upto(p, i).len() <= path::marks_upto(p, j).len(),
    decreases j,
{
    if i < j {
        lemma_marks_grow(p, i, j - 1);
    }
}

/// The piece of a path that a component behind the root is.
proof fn lemma_piece_of_mark(p: Seq<u8>, k: int, n: int) -> (j: int)
    requires
        0 <= k <= text::cuts(p, u8::slash()).len(),
        path::marks_upto(p, 0).len() <= n < path::marks_upto(p, k).len(),
    ensures
        ({
            let c = text::cuts(p, u8::slash())[j];
            &&& 0 <= j < k
            &&& path::marks_upto(p, j).len() == n
            &&& path::marks_upto(p, j + 1).len() == n + 1
            &&& path::part_of(p.subrange(c.0, c.1), j == 0) is Some
            &&& path::marks_upto(p, k)[n].start == c.0
            &&& path::marks_upto(p, k)[n].end == c.1
        }),
    decreases k,
{
    if path::marks_upto(p, k - 1).len() > n {
        lemma_piece_of_mark(p, k - 1, n)
    } else {
        k - 1
    }
}

proof fn lemma_count_upto(p: Seq<u8>, n: int)
    requires
        0 <= n <= text::split(p, u8::slash()).len(),
    ensures
        path::marks_upto(p, n).len() == root_component::<u8>(path::is_absolute(p)).len()
            + piece_components(text::split(p, u8::slash()).take(n), true).len(),
{
    lemma_components_upto(p, n);
    assert(components_at(p, path::marks_upto(p, n)).len() == path::marks_upto(p, n).len());
}

/// The pieces up to the last component have all components of a path.
proof fn lemma_last_piece(p: Seq<u8>) -> (b: int)
    requires
        path::marks(p).len() > path::marks_upto(p, 0).len(),
    ensures
        ({
            let c = text::cuts(p, u8::slash())[b];
            let pieces = text::split(p, u8::slash());
            &&& 0 <= b < pieces.len()
            &&& path::marks_upto(p, b + 1).len() == path::marks(p).len()
            &&& path::marks(p).last().end == c.1
            &&& pieces[b].len() > 0
            &&& piece_components(pieces, true) == piece_components(pieces.take(b + 1), true)
        }),
{
    let pieces = text::split(p, u8::slash());
    let total = pieces.len() as int;
    let b = lemma_piece_of_mark(p, total, path::marks(p).len() - 1);
    lemma_count_upto(p, b + 1);
    lemma_count_upto(p, total);
    assert(pieces.take(total) =~= pieces);
    let before = pieces.take(b + 1);
    let behind = pieces.skip(b + 1);
    assert(before + behind =~= pieces);
    lemma_pieces_of_both(before, behind, true);
    assert(piece_components(behind, false) =~= Seq::empty());
    assert(piece_components(pieces, true) =~= piece_components(before, true));
    b
}

proof fn lemma_not_first(pieces: Seq<Seq<u8>>)
    requires
        pieces.len() > 0,
        pieces[0] != seq![u8::dot()],
    ensures
        piece_components(pieces, true) == piece_components(pieces, false),
{
    let first = seq![pieces[0]];
    assert(first + pieces.skip(1) =~= pieces);
    lemma_pieces_of_both(first, pieces.skip(1), true);
    lemma_pieces_of_both(first, pieces.skip(1), false);
    assert(first.last() == pieces[0]);
    assert(piece_components(first.drop_last(), true) =~= piece_components(
        first.drop_last(),
        false,
    ));
}

/// Where what follows the first `n` components of a path stands in it, `n` being more than none
/// and fewer than all.
proof fn lemma_rest_in_pieces(p: Seq<u8>, n: int) -> (r: (int, int))
    requires
        0 < n < path::marks(p).len(),
    ensures
        ({
            let c = text::cuts(p, u8::slash());
            let pieces = text::split(p, u8::slash());
            let part = pieces.subrange(r.0, r.1 + 1);
            &&& 0 < r.0 <= r.1 < pieces.len()
            &&& path::from_component(p, n) == p.subrange(c[r.0].0, c[r.1].1)
            &&& pieces[r.0].len() > 0
            &&& pieces[r.0] != seq![u8::dot()]
            &&& piece_components(part, false) == path::components(p).skip(n)
        }),
{
    let root = root_component::<u8>(path::is_absolute(p));
    let pieces = text::split(p, u8::slash());
    let total = pieces.len() as int;
    let a = lemma_piece_of_mark(p, total, n);
    let b = lemma_last_piece(p);
    if b < a {
        lemma_marks_grow(p, b + 1, a);
    }
    assert(a > 0) by {
        if path::is_absolute(p) {
            text::lemma_cuts(p, u8::slash());
            assert(text::cuts(p, u8::slash())[0].1 == 0);
            assert(p.subrange(0, 0) =~= Seq::<u8>::empty());
        }
    }
    let part = pieces.subrange(a, b + 1);
    let before = pieces.take(a);
    assert(before + part =~= pieces.take(b + 1));
    lemma_pieces_of_both(before, part, true);
    law_components_are_pieces(p);
    lemma_count_upto(p, a);
    assert(path::components(p) =~= root + piece_components(before, true) + piece_components(
        part,
        false,
    ));
    assert(path::components(p).skip(n) =~= piece_components(part, false));
    (a, b)
}

/// What follows a directory in a path that begins with it is relative, has the components that
/// are behind that directory, and does not begin with the directory itself.
pub proof fn law_rest_has_the_other_components(p: Seq<u8>, base: Seq<u8>)
    requires
        path::starts_with_path(p, base),
        base.len() > 0,
    ensures
        ({
            let rest = path::without_prefix(p, base)->0;
            let n = path::components(base).len() as int;
            &&& !path::is_absolute(rest)
            &&& path::components(rest) == path::components(p).skip(n)
            &&& piece_components(text::split(rest, u8::slash()), false) == path::components(
                p,
            ).skip(n)
            &&& forall|i: int|
                0 <= i < path::components(rest).len() ==> !(path::components(rest)[i] is Here)
        }),
{
    let n = path::components(base).len() as int;
    let rest = path::without_prefix(p, base)->0;
    law_only_the_empty_path_has_no_components(base);
    assert(path::components(p).len() == path::marks(p).len());
    law_components_are_pieces(rest);
    if n < path::marks(p).len() {
        let (a, b) = lemma_rest_in_pieces(p, n);
        let pieces = text::split(p, u8::slash());
        let part = pieces.subrange(a, b + 1);
        text::law_joined_pieces_are_a_part(p, u8::slash(), a, b);
        assert(part[0] == pieces[a]);
        lemma_not_first(part);
        assert(!path::is_absolute(rest)) by {
            let c = text::cuts(p, u8::slash())[a];
            text::law_pieces_hold_no_separator(p, u8::slash(), a);
            text::law_joined_pieces_are_a_part(p, u8::slash(), a, a);
            assert(pieces[a].contains(pieces[a][0]));
            assert(rest.len() == 0 || rest[0] == p[c.0]);
        }
        assert(root_component::<u8>(false) + piece_components(part, true) =~= piece_components(
            part,
            true,
        ));
    } else {
        lemma_no_pieces::<u8>(true);
        lemma_no_pieces::<u8>(false);
        assert(path::components(p).skip(n) =~= Seq::empty());
        assert(path::components(rest) =~= Seq::empty());
    }
    lemma_never_here(text::split(rest, u8::slash()));
}

proof fn lemma_never_here(pieces: Seq<Seq<u8>>)
    ensures
        forall|i: int|
            0 <= i < piece_components(pieces, false).len() ==> !(#[trigger] piece_components(
                pieces,
                false,
            )[i] is Here),
    decreases pieces.len(),
{
    if pieces.len() > 0 {
        lemma_never_here(pieces.drop_last());
    }
}

/// Where the end of its last component stands in a path; what follows the empty path in it is all
/// that stands before.
proof fn lemma_rest_of_all(p: Seq<u8>, base: Seq<u8>)
    requires
        base.len() == 0,
        path::marks(p).len() > 0,
    ensures
        ({
            let end = path::marks(p).last().end;
            &&& 0 < end <= p.len()
            &&& path::without_prefix(p, base) == Some(p.take(end))
            &&& path::components(p.take(end)) == path::components(p)
            &&& end == p.len() || p[end] == u8::slash() || p.take(end) == seq![u8::slash()]
        }),
{
    let m = path::marks(p);
    let end = m.last().end;
    let pieces = text::split(p, u8::slash());
    let total = pieces.len() as int;
    let rest = p.take(end);
    law_only_the_empty_path_has_no_components(base);
    assert(path::components(p).take(0) =~= path::components(base));
    assert(path::components(p).len() == m.len());
    law_components_are_pieces(p);
    if m.len() == path::marks_upto(p, 0).len() {
        lemma_marks_are_kept(p, total, 0);
        assert(rest =~= seq![u8::slash()]);
        assert(text::join(Seq::<Seq<u8>>::empty(), u8::slash()) =~= Seq::<u8>::empty());
        law_components_of_names_behind_the_root(Seq::<Seq<u8>>::empty());
        assert(seq![u8::slash()] + Seq::<u8>::empty() =~= rest);
        lemma_count_upto(p, total);
        assert(pieces.take(total) =~= pieces);
        assert(path::components(rest) =~= path::components(p));
    } else {
        let b = lemma_last_piece(p);
        lemma_starts_at_zero(p);
        text::law_joined_pieces_are_a_part(p, u8::slash(), 0, b);
        text::law_joined_pieces_are_a_part(p, u8::slash(), b, b);
        assert(text::cuts(p, u8::slash())[0].0 == 0) by {
            text::lemma_cuts(p, u8::slash());
        }
        assert(p.subrange(0, end) =~= rest);
        assert(pieces.subrange(0, b + 1) =~= pieces.take(b + 1));
        assert(rest[0] == p[0]);
        law_components_are_pieces(rest);
        lemma_end_of_piece(p, b);
    }
}

proof fn lemma_marks_are_kept(p: Seq<u8>, k: int, i: int)
    requires
        0 <= i < path::marks_upto(p, 0).len(),
        0 <= k,
    ensures
        i < path::marks_upto(p, k).len(),
        path::marks_upto(p, k)[i] == path::marks_upto(p, 0)[i],
    decreases k,
{
    if k > 0 {
        lemma_marks_are_kept(p, k - 1, i);
    }
}

proof fn lemma_end_of_piece(p: Seq<u8>, b: int)
    requires
        0 <= b < text::cuts(p, u8::slash()).len(),
    ensures
        ({
            let end = text::cuts(p, u8::slash())[b].1;
            end == p.len() || p[end] == u8::slash()
        }),
{
    text::lemma_cuts(p, u8::slash());
    text::lemma_cuts_end_at_separators(p, u8::slash());
}

proof fn lemma_starts_at_zero(p: Seq<u8>)
    requires
        path::marks(p).len() > 0,
    ensures
        path::marks(p)[0].start == 0,
{
    let total = text::split(p, u8::slash()).len() as int;
    if path::is_absolute(p) {
        lemma_marks_are_kept(p, total, 0);
    } else {
        let a = lemma_piece_of_mark(p, total, 0);
        let c = text::cuts(p, u8::slash())[0];
        assert(c.0 == 0 && c.1 <= p.len()) by {
            text::lemma_cuts(p, u8::slash());
        }
        law_only_the_empty_path_has_no_components(p);
        assert(path::components(p).len() == path::marks(p).len());
        lemma_first_cut(p);
        assert(p.subrange(c.0, c.1).len() > 0);
        assert(path::marks_upto(p, 0).len() == 0);
        assert(path::marks_upto(p, 1).len() == 1);
        if a > 0 {
            lemma_marks_grow(p, 1, a);
        }
    }
}

/// A directory, and what follows it in a path that begins with it, make up the path.
pub proof fn law_prefix_and_rest_make_up_the_path(p: Seq<u8>, base: Seq<u8>)
    requires
        path::starts_with_path(p, base),
    ensures
        path::same_path(path::joined(base, path::without_prefix(p, base)->0), p),
{
    let rest = path::without_prefix(p, base)->0;
    law_only_the_empty_path_has_no_components(base);
    law_only_the_empty_path_has_no_components(p);
    assert(path::components(p).len() == path::marks(p).len());
    if base.len() > 0 {
        law_rest_has_the_other_components(p, base);
        law_joining_adds_components(base, rest);
        assert(path::components(path::joined(base, rest)) =~= path::components(p));
    } else {
        if p.len() > 0 {
            lemma_rest_of_all(p, base);
        } else {
            assert(rest =~= p);
        }
        assert(path::joined(base, rest) =~= rest);
    }
}

/// What follows a directory in a path that begins with it stands between separators or ends of
/// that path: where it begins and ends. The root by itself may stand before a `.`, too.
pub proof fn law_rest_is_between_separators(p: Seq<u8>, base: Seq<u8>) -> (r: (int, int))
    requires
        path::starts_with_path(p, base),
    ensures
        0 <= r.0 <= r.1 <= p.len(),
        path::without_prefix(p, base) == Some(p.subrange(r.0, r.1)),
        r.0 < r.1 ==> r.0 == 0 || p[r.0 - 1] == u8::slash(),
        r.0 < r.1 ==> r.1 == p.len() || p[r.1] == u8::slash() || p.subrange(r.0, r.1) == seq![
            u8::slash(),
        ],
{
    let n = path::components(base).len() as int;
    law_only_the_empty_path_has_no_components(base);
    assert(path::components(p).len() == path::marks(p).len());
    if n >= path::marks(p).len() {
        assert(p.subrange(0, 0) =~= Seq::<u8>::empty());
        (0, 0)
    } else if n == 0 {
        lemma_rest_of_all(p, base);
        let end = path::marks(p).last().end;
        assert(p.subrange(0, end) =~= p.take(end));
        (0, end)
    } else {
        let (a, b) = lemma_rest_in_pieces(p, n);
        text::law_joined_pieces_are_a_part(p, u8::slash(), a, b);
        lemma_end_of_piece(p, b);
        let start = text::cuts(p, u8::slash())[a].0;
        let end = text::cuts(p, u8::slash())[b].1;
        assert(p[start - 1] == u8::slash()) by {
            text::lemma_cuts(p, u8::slash());
            text::lemma_cuts_end_at_separators(p, u8::slash());
            assert(text::cuts(p, u8::slash())[a - 1].1 == start - 1);
        }
        (start, end)
    }
}

proof fn lemma_first_mark(root: bool, names: Seq<Seq<u8>>)
    requires
        are_names(names),
        root || names.len() > 0,
    ensures
        name_marks(root, names).len() > 0,
        name_marks(root, names)[0].start == 0,
        name_marks(root, names).last().end == path::path_of_names(root, names).len(),
    decreases names.len(),
{
    if names.len() == 0 {
        assert(text::join(names, u8::slash()) =~= Seq::<u8>::empty());
    } else if names.len() > 1 || root {
        assert(are_names(names.drop_last()));
        lemma_first_mark(root, names.drop_last());
    } else {
        assert(name_marks(root, names.drop_last()) =~= Seq::<Mark>::empty());
        assert(text::join(names, u8::slash()) == names[0]);
    }
}

/// A path of names from the root begins with a separator.
pub proof fn law_path_of_names_begins_at_the_root(names: Seq<Seq<u8>>)
    ensures
        path::path_of_names(true, names) == seq![47u8] + text::join(names, 47u8),
        path::path_of_names(false, names) == text::join(names, 47u8),
{
}

/// `..` takes the name before it away, and the names behind it are added to what is left; at the
/// root, or where nothing is before it, it takes nothing away.
pub proof fn law_up_takes_a_name_away(root: bool, names: Seq<Seq<u8>>, others: Seq<Seq<u8>>)
    requires
        are_names(names),
        are_names(others),
        root || names.len() > 0,
    ensures
        ({
            let up = if others.len() == 0 {
                seq![46u8, 46u8]
            } else {
                seq![46u8, 46u8, 47u8] + text::join(others, 47u8)
            };
            let left = if names.len() == 0 {
                names
            } else {
                names.drop_last()
            };
            &&& path::normalized(path::joined(path::path_of_names(root, names), up))
                == path::path_of_names(root, left + others)
            &&& path::is_absolute(path::joined(path::path_of_names(root, names), up)) == root
        }),
{
    let base = path::path_of_names(root, names);
    let dots = seq![46u8, 46u8];
    let up = if others.len() == 0 {
        dots
    } else {
        seq![46u8, 46u8, 47u8] + text::join(others, 47u8)
    };
    let left = if names.len() == 0 {
        names
    } else {
        names.drop_last()
    };
    lemma_joined_names_begin(names);
    law_components_of_path_of_names(root, names);
    law_joining_adds_components(base, up);
    assert(path::joined(base, up)[0] == base[0]);
    let pieces = seq![dots] + others;
    assert(!dots.contains(47u8));
    text::law_split_of_whole(dots, 47u8);
    if others.len() > 0 {
        assert(up =~= dots.push(47u8) + text::join(others, 47u8));
        text::law_split_of_both(dots, text::join(others, 47u8), 47u8);
        text::law_split_undoes_join(others, 47u8);
    } else {
        assert(pieces =~= seq![dots]);
    }
    lemma_pieces_of_both(seq![dots], others, false);
    lemma_name_pieces(others, false);
    assert(seq![dots].last() == dots);
    assert(piece_components(seq![dots].drop_last(), false) =~= Seq::empty());
    assert(dots != seq![46u8]);
    assert(piece_components(seq![dots], false) =~= seq![Component::<u8>::Up]);
    let r = root_component::<u8>(root);
    let c = r + as_components(names) + (seq![Component::<u8>::Up] + as_components(others));
    assert(path::components(path::joined(base, up)) =~= c);
    lemma_resolve_up(root, names, others);
    assert(c =~= r + as_components(names) + seq![Component::<u8>::Up] + as_components(others));
}

proof fn lemma_resolve_up(root: bool, names: Seq<Seq<u8>>, others: Seq<Seq<u8>>)
    ensures
        path::resolved_names(
            root_component::<u8>(root) + as_components(names) + seq![Component::<u8>::Up]
                + as_components(others),
        ) == (if names.len() == 0 {
            names
        } else {
            names.drop_last()
        }) + others,
    decreases others.len(),
{
    let before = root_component::<u8>(root) + as_components(names);
    let all = before + seq![Component::<u8>::Up] + as_components(others);
    let left = if names.len() == 0 {
        names
    } else {
        names.drop_last()
    };
    if others.len() == 0 {
        lemma_names_resolve_to_themselves(root, names);
        assert(all =~= before.push(Component::<u8>::Up));
        assert(all.drop_last() =~= before);
        assert(left + others =~= left);
    } else {
        lemma_resolve_up(root, names, others.drop_last());
        assert(all.drop_last() =~= before + seq![Component::<u8>::Up] + as_components(
            others.drop_last(),
        ));
        assert(all.last() == Component::<u8>::Name(others.last()));
        assert((left + others.drop_last()).push(others.last()) =~= left + others);
    }
}

proof fn lemma_one_piece<T: PathSymbol>(piece: Seq<T>, first: bool)
    requires
        !piece.contains(T::slash()),
    ensures
        piece_components(text::split(piece, T::slash()), first) == match component_of(
            piece,
            first,
        ) {
            Some(c) => seq![c],
            None => Seq::empty(),
        },
{
    text::law_split_of_whole(piece, T::slash());
    let pieces = seq![piece];
    assert(pieces.drop_last() =~= Seq::empty());
    assert(piece_components(pieces.drop_last(), first) =~= Seq::empty());
    assert(pieces.last() == piece);
    match component_of(piece, first) {
        Some(c) => {
            assert(piece_components(pieces, first) =~= seq![c]);
        },
        None => {},
    }
}

/// What stands behind the last separator is the last component: `..` leads up, anything else is a
/// name, and `.` and nothing add no component.
pub proof fn law_components_come_piece_by_piece<T: PathSymbol>(a: Seq<T>, piece: Seq<T>)
    requires
        a.len() > 0,
        !piece.contains(T::slash()),
    ensures
        piece.len() == 0 ==> path::components(a.push(T::slash()) + piece) == path::components(a),
        piece.len() == 1 && piece[0] == T::dot() ==> path::components(a.push(T::slash()) + piece)
            == path::components(a),
        piece.len() == 2 && piece[0] == T::dot() && piece[1] == T::dot() ==> path::components(
            a.push(T::slash()) + piece,
        ) == path::components(a).push(Component::Up),
        piece.len() > 2 || (piece.len() > 0 && piece[0] != T::dot()) || (piece.len() == 2
            && piece[1] != T::dot()) ==> path::components(a.push(T::slash()) + piece)
            == path::components(a).push(Component::Name(piece)),
{
    law_components_of_both(a, piece);
    lemma_one_piece(piece, false);
    if piece.len() == 1 && piece[0] == T::dot() {
        assert(piece =~= seq![T::dot()]);
    }
    if piece.len() == 2 && piece[0] == T::dot() && piece[1] == T::dot() {
        assert(piece =~= seq![T::dot(), T::dot()]);
    }
    let last = component_of(piece, false);
    if last is Some {
        assert(path::components(a) + seq![last->0] =~= path::components(a).push(last->0));
    } else {
        assert(path::components(a) + Seq::<Component<T>>::empty() =~= path::components(a));
    }
}

/// A path without separators is one component: `.` is the directory itself, `..` leads up,
/// anything else is a name, and nothing is no component.
pub proof fn law_components_of_one_piece<T: PathSymbol>(piece: Seq<T>)
    requires
        !piece.contains(T::slash()),
    ensures
        piece.len() == 0 ==> path::components(piece) == Seq::<Component<T>>::empty(),
        piece.len() == 1 && piece[0] == T::dot() ==> path::components(piece) == seq![
            Component::<T>::Here,
        ],
        piece.len() == 2 && piece[0] == T::dot() && piece[1] == T::dot() ==> path::components(piece)
            == seq![Component::<T>::Up],
        piece.len() > 2 || (piece.len() > 0 && piece[0] != T::dot()) || (piece.len() == 2
            && piece[1] != T::dot()) ==> path::components(piece) == seq![Component::Name(piece)],
{
    law_components_are_pieces(piece);
    if piece.len() > 0 && piece[0] == T::slash() {
        assert(piece.contains(piece[0]));
    }
    lemma_one_piece(piece, true);
    if piece.len() == 1 && piece[0] == T::dot() {
        assert(piece =~= seq![T::dot()]);
    }
    if piece.len() == 2 && piece[0] == T::dot() && piece[1] == T::dot() {
        assert(piece =~= seq![T::dot(), T::dot()]);
    }
    let only = component_of(piece, true);
    let none = Seq::<Component<T>>::empty();
    if only is Some {
        assert(none + seq![only->0] =~= seq![only->0]);
    } else {
        assert(none + none =~= none);
    }
}

/// A separator at the beginning of a path is the root, and what follows it has the components that
/// it has behind any other separator.
pub proof fn law_root_stands_before_the_first_piece<T: PathSymbol>(piece: Seq<T>)
    requires
        !piece.contains(T::slash()),
    ensures
        piece.len() == 0 || (piece.len() == 1 && piece[0] == T::dot()) ==> path::components(
            seq![T::slash()] + piece,
        ) == seq![Component::<T>::Root],
        piece.len() == 2 && piece[0] == T::dot() && piece[1] == T::dot() ==> path::components(
            seq![T::slash()] + piece,
        ) == seq![Component::<T>::Root, Component::<T>::Up],
        piece.len() > 2 || (piece.len() > 0 && piece[0] != T::dot()) || (piece.len() == 2
            && piece[1] != T::dot()) ==> path::components(seq![T::slash()] + piece) == seq![
            Component::Root,
            Component::Name(piece),
        ],
{
    let none = Seq::<T>::empty();
    let p = seq![T::slash()] + piece;
    assert(p =~= none.push(T::slash()) + piece);
    law_components_are_pieces(p);
    text::law_split_of_both(none, piece, T::slash());
    lemma_no_pieces::<T>(true);
    lemma_pieces_of_both(seq![none], text::split(piece, T::slash()), true);
    lemma_one_piece(piece, false);
    if piece.len() == 1 && piece[0] == T::dot() {
        assert(piece =~= seq![T::dot()]);
    }
    if piece.len() == 2 && piece[0] == T::dot() && piece[1] == T::dot() {
        assert(piece =~= seq![T::dot(), T::dot()]);
    }
    let root = seq![Component::<T>::Root];
    let nothing = Seq::<Component<T>>::empty();
    let last = component_of(piece, false);
    if last is Some {
        assert(root + (nothing + seq![last->0]) =~= seq![Component::Root, last->0]);
    } else {
        assert(root + (nothing + nothing) =~= root);
    }
}

/// The last component gives a path its name, where it is a name.
pub proof fn law_last_name_of_a_path(dir: Seq<u8>, name: Seq<u8>)
    requires
        !name.contains(47u8),
    ensures
        is_name(name) ==> path::file_name(dir.push(47u8) + name) == Some(name),
        name.len() == 2 && name[0] == 46u8 && name[1] == 46u8 ==> path::file_name(
            dir.push(47u8) + name,
        ) is None,
{
    let p = dir.push(47u8) + name;
    let found = path::components(p);
    if dir.len() > 0 {
        law_components_come_piece_by_piece(dir, name);
    } else {
        assert(p =~= seq![47u8] + name);
        law_root_stands_before_the_first_piece(name);
    }
    if is_name(name) {
        if name.len() == 1 && name[0] == 46u8 {
            assert(name =~= seq![46u8]);
        }
        if name.len() == 2 && name[0] == 46u8 && name[1] == 46u8 {
            assert(name =~= seq![46u8, 46u8]);
        }
        assert(found.last() == Component::Name(name));
    }
    let m = path::marks(p);
    assert(m.len() == found.len());
    if found.len() > 0 {
        assert(found.last() == path::component_at(p, m.last()));
    }
}

/// A path that begins at the root is the same from everywhere; another one follows the directory
/// that it is seen from, with one separator between them.
pub proof fn law_joining_puts_one_separator(base: Seq<u8>, p: Seq<u8>)
    ensures
        p.len() > 0 && p[0] == 47u8 ==> path::joined(base, p) == p,
        p.len() == 0 || p[0] != 47u8 ==> {
            &&& base.len() == 0 ==> path::joined(base, p) == p
            &&& base.len() > 0 && base[base.len() - 1] == 47u8 ==> path::joined(base, p) == base + p
            &&& base.len() > 0 && base[base.len() - 1] != 47u8 ==> path::joined(base, p) == base
                + seq![47u8] + p
        },
{
    if base.len() == 0 {
        assert(base + p =~= p);
    }
    assert(base.push(47u8) =~= base + seq![47u8]);
}

/// The normal form of a path begins at the root where the path does; a name adds itself to it,
/// `..` takes the last name away, where there is one, and `.` and needless separators change
/// nothing.
pub proof fn law_normal_form_comes_piece_by_piece(a: Seq<u8>, piece: Seq<u8>, names: Seq<Seq<u8>>)
    requires
        a.len() > 0,
        !piece.contains(47u8),
        are_names(names),
        path::normalized(a) == path::path_of_names(a[0] == 47u8, names),
    ensures
        ({
            let next = path::normalized(a.push(47u8) + piece);
            let root = a[0] == 47u8;
            &&& piece.len() == 0 || (piece.len() == 1 && piece[0] == 46u8) ==> next
                == path::normalized(a)
            &&& piece.len() == 2 && piece[0] == 46u8 && piece[1] == 46u8 ==> next
                == path::path_of_names(
                root,
                if names.len() == 0 {
                    names
                } else {
                    names.drop_last()
                },
            )
            &&& piece.len() > 2 || (piece.len() > 0 && piece[0] != 46u8) || (piece.len() == 2
                && piece[1] != 46u8) ==> next == path::path_of_names(root, names.push(piece))
        }),
{
    let p = a.push(47u8) + piece;
    let found = path::components(a);
    assert(p[0] == a[0]);
    law_components_come_piece_by_piece(a, piece);
    law_resolved_names_are_names(a);
    lemma_same_names(a[0] == 47u8, path::resolved_names(found), names);
    assert(found.push(Component::Up).drop_last() =~= found);
    assert(found.push(Component::Name(piece)).drop_last() =~= found);
}

proof fn lemma_same_names(root: bool, a: Seq<Seq<u8>>, b: Seq<Seq<u8>>)
    requires
        are_names(a),
        are_names(b),
        path::path_of_names(root, a) == path::path_of_names(root, b),
    ensures
        a == b,
{
    law_components_of_path_of_names(root, a);
    law_components_of_path_of_names(root, b);
    let first = root_component::<u8>(root);
    let k = first.len() as int;
    let c = first + as_components(a);
    let d = first + as_components(b);
    assert(c == d);
    assert(a.len() == b.len());
    assert forall|i: int| 0 <= i < a.len() implies a[i] == b[i] by {
        assert(c[k + i] == Component::Name(a[i]));
        assert(d[k + i] == Component::Name(b[i]));
    }
    assert(a =~= b);
}

/// A path that does not begin with a separator has no root among its components.
pub proof fn lemma_only_the_first_is_the_root<T: PathSymbol>(p: Seq<T>, i: int)
    requires
        p.len() == 0 || p[0] != T::slash(),
        0 <= i < path::components(p).len(),
    ensures
        !(path::components(p)[i] is Root),
{
    law_components_are_pieces(p);
    let pieces = text::split(p, T::slash());
    lemma_no_root_in_pieces(pieces, true, i);
    assert(path::components(p) =~= piece_components(pieces, true));
}

proof fn lemma_no_root_in_pieces<T: PathSymbol>(pieces: Seq<Seq<T>>, first: bool, i: int)
    requires
        0 <= i < piece_components(pieces, first).len(),
    ensures
        !(piece_components(pieces, first)[i] is Root),
    decreases pieces.len(),
{
    if pieces.len() > 0 {
        let before = piece_components(pieces.drop_last(), first);
        if i < before.len() {
            lemma_no_root_in_pieces(pieces.drop_last(), first, i);
        }
    }
}

proof fn lemma_root_comes_first(p: Seq<u8>, k: int)
    requires
        p.len() > 0 && p[0] == 47u8,
        0 <= k,
    ensures
        path::marks_upto(p, k).len() > 0,
        path::marks_upto(p, k)[0] == (Mark { part: Part::Root, start: 0, end: 1 }),
    decreases k,
{
    if k > 0 {
        lemma_root_comes_first(p, k - 1);
    }
}

proof fn lemma_first_components(p: Seq<u8>, k: int, q: Seq<u8>)
    requires
        0 < k <= text::split(p, u8::slash()).len(),
        text::split(q, u8::slash()) == text::split(p, u8::slash()).take(k),
        q.len() > 0,
        p.len() > 0,
        q[0] == p[0],
    ensures
        ({
            let n = root_component::<u8>(path::is_absolute(p)).len() + piece_components(
                text::split(p, u8::slash()).take(k),
                true,
            ).len();
            &&& n <= path::components(p).len()
            &&& path::components(q) == path::components(p).take(n as int)
        }),
{
    let pieces = text::split(p, u8::slash());
    let first = pieces.take(k);
    let behind = pieces.skip(k);
    law_components_are_pieces(p);
    law_components_are_pieces(q);
    assert(first + behind =~= pieces);
    lemma_pieces_of_both(first, behind, true);
    let n = path::components(q).len() as int;
    assert(path::components(p) =~= path::components(q) + piece_components(behind, false));
    assert(path::components(p).take(n) =~= path::components(q));
}

proof fn lemma_before_the_last_component(p: Seq<u8>, n: int)
    requires
        path::marks_upto(p, 0).len() <= n < path::marks(p).len(),
    ensures
        0 < path::marks(p)[n].end <= p.len(),
        path::components(p.take(path::marks(p)[n].end)) == path::components(p).take(n + 1),
{
    let pieces = text::split(p, u8::slash());
    let total = pieces.len() as int;
    let j = lemma_piece_of_mark(p, total, n);
    let c = text::cuts(p, u8::slash())[j];
    let q = p.take(c.1);
    let first = pieces.take(j + 1);
    text::law_joined_pieces_are_a_part(p, u8::slash(), 0, j);
    assert(text::cuts(p, u8::slash())[0].0 == 0 && 0 <= c.0 <= c.1 <= p.len()) by {
        text::lemma_cuts(p, u8::slash());
    }
    assert(p.subrange(0, c.1) =~= q);
    assert(pieces.subrange(0, j + 1) =~= first);
    assert(c.0 < c.1) by {
        if c.0 == c.1 {
            assert(p.subrange(c.0, c.1).len() == 0);
        }
    }
    lemma_first_components(p, j + 1, q);
    lemma_count_upto(p, j + 1);
}

/// A path without its last component is a beginning of the path and has the other components; the
/// root by itself and the empty path have no parent.
pub proof fn law_parents_have_the_other_components(p: Seq<u8>)
    ensures
        ({
            let all = path::components(p);
            let is_root = all.len() == 1 && all[0] is Root;
            &&& all.len() == 0 || is_root ==> path::parent(p) is None
            &&& all.len() > 0 && !is_root ==> {
                &&& path::parent(p) is Some
                &&& path::components(path::parent(p)->0) == all.drop_last()
                &&& path::parent(p)->0.len() <= p.len()
                &&& path::parent(p)->0 == p.take(path::parent(p)->0.len() as int)
            }
        }),
{
    let all = path::components(p);
    let m = path::marks(p);
    let n = m.len() - 2;
    assert(m.len() == all.len());
    if m.len() > 0 {
        assert(all.last() == path::component_at(p, m.last()));
        if m.last().part == Part::Root && m.len() > 1 {
            lemma_last_is_no_root(p);
        }
    }
    if m.len() == 1 {
        let none = Seq::<u8>::empty();
        law_components_of_one_piece(none);
        assert(all.drop_last() =~= Seq::empty());
        assert(p.take(0) =~= none);
    } else if m.len() > 1 {
        if n < path::marks_upto(p, 0).len() {
            lemma_root_comes_first(p, text::cuts(p, u8::slash()).len() as int);
            law_components_are_pieces(p);
            assert(all[0] is Root);
            assert(p.take(1) =~= seq![47u8] + Seq::<u8>::empty());
            law_root_stands_before_the_first_piece(Seq::<u8>::empty());
            assert(all.drop_last() =~= seq![Component::<u8>::Root]);
        } else {
            lemma_before_the_last_component(p, n);
            assert(all.drop_last() =~= all.take(n + 1));
        }
    }
}

proof fn lemma_last_is_no_root(p: Seq<u8>)
    requires
        path::components(p).len() > 1,
    ensures
        !(path::components(p).last() is Root),
{
    let pieces = text::split(p, u8::slash());
    let root = root_component::<u8>(path::is_absolute(p));
    let others = piece_components(pieces, true);
    law_components_are_pieces(p);
    assert(path::components(p).last() == others.last());
    lemma_no_root_in_pieces(pieces, true, others.len() - 1);
}

/// A path is named by its last component, where that is a name.
pub proof fn law_names_are_last_components(p: Seq<u8>, name: Seq<u8>)
    ensures
        path::file_name(p) == Some(name) <==> path::components(p).len() > 0 && path::components(
            p,
        ).last() == Component::Name(name),
{
    let m = path::marks(p);
    if m.len() > 0 {
        assert(path::components(p).last() == path::component_at(p, m.last()));
    }
}

/// Popping a path gives its parent, and leaves a path without one as it is.
pub proof fn law_popping_gives_the_parent(p: Seq<u8>, n: nat)
    ensures
        path::parent(p) is Some ==> path::popped(p) == path::parent(p)->0,
        path::parent(p) is None ==> path::popped(p) == p,
        path::popped_times(p, 0) == p,
        path::popped_times(p, n + 1) == path::popped(path::popped_times(p, n)),
{
}

} // verus!
