//! Text as sequences of symbols: comparing, searching, splitting, joining.

use vstd::prelude::*;

verus! {

broadcast use vstd::string::group_string_axioms;

/// `String::push` appends one character.
pub assume_specification[ String::push ](s: &mut String, c: char)
    ensures
        final(s)@ == old(s)@.push(c),
;

/// A symbol of text: a character of a `str`, or a byte of a path or a file.
pub trait Symbol: Copy {
    /// Whether two symbols are the same.
    fn same(self, other: Self) -> (r: bool)
        ensures
            r == (self == other),
    ;
}

impl Symbol for char {
    fn same(self, other: Self) -> (r: bool) {
        self == other
    }
}

impl Symbol for u8 {
    fn same(self, other: Self) -> (r: bool) {
        self == other
    }
}

/// The texts of a sequence of strings.
pub open spec fn texts(strings: Seq<String>) -> Seq<Seq<char>> {
    strings.map_values(|s: String| s@)
}

/// The contents of a sequence of vectors.
pub open spec fn contents<T>(vectors: Seq<Vec<T>>) -> Seq<Seq<T>> {
    vectors.map_values(|v: Vec<T>| v@)
}

/// The text of an optional string.
pub open spec fn text_option(s: Option<String>) -> Option<Seq<char>> {
    match s {
        Some(s) => Some(s@),
        None => None,
    }
}

/// The text of an optional borrowed string.
pub open spec fn str_option(s: Option<&str>) -> Option<Seq<char>> {
    match s {
        Some(s) => Some(s@),
        None => None,
    }
}

/// The characters of `s`, in order.
pub fn chars_of(s: &str) -> (out: Vec<char>)
    ensures
        out@ == s@,
{
    let mut out: Vec<char> = Vec::new();
    for c in it: s.chars()
        invariant
            it.seq() == s@,
            out@ == s@.take(it.index() as int),
    {
        out.push(c);
        assert(out@ == s@.take(it.index() as int + 1));
    }
    assert(s@.take(s@.len() as int) == s@);
    out
}

/// The text whose characters are `chars`.
pub fn string_of(chars: &[char]) -> (out: String)
    ensures
        out@ == chars@,
{
    let mut out = String::new();
    let mut i: usize = 0;
    while i < chars.len()
        invariant
            i <= chars@.len(),
            out@ == chars@.take(i as int),
        decreases chars@.len() - i,
    {
        out.push(chars[i]);
        i += 1;
        assert(chars@.take(i as int) == chars@.take(i as int - 1).push(chars@[i as int - 1]));
    }
    assert(chars@.take(chars@.len() as int) == chars@);
    out
}

/// Whether two pieces of text are the same.
pub fn same_text<T: Symbol>(a: &[T], b: &[T]) -> (r: bool)
    ensures
        r == (a@ == b@),
{
    if a.len() != b.len() {
        return false;
    }
    let mut i: usize = 0;
    while i < a.len()
        invariant
            i <= a@.len(),
            a@.len() == b@.len(),
            forall|j: int| 0 <= j < i ==> a@[j] == b@[j],
        decreases a@.len() - i,
    {
        if !a[i].same(b[i]) {
            return false;
        }
        i += 1;
    }
    assert(a@ =~= b@);
    true
}

/// Whether `s` has the text of `other`.
pub fn same_str(s: &str, other: &str) -> (r: bool)
    ensures
        r == (s@ == other@),
{
    let a = chars_of(s);
    let b = chars_of(other);
    same_text(a.as_slice(), b.as_slice())
}

/// Whether `s` begins with `prefix`.
pub open spec fn begins<T>(s: Seq<T>, prefix: Seq<T>) -> bool {
    prefix.len() <= s.len() && s.take(prefix.len() as int) == prefix
}

/// Whether `s` begins with `prefix`.
pub fn begins_with<T: Symbol>(s: &[T], prefix: &[T]) -> (r: bool)
    ensures
        r == begins(s@, prefix@),
{
    if s.len() < prefix.len() {
        return false;
    }
    let mut i: usize = 0;
    while i < prefix.len()
        invariant
            i <= prefix@.len() <= s@.len(),
            forall|j: int| 0 <= j < i ==> s@[j] == prefix@[j],
        decreases prefix@.len() - i,
    {
        if !s[i].same(prefix[i]) {
            assert(s@.take(prefix@.len() as int)[i as int] != prefix@[i as int]);
            return false;
        }
        i += 1;
    }
    assert(s@.take(prefix@.len() as int) =~= prefix@);
    true
}

/// Whether `needle` occurs in `s`, its symbols one after the other.
pub open spec fn has_infix<T>(s: Seq<T>, needle: Seq<T>) -> bool {
    exists|k: int| 0 <= k <= s.len() && begins(#[trigger] s.skip(k), needle)
}

/// Whether `needle` occurs in `s`.
pub fn contains_text<T: Symbol>(s: &[T], needle: &[T]) -> (r: bool)
    ensures
        r == has_infix(s@, needle@),
{
    let mut k: usize = 0;
    while k < s.len()
        invariant
            k <= s@.len(),
            forall|j: int| 0 <= j < k ==> !begins(#[trigger] s@.skip(j), needle@),
        decreases s@.len() - k,
    {
        let rest = vstd::slice::slice_subrange(s, k, s.len());
        assert(rest@ =~= s@.skip(k as int));
        if begins_with(rest, needle) {
            return true;
        }
        k += 1;
    }
    let rest = vstd::slice::slice_subrange(s, k, s.len());
    assert(rest@ =~= s@.skip(k as int));
    begins_with(rest, needle)
}

/// Whether the symbol `c` occurs in `s`.
pub fn contains_symbol<T: Symbol>(s: &[T], c: T) -> (r: bool)
    ensures
        r == s@.contains(c),
{
    let mut k: usize = 0;
    while k < s.len()
        invariant
            k <= s@.len(),
            forall|j: int| 0 <= j < k ==> s@[j] != c,
        decreases s@.len() - k,
    {
        if s[k].same(c) {
            return true;
        }
        k += 1;
    }
    false
}

/// Where `c` occurs first in `s`; the length of `s` where it does not occur.
pub open spec fn first_index<T>(s: Seq<T>, c: T) -> int
    decreases s.len(),
{
    if s.len() == 0 || s[0] == c {
        0
    } else {
        1 + first_index(s.drop_first(), c)
    }
}

proof fn lemma_first_index<T>(s: Seq<T>, c: T, k: int)
    requires
        0 <= k <= s.len(),
        forall|j: int| 0 <= j < k ==> s[j] != c,
        k < s.len() ==> s[k] == c,
    ensures
        first_index(s, c) == k,
    decreases s.len(),
{
    if k > 0 {
        let t = s.drop_first();
        assert forall|j: int| 0 <= j < k - 1 implies t[j] != c by {
            assert(t[j] == s[j + 1]);
        }
        lemma_first_index(t, c, k - 1);
    }
}

/// What stands before and what stands after the first `c`, if `c` occurs.
pub open spec fn split_first<T>(s: Seq<T>, c: T) -> Option<(Seq<T>, Seq<T>)> {
    let k = first_index(s, c);
    if k < s.len() {
        Some((s.take(k), s.skip(k + 1)))
    } else {
        None
    }
}

/// The sides of the first `c` are what was written before and behind it, where no `c` stands
/// before it.
pub proof fn law_sides_are_read_back<T>(a: Seq<T>, c: T, b: Seq<T>)
    requires
        !a.contains(c),
    ensures
        split_first(a.push(c) + b, c) == Some((a, b)),
{
    let s = a.push(c) + b;
    let k = a.len() as int;
    assert forall|j: int| 0 <= j < k implies s[j] != c by {
        assert(a.contains(a[j]));
    }
    lemma_first_index(s, c, k);
    assert(s.take(k) =~= a);
    assert(s.skip(k + 1) =~= b);
}

/// A text in which `c` does not occur has no sides.
pub proof fn law_no_sides<T>(s: Seq<T>, c: T)
    requires
        !s.contains(c),
    ensures
        split_first(s, c) is None,
{
    assert forall|j: int| 0 <= j < s.len() implies s[j] != c by {
        assert(s.contains(s[j]));
    }
    lemma_first_index(s, c, s.len() as int);
}

/// A text begins with what stands first in it, and with nothing else of that length.
pub proof fn law_texts_begin_with_what_stands_first<T>(first: Seq<T>, rest: Seq<T>, other: Seq<T>)
    ensures
        begins(first + rest, first),
        begins(first + rest, other) && other.len() == first.len() ==> other == first,
        other.len() > (first + rest).len() ==> !begins(first + rest, other),
{
    assert((first + rest).take(first.len() as int) =~= first);
}

/// A text occurs in another where that is made of something, the text, and something more.
pub proof fn law_texts_occur_between_others<T>(
    s: Seq<T>,
    before: Seq<T>,
    needle: Seq<T>,
    after: Seq<T>,
)
    ensures
        has_infix(before + needle + after, needle),
        has_infix(s, needle) ==> exists|k: int|
            0 <= k <= s.len() - needle.len() && #[trigger] s.subrange(k, k + needle.len())
                == needle,
{
    let all = before + needle + after;
    let k = before.len() as int;
    assert(all.skip(k).take(needle.len() as int) =~= needle);
    assert(begins(all.skip(k), needle));
    if has_infix(s, needle) {
        let k = choose|k: int| 0 <= k <= s.len() && begins(#[trigger] s.skip(k), needle);
        assert(s.subrange(k, k + needle.len()) =~= s.skip(k).take(needle.len() as int));
    }
}

/// Joined pieces are the first piece, and then the separator and a piece for each other one.
pub proof fn law_joining_adds_a_separator_and_a_piece<T>(
    pieces: Seq<Seq<T>>,
    piece: Seq<T>,
    sep: T,
)
    ensures
        join(seq![piece], sep) == piece,
        pieces.len() > 0 ==> join(pieces.push(piece), sep) == join(pieces, sep) + seq![sep] + piece,
{
    if pieces.len() > 0 {
        assert(pieces.push(piece).drop_last() =~= pieces);
        assert(join(pieces, sep).push(sep) =~= join(pieces, sep) + seq![sep]);
    }
}

/// The two sides of the first `c` in `s`, as in `str::split_once`.
pub fn split_once<T: Symbol>(s: &[T], c: T) -> (r: Option<(&[T], &[T])>)
    ensures
        match r {
            Some(sides) => split_first(s@, c) == Some((sides.0@, sides.1@)),
            None => split_first(s@, c) is None,
        },
{
    let mut k: usize = 0;
    while k < s.len()
        invariant
            k <= s@.len(),
            forall|j: int| 0 <= j < k ==> s@[j] != c,
        decreases s@.len() - k,
    {
        if s[k].same(c) {
            proof {
                lemma_first_index(s@, c, k as int);
            }
            let before = vstd::slice::slice_subrange(s, 0, k);
            let after = vstd::slice::slice_subrange(s, k + 1, s.len());
            assert(before@ =~= s@.take(k as int));
            assert(after@ =~= s@.skip(k as int + 1));
            return Some((before, after));
        }
        k += 1;
    }
    proof {
        lemma_first_index(s@, c, k as int);
    }
    None
}

/// Where the pieces of `s` between the symbols `sep` start and end.
pub open spec fn cuts<T>(s: Seq<T>, sep: T) -> Seq<(int, int)>
    decreases s.len(),
{
    if s.len() == 0 {
        seq![(0int, 0int)]
    } else {
        let before = cuts(s.drop_last(), sep);
        let n = s.len() as int;
        if s.last() == sep {
            before.push((n, n))
        } else {
            before.update(before.len() - 1, (before.last().0, n))
        }
    }
}

/// The pieces of `s` between the symbols `sep`; one piece where there is none.
pub open spec fn split<T>(s: Seq<T>, sep: T) -> Seq<Seq<T>> {
    cuts(s, sep).map_values(|c: (int, int)| s.subrange(c.0, c.1))
}

/// The cuts of `s` lie in `s`, the first begins and the last ends it, each begins one
/// symbol behind the one before, and no piece holds the separator.
pub proof fn lemma_cuts<T>(s: Seq<T>, sep: T)
    ensures
        cuts(s, sep).len() > 0,
        cuts(s, sep)[0].0 == 0,
        cuts(s, sep).last().1 == s.len(),
        forall|i: int|
            0 <= i < cuts(s, sep).len() ==> 0 <= (#[trigger] cuts(s, sep)[i]).0 <= cuts(s, sep)[i].1
                <= s.len(),
        forall|i: int, k: int|
            #![trigger cuts(s, sep)[i], s[k]]
            0 <= i < cuts(s, sep).len() && cuts(s, sep)[i].0 <= k < cuts(s, sep)[i].1 ==> s[k]
                != sep,
        forall|i: int|
            1 <= i < cuts(s, sep).len() ==> (#[trigger] cuts(s, sep)[i]).0 == cuts(s, sep)[i - 1].1 + 1,
    decreases s.len(),
{
    if s.len() > 0 {
        let t = s.drop_last();
        lemma_cuts(t, sep);
        let before = cuts(t, sep);
        let now = cuts(s, sep);
        assert forall|i: int, k: int|
            #![trigger now[i], s[k]]
            0 <= i < now.len() && now[i].0 <= k < now[i].1 implies s[k] != sep by {
            if k < t.len() {
                assert(s[k] == t[k]);
                assert(i < before.len());
                assert(before[i].0 <= k < before[i].1);
            }
        }
        assert forall|i: int| 1 <= i < now.len() implies (#[trigger] now[i]).0 == now[i - 1].1
            + 1 by {
            if i < before.len() {
                assert(before[i].0 == before[i - 1].1 + 1);
            }
        }
    }
}

/// The cuts of `s`, as `cuts` says.
pub fn cut<T: Symbol>(s: &[T], sep: T) -> (out: Vec<(usize, usize)>)
    ensures
        out@.len() == cuts(s@, sep).len(),
        forall|i: int|
            0 <= i < out@.len() ==> (#[trigger] out@[i]).0 == cuts(s@, sep)[i].0 && out@[i].1
                == cuts(s@, sep)[i].1,
{
    let mut out: Vec<(usize, usize)> = Vec::new();
    let mut start: usize = 0;
    let mut i: usize = 0;
    assert(s@.take(0).len() == 0);
    while i < s.len()
        invariant
            i <= s@.len(),
            start <= i,
            cuts(s@.take(i as int), sep).len() == out@.len() + 1,
            cuts(s@.take(i as int), sep).last() == (start as int, i as int),
            forall|j: int|
                0 <= j < out@.len() ==> (#[trigger] out@[j]).0 == cuts(s@.take(i as int), sep)[j].0
                    && out@[j].1 == cuts(s@.take(i as int), sep)[j].1,
        decreases s@.len() - i,
    {
        assert(s@.take(i as int + 1).drop_last() =~= s@.take(i as int));
        if s[i].same(sep) {
            out.push((start, i));
            start = i + 1;
        }
        i += 1;
    }
    assert(s@.take(i as int) =~= s@);
    out.push((start, i));
    out
}

/// The pieces of `s` between the symbols `sep`, as in `str::split`.
pub fn split_all(s: &[char], sep: char) -> (out: Vec<String>)
    ensures
        texts(out@) == split(s@, sep),
{
    let marks = cut(s, sep);
    proof {
        lemma_cuts(s@, sep);
    }
    let mut out: Vec<String> = Vec::new();
    let mut i: usize = 0;
    while i < marks.len()
        invariant
            i <= marks@.len(),
            out@.len() == i,
            marks@.len() == cuts(s@, sep).len(),
            forall|j: int|
                0 <= j < marks@.len() ==> (#[trigger] marks@[j]).0 == cuts(s@, sep)[j].0
                    && marks@[j].1 == cuts(s@, sep)[j].1,
            forall|j: int|
                0 <= j < cuts(s@, sep).len() ==> 0 <= (#[trigger] cuts(s@, sep)[j]).0 <= cuts(
                    s@,
                    sep,
                )[j].1 <= s@.len(),
            forall|j: int| 0 <= j < i ==> (#[trigger] out@[j])@ == split(s@, sep)[j],
        decreases marks@.len() - i,
    {
        let (start, end) = marks[i];
        assert(cuts(s@, sep)[i as int].1 == end);
        out.push(string_of(vstd::slice::slice_subrange(s, start, end)));
        i += 1;
    }
    assert(texts(out@) =~= split(s@, sep));
    out
}

/// The pieces with the separator between each two.
pub open spec fn join<T>(pieces: Seq<Seq<T>>, sep: T) -> Seq<T>
    decreases pieces.len(),
{
    if pieces.len() == 0 {
        Seq::empty()
    } else if pieces.len() == 1 {
        pieces[0]
    } else {
        join(pieces.drop_last(), sep).push(sep) + pieces.last()
    }
}

/// The strings with the separator between each two, as in `[String]::join`.
pub fn join_all(pieces: &[String], sep: char) -> (out: String)
    ensures
        out@ == join(texts(pieces@), sep),
{
    let ghost all = texts(pieces@);
    let mut out = String::new();
    let mut i: usize = 0;
    while i < pieces.len()
        invariant
            i <= pieces@.len(),
            all == texts(pieces@),
            out@ == join(all.take(i as int), sep),
        decreases pieces@.len() - i,
    {
        if i > 0 {
            out.push(sep);
        }
        out.append(pieces[i].as_str());
        assert(all.take(i as int + 1).drop_last() =~= all.take(i as int));
        assert(all.take(i as int + 1).last() == pieces@[i as int]@);
        i += 1;
    }
    assert(all.take(i as int) =~= all);
    out
}

/// The cuts of two texts with the separator between them are those of the first, then those of the
/// second behind it.
pub proof fn lemma_cuts_of_both<T>(a: Seq<T>, b: Seq<T>, sep: T)
    ensures
        cuts(a.push(sep) + b, sep) == cuts(a, sep) + cuts(b, sep).map_values(
            |c: (int, int)| (c.0 + a.len() + 1, c.1 + a.len() + 1),
        ),
    decreases b.len(),
{
    let s = a.push(sep) + b;
    let shifted = cuts(b, sep).map_values(
        |c: (int, int)| (c.0 + a.len() + 1, c.1 + a.len() + 1),
    );
    if b.len() == 0 {
        assert(s =~= a.push(sep));
        assert(s.drop_last() =~= a);
        assert(cuts(s, sep) =~= cuts(a, sep) + shifted);
    } else {
        assert(s.drop_last() =~= a.push(sep) + b.drop_last());
        assert(s.last() == b.last());
        lemma_cuts_of_both(a, b.drop_last(), sep);
        lemma_cuts(b.drop_last(), sep);
        assert(cuts(s, sep) =~= cuts(a, sep) + shifted);
    }
}

/// The pieces of two texts with the separator between them are those of the first, then those
/// of the second.
pub proof fn law_split_of_both<T>(a: Seq<T>, b: Seq<T>, sep: T)
    ensures
        split(a.push(sep) + b, sep) == split(a, sep) + split(b, sep),
{
    let s = a.push(sep) + b;
    lemma_cuts_of_both(a, b, sep);
    lemma_cuts(a, sep);
    lemma_cuts(b, sep);
    assert forall|i: int| 0 <= i < split(s, sep).len() implies #[trigger] split(s, sep)[i] == (split(
        a,
        sep,
    ) + split(b, sep))[i] by {
        let n = cuts(a, sep).len();
        if i < n {
            let c = cuts(a, sep)[i];
            assert(s.subrange(c.0, c.1) =~= a.subrange(c.0, c.1));
        } else {
            let c = cuts(b, sep)[i - n];
            assert(s.subrange(c.0 + a.len() + 1, c.1 + a.len() + 1) =~= b.subrange(c.0, c.1));
        }
    }
    assert(split(s, sep) =~= split(a, sep) + split(b, sep));
}

/// A text without the separator is cut once, from its beginning to its end.
pub proof fn lemma_cuts_of_whole<T>(s: Seq<T>, sep: T)
    requires
        !s.contains(sep),
    ensures
        cuts(s, sep) == seq![(0int, s.len() as int)],
    decreases s.len(),
{
    if s.len() > 0 {
        assert forall|i: int| 0 <= i < s.len() - 1 implies s.drop_last()[i] != sep by {
            assert(s[i] == s.drop_last()[i]);
        }
        lemma_cuts_of_whole(s.drop_last(), sep);
        assert(s.contains(s.last()));
    }
    assert(cuts(s, sep) =~= seq![(0int, s.len() as int)]);
}

/// A text without the separator is one piece.
pub proof fn law_split_of_whole<T>(s: Seq<T>, sep: T)
    requires
        !s.contains(sep),
    ensures
        split(s, sep) == seq![s],
{
    lemma_cuts_of_whole(s, sep);
    assert(s.subrange(0, s.len() as int) =~= s);
    assert(split(s, sep) =~= seq![s]);
}

/// Splitting undoes joining, where there is a piece and none holds the separator.
pub proof fn law_split_undoes_join<T>(pieces: Seq<Seq<T>>, sep: T)
    requires
        pieces.len() > 0,
        forall|i: int| 0 <= i < pieces.len() ==> !(#[trigger] pieces[i]).contains(sep),
    ensures
        split(join(pieces, sep), sep) == pieces,
    decreases pieces.len(),
{
    if pieces.len() == 1 {
        law_split_of_whole(pieces[0], sep);
        assert(seq![pieces[0]] =~= pieces);
    } else {
        let first = pieces.drop_last();
        law_split_undoes_join(first, sep);
        law_split_of_both(join(first, sep), pieces.last(), sep);
        law_split_of_whole(pieces.last(), sep);
        assert(first + seq![pieces.last()] =~= pieces);
    }
}

/// Joining undoes splitting.
pub proof fn law_join_undoes_split<T>(s: Seq<T>, sep: T)
    ensures
        join(split(s, sep), sep) == s,
    decreases s.len(),
{
    let pieces = split(s, sep);
    if s.len() == 0 {
        assert(pieces[0] =~= s);
    } else {
        let t = s.drop_last();
        let before = split(t, sep);
        law_join_undoes_split(t, sep);
        lemma_cuts(t, sep);
        if s.last() == sep {
            law_split_of_both(t, Seq::<T>::empty(), sep);
            assert(t.push(sep) + Seq::<T>::empty() =~= s);
            assert(!Seq::<T>::empty().contains(sep));
            law_split_of_whole(Seq::<T>::empty(), sep);
            assert(pieces.drop_last() =~= before);
            assert(join(pieces, sep) =~= s);
        } else {
            let n = before.len();
            assert forall|i: int| 0 <= i < n - 1 implies pieces[i] == before[i] by {
                let c = cuts(t, sep)[i];
                assert(s.subrange(c.0, c.1) =~= t.subrange(c.0, c.1));
            }
            assert(pieces.drop_last() =~= before.drop_last());
            assert(pieces.last() =~= before.last().push(s.last()));
            assert(join(pieces, sep) =~= join(before, sep).push(s.last()));
            assert(t.push(s.last()) =~= s);
        }
    }
}

/// A separator stands behind each cut but the last.
pub proof fn lemma_cuts_end_at_separators<T>(s: Seq<T>, sep: T)
    ensures
        forall|i: int|
            0 <= i < cuts(s, sep).len() - 1 ==> s[(#[trigger] cuts(s, sep)[i]).1] == sep,
    decreases s.len(),
{
    if s.len() > 0 {
        let t = s.drop_last();
        lemma_cuts(t, sep);
        lemma_cuts(s, sep);
        lemma_cuts_end_at_separators(t, sep);
        let before = cuts(t, sep);
        let now = cuts(s, sep);
        assert forall|i: int| 0 <= i < now.len() - 1 implies s[(#[trigger] now[i]).1] == sep by {
            assert(now[i] == before[i]);
            if i < before.len() - 1 {
                assert(now[i + 1].0 == now[i].1 + 1);
                assert(before[i + 1].0 == before[i].1 + 1);
                assert(before[i + 1].0 <= t.len());
                assert(t[before[i].1] == sep);
                assert(s[before[i].1] == t[before[i].1]);
            }
        }
    }
}

/// No piece of a text holds the separator.
pub proof fn law_pieces_hold_no_separator<T>(s: Seq<T>, sep: T, i: int)
    requires
        0 <= i < split(s, sep).len(),
    ensures
        !split(s, sep)[i].contains(sep),
{
    lemma_cuts(s, sep);
    let c = cuts(s, sep)[i];
    let piece = split(s, sep)[i];
    assert forall|k: int| 0 <= k < piece.len() implies piece[k] != sep by {
        assert(piece[k] == s[c.0 + k]);
    }
}

proof fn lemma_neighbours<T>(s: Seq<T>, sep: T, b: int)
    requires
        1 <= b < cuts(s, sep).len(),
    ensures
        0 <= cuts(s, sep)[b - 1].0 <= cuts(s, sep)[b - 1].1,
        cuts(s, sep)[b].0 == cuts(s, sep)[b - 1].1 + 1,
        cuts(s, sep)[b].0 <= cuts(s, sep)[b].1 <= s.len(),
        s[cuts(s, sep)[b - 1].1] == sep,
{
    lemma_cuts(s, sep);
    lemma_cuts_end_at_separators(s, sep);
}

proof fn lemma_joined_pieces<T>(s: Seq<T>, sep: T, a: int, b: int)
    requires
        0 <= a <= b < split(s, sep).len(),
    ensures
        0 <= cuts(s, sep)[a].0 <= cuts(s, sep)[b].1 <= s.len(),
        join(split(s, sep).subrange(a, b + 1), sep) == s.subrange(
            cuts(s, sep)[a].0,
            cuts(s, sep)[b].1,
        ),
    decreases b - a,
{
    let start = cuts(s, sep)[a].0;
    let end = cuts(s, sep)[b].1;
    let pieces = split(s, sep);
    let part = pieces.subrange(a, b + 1);
    if a == b {
        assert(0 <= start <= end <= s.len()) by {
            lemma_cuts(s, sep);
        }
        assert(part =~= seq![pieces[a]]);
    } else {
        let middle = cuts(s, sep)[b - 1].1;
        lemma_joined_pieces(s, sep, a, b - 1);
        lemma_neighbours(s, sep, b);
        assert(part.drop_last() =~= pieces.subrange(a, b));
        assert(part.last() == s.subrange(middle + 1, end));
        assert(s.subrange(start, middle).push(sep) + s.subrange(middle + 1, end) =~= s.subrange(
            start,
            end,
        ));
    }
}

/// Neighbouring pieces of a text, joined, are the part of the text from the first to the last,
/// and are the pieces of that part.
pub proof fn law_joined_pieces_are_a_part<T>(s: Seq<T>, sep: T, a: int, b: int)
    requires
        0 <= a <= b < split(s, sep).len(),
    ensures
        0 <= cuts(s, sep)[a].0 <= cuts(s, sep)[b].1 <= s.len(),
        join(split(s, sep).subrange(a, b + 1), sep) == s.subrange(
            cuts(s, sep)[a].0,
            cuts(s, sep)[b].1,
        ),
        split(s.subrange(cuts(s, sep)[a].0, cuts(s, sep)[b].1), sep) == split(s, sep).subrange(
            a,
            b + 1,
        ),
{
    let part = split(s, sep).subrange(a, b + 1);
    lemma_joined_pieces(s, sep, a, b);
    assert forall|i: int| 0 <= i < part.len() implies !(#[trigger] part[i]).contains(sep) by {
        law_pieces_hold_no_separator(s, sep, a + i);
    }
    law_split_undoes_join(part, sep);
}

/// What does not occur in a text occurs on neither side of a separator.
pub proof fn lemma_sides_are_parts<T>(s: Seq<T>, sep: T, c: T)
    requires
        !s.contains(c),
        split_first(s, sep) is Some,
    ensures
        ({
            let (a, b) = split_first(s, sep)->0;
            !a.contains(c) && !b.contains(c)
        }),
{
    let (a, b) = split_first(s, sep)->0;
    let k = first_index(s, sep);
    lemma_first_index_is_not_negative(s, sep);
    if a.contains(c) {
        assert(s[a.index_of(c)] == c);
    }
    if b.contains(c) {
        assert(s[k + 1 + b.index_of(c)] == c);
    }
}

proof fn lemma_first_index_is_not_negative<T>(s: Seq<T>, c: T)
    ensures
        0 <= first_index(s, c),
    decreases s.len(),
{
    if s.len() > 0 && s[0] != c {
        lemma_first_index_is_not_negative(s.drop_first(), c);
    }
}

/// What occurs in no piece, and is not the separator, does not occur in the joined pieces.
pub proof fn lemma_joined_pieces_hold_no_more<T>(pieces: Seq<Seq<T>>, sep: T, c: T)
    requires
        c != sep,
        forall|i: int| 0 <= i < pieces.len() ==> !(#[trigger] pieces[i]).contains(c),
    ensures
        !join(pieces, sep).contains(c),
    decreases pieces.len(),
{
    if pieces.len() > 1 {
        let before = join(pieces.drop_last(), sep);
        let last = pieces.last();
        lemma_joined_pieces_hold_no_more(pieces.drop_last(), sep, c);
        assert(!pieces[pieces.len() - 1].contains(c));
        let all = join(pieces, sep);
        if all.contains(c) {
            let i = all.index_of(c);
            if i < before.len() {
                assert(before[i] == c);
            } else if i > before.len() {
                assert(last[i - before.len() - 1] == c);
            }
        }
    } else if pieces.len() == 1 {
        assert(!pieces[0].contains(c));
    }
}

} // verus!
