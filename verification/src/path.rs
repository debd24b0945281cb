//! Unix paths as sequences of bytes, and the components they are made of.

use vstd::prelude::*;

use crate::text;
use crate::text::Symbol;

verus! {

/// A symbol that paths are written in.
pub trait PathSymbol: Symbol {
    /// The separator `/`.
    spec fn slash() -> Self;

    /// The symbol `.`.
    spec fn dot() -> Self;

    /// The separator `/`.
    fn separator() -> (c: Self)
        ensures
            c == Self::slash(),
    ;

    /// The symbol `.`.
    fn full_stop() -> (c: Self)
        ensures
            c == Self::dot(),
    ;
}

impl PathSymbol for u8 {
    open spec fn slash() -> Self {
        47u8
    }

    open spec fn dot() -> Self {
        46u8
    }

    fn separator() -> (c: Self) {
        47u8
    }

    fn full_stop() -> (c: Self) {
        46u8
    }
}

impl PathSymbol for char {
    open spec fn slash() -> Self {
        '/'
    }

    open spec fn dot() -> Self {
        '.'
    }

    fn separator() -> (c: Self) {
        '/'
    }

    fn full_stop() -> (c: Self) {
        '.'
    }
}

/// What a component of a path stands for.
#[derive(Clone, Copy, Debug, PartialEq, Eq, Structural)]
pub enum Part {
    /// The root directory, the `/` at the beginning of an absolute path.
    Root,
    /// The directory itself, a `.` at the beginning of a path.
    Here,
    /// The parent directory, `..`.
    Up,
    /// An entry by its name.
    Name,
}

/// A component of a path, and where in the path it stands.
pub struct Mark {
    pub part: Part,
    pub start: int,
    pub end: int,
}

/// A component of a path, and where in the path it stands.
#[derive(Clone, Copy, Debug)]
pub struct Span {
    pub part: Part,
    pub start: usize,
    pub end: usize,
}

impl View for Span {
    type V = Mark;

    open spec fn view(&self) -> Mark {
        Mark { part: self.part, start: self.start as int, end: self.end as int }
    }
}

/// The marks of a sequence of spans.
pub open spec fn span_marks(spans: Seq<Span>) -> Seq<Mark> {
    spans.map_values(|s: Span| s@)
}

/// A component of a path by itself.
pub enum Component<T> {
    Root,
    Here,
    Up,
    Name(Seq<T>),
}

/// Whether a path begins at the root.
pub open spec fn is_absolute<T: PathSymbol>(p: Seq<T>) -> bool {
    p.len() > 0 && p[0] == T::slash()
}

/// The part that a piece between separators is, if it is one: an empty piece is none, and a
/// `.` is one only as the first piece.
pub open spec fn part_of<T: PathSymbol>(piece: Seq<T>, first: bool) -> Option<Part> {
    if piece.len() == 0 {
        None
    } else if piece == seq![T::dot()] {
        if first {
            Some(Part::Here)
        } else {
            None
        }
    } else if piece == seq![T::dot(), T::dot()] {
        Some(Part::Up)
    } else {
        Some(Part::Name)
    }
}

/// The components in the first `n` pieces of a path.
pub open spec fn marks_upto<T: PathSymbol>(p: Seq<T>, n: int) -> Seq<Mark>
    decreases n,
{
    if n <= 0 {
        if is_absolute(p) {
            seq![Mark { part: Part::Root, start: 0, end: 1 }]
        } else {
            Seq::empty()
        }
    } else {
        let c = text::cuts(p, T::slash())[n - 1];
        let before = marks_upto(p, n - 1);
        match part_of(p.subrange(c.0, c.1), n == 1) {
            Some(part) => before.push(Mark { part, start: c.0, end: c.1 }),
            None => before,
        }
    }
}

/// The components of a path and where they stand.
pub open spec fn marks<T: PathSymbol>(p: Seq<T>) -> Seq<Mark> {
    marks_upto(p, text::cuts(p, T::slash()).len() as int)
}

/// The component at a mark.
pub open spec fn component_at<T: PathSymbol>(p: Seq<T>, m: Mark) -> Component<T> {
    match m.part {
        Part::Root => Component::Root,
        Part::Here => Component::Here,
        Part::Up => Component::Up,
        Part::Name => Component::Name(p.subrange(m.start, m.end)),
    }
}

/// The components of a path.
pub open spec fn components<T: PathSymbol>(p: Seq<T>) -> Seq<Component<T>> {
    marks(p).map_values(|m: Mark| component_at(p, m))
}

/// Marks lie in the path.
pub proof fn lemma_marks<T: PathSymbol>(p: Seq<T>, n: int)
    requires
        0 <= n <= text::cuts(p, T::slash()).len(),
    ensures
        forall|i: int|
            0 <= i < marks_upto(p, n).len() ==> 0 <= (#[trigger] marks_upto(p, n)[i]).start
                <= marks_upto(p, n)[i].end <= p.len(),
        forall|i: int, j: int|
            0 <= i < j < marks_upto(p, n).len() ==> (#[trigger] marks_upto(p, n)[i]).end <= (
            #[trigger] marks_upto(p, n)[j]).start,
        forall|i: int|
            0 <= i < marks_upto(p, n).len() ==> (#[trigger] marks_upto(p, n)[i]).end <= (if n == 0 {
                1
            } else {
                text::cuts(p, T::slash())[n - 1].1 + 1
            }),
    decreases n,
{
    text::lemma_cuts(p, T::slash());
    if n > 0 {
        lemma_marks(p, n - 1);
        let c = text::cuts(p, T::slash())[n - 1];
        if n == 1 {
            if is_absolute(p) {
                if c.1 > 0 {
                    assert(p[0] != T::slash());
                }
            }
        }
    }
}

/// The components of a path, as `marks` says.
pub fn spans<T: PathSymbol>(p: &[T]) -> (out: Vec<Span>)
    ensures
        span_marks(out@) == marks(p@),
{
    let pieces = text::cut(p, T::separator());
    let ghost c = text::cuts(p@, T::slash());
    proof {
        text::lemma_cuts(p@, T::slash());
    }
    let mut out: Vec<Span> = Vec::new();
    if p.len() > 0 && p[0].same(T::separator()) {
        out.push(Span { part: Part::Root, start: 0, end: 1 });
    }
    let one = [T::full_stop()];
    let two = [T::full_stop(), T::full_stop()];
    assert(one@ =~= seq![T::dot()]);
    assert(two@ =~= seq![T::dot(), T::dot()]);
    assert(span_marks(out@) =~= marks_upto(p@, 0));
    let mut i: usize = 0;
    while i < pieces.len()
        invariant
            i <= pieces@.len(),
            c == text::cuts(p@, T::slash()),
            pieces@.len() == c.len(),
            forall|j: int|
                0 <= j < pieces@.len() ==> (#[trigger] pieces@[j]).0 == c[j].0 && pieces@[j].1
                    == c[j].1,
            forall|j: int| 0 <= j < c.len() ==> 0 <= (#[trigger] c[j]).0 <= c[j].1 <= p@.len(),
            one@ == seq![T::dot()],
            two@ == seq![T::dot(), T::dot()],
            span_marks(out@) == marks_upto(p@, i as int),
        decreases pieces@.len() - i,
    {
        let (start, end) = pieces[i];
        assert(c[i as int] == (start as int, end as int));
        let piece = vstd::slice::slice_subrange(p, start, end);
        let ghost before = out@;
        if piece.len() > 0 {
            if text::same_text(piece, &one) {
                if i == 0 {
                    out.push(Span { part: Part::Here, start, end });
                }
            } else if text::same_text(piece, &two) {
                out.push(Span { part: Part::Up, start, end });
            } else {
                out.push(Span { part: Part::Name, start, end });
            }
        }
        i += 1;
        assert(span_marks(out@) =~= marks_upto(p@, i as int));
    }
    out
}

/// The path `p` seen from the directory `base`, as in `Path::join`.
pub open spec fn joined(base: Seq<u8>, p: Seq<u8>) -> Seq<u8> {
    if is_absolute(p) {
        p
    } else if base.len() == 0 || base.last() == u8::slash() {
        base + p
    } else {
        base.push(u8::slash()) + p
    }
}

/// The path without its last component, as in `Path::parent`; none where the path is empty or
/// the root.
pub open spec fn parent(p: Seq<u8>) -> Option<Seq<u8>> {
    let m = marks(p);
    if m.len() == 0 || m.last().part == Part::Root {
        None
    } else if m.len() == 1 {
        Some(Seq::empty())
    } else {
        Some(p.take(m[m.len() - 2].end))
    }
}

/// The path after `PathBuf::pop`: its parent, or the path itself where it has none.
pub open spec fn popped(p: Seq<u8>) -> Seq<u8> {
    match parent(p) {
        Some(q) => q,
        None => p,
    }
}

/// The path after popping it `n` times.
pub open spec fn popped_times(p: Seq<u8>, n: nat) -> Seq<u8>
    decreases n,
{
    if n == 0 {
        p
    } else {
        popped(popped_times(p, (n - 1) as nat))
    }
}

/// The last component where it is a name, as in `Path::file_name`.
pub open spec fn file_name(p: Seq<u8>) -> Option<Seq<u8>> {
    let m = marks(p);
    if m.len() > 0 && m.last().part == Part::Name {
        Some(p.subrange(m.last().start, m.last().end))
    } else {
        None
    }
}

/// Whether two paths have the same components, as `==` on `Path`.
pub open spec fn same_path(p: Seq<u8>, q: Seq<u8>) -> bool {
    components(p) == components(q)
}

/// Whether the components of `prefix` are the first ones of `p`, as in `Path::starts_with`.
pub open spec fn starts_with_path(p: Seq<u8>, prefix: Seq<u8>) -> bool {
    text::begins(components(p), components(prefix))
}

/// The path from its component `n` on, up to the end of its last component.
pub open spec fn from_component(p: Seq<u8>, n: int) -> Seq<u8> {
    let m = marks(p);
    if n < m.len() {
        p.subrange(m[n].start, m.last().end)
    } else {
        Seq::empty()
    }
}

/// What follows the components of `prefix` in `p`, as in `Path::strip_prefix`.
pub open spec fn without_prefix(p: Seq<u8>, prefix: Seq<u8>) -> Option<Seq<u8>> {
    if starts_with_path(p, prefix) {
        Some(from_component(p, components(prefix).len() as int))
    } else {
        None
    }
}

/// The names that are left when each `..` takes away the name before it.
pub open spec fn resolved_names(c: Seq<Component<u8>>) -> Seq<Seq<u8>>
    decreases c.len(),
{
    if c.len() == 0 {
        Seq::empty()
    } else {
        let before = resolved_names(c.drop_last());
        match c.last() {
            Component::Name(name) => before.push(name),
            Component::Up => if before.len() > 0 {
                before.drop_last()
            } else {
                before
            },
            _ => before,
        }
    }
}

/// The path with these names, from the root or not.
pub open spec fn path_of_names(root: bool, names: Seq<Seq<u8>>) -> Seq<u8> {
    if root {
        seq![u8::slash()] + text::join(names, u8::slash())
    } else {
        text::join(names, u8::slash())
    }
}

/// The path without `.`, `..` and needless separators.
pub open spec fn normalized(p: Seq<u8>) -> Seq<u8> {
    path_of_names(is_absolute(p), resolved_names(components(p)))
}

/// A path of the file system: a sequence of bytes.
#[derive(Clone, Debug)]
pub struct FsPath {
    pub bytes: Vec<u8>,
}

impl View for FsPath {
    type V = Seq<u8>;

    open spec fn view(&self) -> Seq<u8> {
        self.bytes@
    }
}

/// The bytes of an optional path.
pub open spec fn path_option(p: Option<FsPath>) -> Option<Seq<u8>> {
    match p {
        Some(p) => Some(p@),
        None => None,
    }
}

/// The bytes of an optional borrowed path.
pub open spec fn path_ref_option(p: Option<&FsPath>) -> Option<Seq<u8>> {
    match p {
        Some(p) => Some(p@),
        None => None,
    }
}

impl FsPath {
    /// The path with these bytes.
    pub fn from_bytes(bytes: &[u8]) -> (p: FsPath)
        ensures
            p@ == bytes@,
    {
        FsPath { bytes: vstd::slice::slice_to_vec(bytes) }
    }

    /// The path that a text names.
    pub fn from_text(text: &str) -> (p: FsPath)
        ensures
            p@ == vstd::utf8::encode_utf8(text@),
    {
        FsPath { bytes: vstd::slice::slice_to_vec(text.as_bytes()) }
    }

    /// The same path once more.
    pub fn duplicate(&self) -> (p: FsPath)
        ensures
            p@ == self@,
    {
        FsPath { bytes: vstd::slice::slice_to_vec(self.bytes.as_slice()) }
    }

    /// Whether the path begins at the root.
    pub fn is_absolute(&self) -> (r: bool)
        ensures
            r == is_absolute(self@),
    {
        self.bytes.len() > 0 && self.bytes[0] == 47u8
    }

    /// `other` seen from this directory.
    pub fn join(&self, other: &FsPath) -> (p: FsPath)
        ensures
            p@ == joined(self@, other@),
    {
        if other.is_absolute() {
            return other.duplicate();
        }
        let mut bytes = vstd::slice::slice_to_vec(self.bytes.as_slice());
        if bytes.len() > 0 && bytes[bytes.len() - 1] != 47u8 {
            bytes.push(47u8);
        }
        let mut rest = vstd::slice::slice_to_vec(other.bytes.as_slice());
        bytes.append(&mut rest);
        FsPath { bytes }
    }

    /// The path without its last component, if it has a parent.
    pub fn parent(&self) -> (r: Option<FsPath>)
        ensures
            path_option(r) == parent(self@),
    {
        let s = spans(self.bytes.as_slice());
        proof {
            lemma_marks(self@, text::cuts(self@, u8::slash()).len() as int);
            assert(span_marks(s@) == marks(self@));
        }
        let n = s.len();
        if n == 0 {
            return None;
        }
        assert(marks(self@).last() == s@[n - 1]@);
        if matches!(s[n - 1].part, Part::Root) {
            None
        } else if n == 1 {
            let r = FsPath { bytes: Vec::new() };
            assert(r@ =~= Seq::<u8>::empty());
            Some(r)
        } else {
            assert(marks(self@)[n - 2] == s@[n - 2]@);
            let r = FsPath::from_bytes(
                vstd::slice::slice_subrange(self.bytes.as_slice(), 0, s[n - 2].end),
            );
            assert(r@ =~= self@.take(marks(self@)[n - 2].end));
            Some(r)
        }
    }

    /// The path after taking its last component away, where it has a parent.
    pub fn popped(&self) -> (p: FsPath)
        ensures
            p@ == popped(self@),
    {
        match self.parent() {
            Some(p) => p,
            None => self.duplicate(),
        }
    }

    /// The name that the path ends in, if it ends in one.
    pub fn file_name(&self) -> (r: Option<FsPath>)
        ensures
            path_option(r) == file_name(self@),
    {
        let s = spans(self.bytes.as_slice());
        proof {
            lemma_marks(self@, text::cuts(self@, u8::slash()).len() as int);
            assert(span_marks(s@) == marks(self@));
        }
        let n = s.len();
        if n == 0 {
            return None;
        }
        let last = s[n - 1];
        assert(marks(self@).last() == last@);
        if matches!(last.part, Part::Name) {
            Some(
                FsPath::from_bytes(
                    vstd::slice::slice_subrange(self.bytes.as_slice(), last.start, last.end),
                ),
            )
        } else {
            None
        }
    }

    /// Whether the components of `prefix` are the first ones of this path.
    pub fn starts_with(&self, prefix: &FsPath) -> (r: bool)
        ensures
            r == starts_with_path(self@, prefix@),
    {
        let s = spans(self.bytes.as_slice());
        let t = spans(prefix.bytes.as_slice());
        let ghost all = components(self@);
        let ghost wanted = components(prefix@);
        proof {
            lemma_marks(self@, text::cuts(self@, u8::slash()).len() as int);
            lemma_marks(prefix@, text::cuts(prefix@, u8::slash()).len() as int);
            assert(span_marks(s@) == marks(self@));
            assert(span_marks(t@) == marks(prefix@));
        }
        if s.len() < t.len() {
            return false;
        }
        let mut i: usize = 0;
        while i < t.len()
            invariant
                i <= t@.len() <= s@.len(),
                all == components(self@),
                wanted == components(prefix@),
                span_marks(s@) == marks(self@),
                span_marks(t@) == marks(prefix@),
                forall|j: int|
                    0 <= j < marks(self@).len() ==> 0 <= (#[trigger] marks(self@)[j]).start
                        <= marks(self@)[j].end <= self@.len(),
                forall|j: int|
                    0 <= j < marks(prefix@).len() ==> 0 <= (#[trigger] marks(prefix@)[j]).start
                        <= marks(prefix@)[j].end <= prefix@.len(),
                forall|j: int| 0 <= j < i ==> #[trigger] all[j] == wanted[j],
            decreases t@.len() - i,
        {
            let a = s[i];
            let b = t[i];
            assert(marks(self@)[i as int] == a@);
            assert(marks(prefix@)[i as int] == b@);
            let same = match (a.part, b.part) {
                (Part::Root, Part::Root) => true,
                (Part::Here, Part::Here) => true,
                (Part::Up, Part::Up) => true,
                (Part::Name, Part::Name) => text::same_text(
                    vstd::slice::slice_subrange(self.bytes.as_slice(), a.start, a.end),
                    vstd::slice::slice_subrange(prefix.bytes.as_slice(), b.start, b.end),
                ),
                _ => false,
            };
            assert(same == (all[i as int] == wanted[i as int]));
            if !same {
                assert(all.take(wanted.len() as int)[i as int] != wanted[i as int]);
                return false;
            }
            i += 1;
        }
        assert(all.take(wanted.len() as int) =~= wanted);
        true
    }

    /// Whether two paths have the same components.
    pub fn same_as(&self, other: &FsPath) -> (r: bool)
        ensures
            r == same_path(self@, other@),
    {
        proof {
            let a = components(self@);
            let b = components(other@);
            assert(text::begins(a, b) && text::begins(b, a) ==> a =~= b) by {
                if text::begins(a, b) && text::begins(b, a) {
                    assert(a.take(b.len() as int) =~= a);
                }
            }
            assert(a == b ==> a.take(b.len() as int) =~= b && b.take(a.len() as int) =~= a);
        }
        self.starts_with(other) && other.starts_with(self)
    }

    /// What follows the components of `prefix`, if the path begins with them.
    pub fn strip_prefix(&self, prefix: &FsPath) -> (r: Option<FsPath>)
        ensures
            path_option(r) == without_prefix(self@, prefix@),
    {
        if !self.starts_with(prefix) {
            return None;
        }
        let s = spans(self.bytes.as_slice());
        let t = spans(prefix.bytes.as_slice());
        proof {
            lemma_marks(self@, text::cuts(self@, u8::slash()).len() as int);
            assert(span_marks(s@) == marks(self@));
            assert(span_marks(t@) == marks(prefix@));
        }
        if t.len() < s.len() {
            let first = s[t.len()];
            let last = s[s.len() - 1];
            assert(marks(self@)[t@.len() as int] == first@);
            assert(marks(self@).last() == last@);
            Some(
                FsPath::from_bytes(
                    vstd::slice::slice_subrange(self.bytes.as_slice(), first.start, last.end),
                ),
            )
        } else {
            let r = FsPath { bytes: Vec::new() };
            assert(r@ =~= Seq::<u8>::empty());
            Some(r)
        }
    }
}

/// Whether `path` is `prefix` or lies under it.
pub fn path_starts_with(path: &FsPath, prefix: &FsPath) -> (r: bool)
    ensures
        r == starts_with_path(path@, prefix@),
{
    path.starts_with(prefix)
}

/// The path without `.`, `..` and needless separators, the file system left aside.
pub fn normalize_lexical(path: &FsPath) -> (out: FsPath)
    ensures
        out@ == normalized(path@),
{
    let s = spans(path.bytes.as_slice());
    let ghost c = components(path@);
    proof {
        lemma_marks(path@, text::cuts(path@, u8::slash()).len() as int);
        assert(span_marks(s@) == marks(path@));
    }
    let mut names: Vec<Vec<u8>> = Vec::new();
    let mut i: usize = 0;
    assert(text::contents(names@) =~= resolved_names(c.take(0)));
    while i < s.len()
        invariant
            i <= s@.len(),
            c == components(path@),
            span_marks(s@) == marks(path@),
            forall|j: int|
                0 <= j < marks(path@).len() ==> 0 <= (#[trigger] marks(path@)[j]).start
                    <= marks(path@)[j].end <= path@.len(),
            text::contents(names@) == resolved_names(c.take(i as int)),
        decreases s@.len() - i,
    {
        let a = s[i];
        assert(marks(path@)[i as int] == a@);
        assert(c.take(i as int + 1).drop_last() =~= c.take(i as int));
        assert(c.take(i as int + 1).last() == component_at(path@, a@));
        let ghost before = names@;
        match a.part {
            Part::Name => {
                let name = vstd::slice::slice_to_vec(
                    vstd::slice::slice_subrange(path.bytes.as_slice(), a.start, a.end),
                );
                names.push(name);
                assert(text::contents(names@) =~= text::contents(before).push(name@));
            },
            Part::Up => {
                let top = names.pop();
                assert(text::contents(before).len() == before.len());
                assert(before.len() > 0 ==> text::contents(names@) =~= text::contents(before).drop_last());
            },
            _ => {},
        }
        i += 1;
    }
    assert(c.take(i as int) =~= c);
    let mut bytes: Vec<u8> = Vec::new();
    if path.is_absolute() {
        bytes.push(47u8);
    }
    let ghost root = bytes@;
    let ghost all = text::contents(names@);
    let mut k: usize = 0;
    assert(bytes@ =~= root + text::join(all.take(0), u8::slash()));
    while k < names.len()
        invariant
            k <= names@.len(),
            all == text::contents(names@),
            bytes@ == root + text::join(all.take(k as int), u8::slash()),
        decreases names@.len() - k,
    {
        if k > 0 {
            bytes.push(47u8);
        }
        let mut name = vstd::slice::slice_to_vec(names[k].as_slice());
        bytes.append(&mut name);
        assert(all.take(k as int + 1).drop_last() =~= all.take(k as int));
        assert(all.take(k as int + 1).last() == names@[k as int]@);
        k += 1;
        assert(bytes@ =~= root + text::join(all.take(k as int), u8::slash()));
    }
    assert(all.take(k as int) =~= all);
    let out = FsPath { bytes };
    assert(out@ =~= normalized(path@));
    out
}

/// The absolute form of a path, the file system left aside: from the current directory where
/// the path is relative, from `.` where the current directory is not known.
pub open spec fn lexical(p: Seq<u8>, current_dir: Option<Seq<u8>>) -> Seq<u8> {
    if is_absolute(p) {
        normalized(p)
    } else {
        normalized(
            joined(
                match current_dir {
                    Some(dir) => dir,
                    None => seq![u8::dot()],
                },
                p,
            ),
        )
    }
}

/// The absolute form of a path, the file system left aside.
pub fn absolutize_lexical(path: &FsPath, current_dir: Option<&FsPath>) -> (out: FsPath)
    ensures
        out@ == lexical(path@, path_ref_option(current_dir)),
{
    if path.is_absolute() {
        return normalize_lexical(path);
    }
    match current_dir {
        Some(dir) => normalize_lexical(&dir.join(path)),
        None => {
            let mut bytes: Vec<u8> = Vec::new();
            bytes.push(46u8);
            let here = FsPath { bytes };
            assert(here@ =~= seq![u8::dot()]);
            normalize_lexical(&here.join(path))
        },
    }
}

/// The canonical form of a path where the file system gave one, else its lexical form.
pub open spec fn absolutized(
    p: Seq<u8>,
    canonical: Option<Seq<u8>>,
    current_dir: Option<Seq<u8>>,
) -> Seq<u8> {
    match canonical {
        Some(c) => c,
        None => lexical(p, current_dir),
    }
}

/// The canonical form of `path` where the file system gave one, else its lexical form.
pub fn absolutize_existing_or_lexical(
    path: &FsPath,
    canonical: Option<FsPath>,
    current_dir: Option<&FsPath>,
) -> (out: FsPath)
    ensures
        out@ == absolutized(path@, path_option(canonical), path_ref_option(current_dir)),
{
    match canonical {
        Some(c) => c,
        None => absolutize_lexical(path, current_dir),
    }
}

} // verus!
