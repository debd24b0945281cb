//! Displayed paths with each component in its colour.

use vstd::prelude::*;

use crate::colors;
use crate::colors::LsColors;
use crate::colors::Scheme;
use crate::files::Entry;
use crate::files::Metadata;
use crate::location;
use crate::path;
use crate::path::FsPath;
use crate::path::Part;
use crate::path::PathSymbol;
use crate::text;

verus! {

/// Where a displayed component leads.
#[derive(Clone, Debug)]
pub enum ComponentPart {
    /// To the root directory.
    Root,
    /// To the directory that the display starts from.
    Base,
    /// To an entry of the directory before it.
    Normal(String),
}

/// A component of a displayed path.
#[derive(Clone, Debug)]
pub struct DisplayComponent {
    pub text: String,
    pub path_part: ComponentPart,
}

/// Where a displayed component leads.
pub enum Step {
    Root,
    Base,
    Normal(Seq<char>),
}

/// A component of a displayed path.
pub struct Piece {
    pub text: Seq<char>,
    pub step: Step,
}

impl View for DisplayComponent {
    type V = Piece;

    open spec fn view(&self) -> Piece {
        Piece {
            text: self.text@,
            step: match self.path_part {
                ComponentPart::Root => Step::Root,
                ComponentPart::Base => Step::Base,
                ComponentPart::Normal(name) => Step::Normal(name@),
            },
        }
    }
}

/// The pieces of a sequence of components.
pub open spec fn pieces_of(components: Seq<DisplayComponent>) -> Seq<Piece> {
    components.map_values(|c: DisplayComponent| c@)
}

/// A component of a text as a piece, without separator.
pub open spec fn bare_piece(c: path::Component<char>) -> Piece {
    match c {
        path::Component::Root => Piece { text: seq!['/'], step: Step::Root },
        path::Component::Here => Piece { text: seq!['.'], step: Step::Normal(seq!['.']) },
        path::Component::Up => Piece { text: seq!['.', '.'], step: Step::Normal(seq!['.', '.']) },
        path::Component::Name(name) => Piece { text: name, step: Step::Normal(name) },
    }
}

/// The components of a text as pieces, without separators.
pub open spec fn bare_pieces(s: Seq<char>) -> Seq<Piece> {
    path::components(s).map_values(|c: path::Component<char>| bare_piece(c))
}

/// The pieces with a separator behind each but the last, and but the first where it is skipped.
pub open spec fn separated(pieces: Seq<Piece>, skip_first: bool) -> Seq<Piece> {
    Seq::new(
        pieces.len(),
        |i: int|
            if i != pieces.len() - 1 && !(skip_first && i == 0) {
                Piece { text: pieces[i].text.push('/'), ..pieces[i] }
            } else {
                pieces[i]
            },
    )
}

/// The pieces of a relative path; none where the path is not relative.
pub open spec fn relative_pieces(s: Seq<char>) -> Seq<Piece> {
    if path::is_absolute(s) {
        Seq::empty()
    } else {
        separated(bare_pieces(s), false)
    }
}

/// The pieces of a displayed path.
pub open spec fn display_pieces(display: Seq<char>) -> Seq<Piece> {
    if display == seq!['~'] {
        seq![Piece { text: seq!['~'], step: Step::Base }]
    } else if text::begins(display, seq!['~', '/']) {
        seq![Piece { text: seq!['~', '/'], step: Step::Base }] + relative_pieces(display.skip(2))
    } else {
        separated(bare_pieces(display), path::is_absolute(display))
    }
}

/// The components of a text, without separators.
fn bare_components(s: &[char]) -> (out: Vec<DisplayComponent>)
    ensures
        pieces_of(out@) == bare_pieces(s@),
{
    let spans = path::spans(s);
    let ghost c = path::components(s@);
    proof {
        path::lemma_marks(s@, text::cuts(s@, char::slash()).len() as int);
        assert(path::span_marks(spans@) == path::marks(s@));
    }
    let mut out: Vec<DisplayComponent> = Vec::new();
    let mut i: usize = 0;
    while i < spans.len()
        invariant
            i <= spans@.len(),
            c == path::components(s@),
            path::span_marks(spans@) == path::marks(s@),
            forall|j: int|
                0 <= j < path::marks(s@).len() ==> 0 <= (#[trigger] path::marks(s@)[j]).start
                    <= path::marks(s@)[j].end <= s@.len(),
            out@.len() == i,
            forall|j: int| 0 <= j < i ==> (#[trigger] out@[j])@ == bare_piece(c[j]),
        decreases spans@.len() - i,
    {
        let span = spans[i];
        assert(path::marks(s@)[i as int] == span@);
        assert(c[i as int] == path::component_at(s@, span@));
        let component = match span.part {
            Part::Root => {
                let slash = ['/'];
                assert(slash@ =~= seq!['/']);
                DisplayComponent { text: text::string_of(&slash), path_part: ComponentPart::Root }
            },
            Part::Here => {
                let dot = ['.'];
                assert(dot@ =~= seq!['.']);
                DisplayComponent {
                    text: text::string_of(&dot),
                    path_part: ComponentPart::Normal(text::string_of(&dot)),
                }
            },
            Part::Up => {
                let dots = ['.', '.'];
                assert(dots@ =~= seq!['.', '.']);
                DisplayComponent {
                    text: text::string_of(&dots),
                    path_part: ComponentPart::Normal(text::string_of(&dots)),
                }
            },
            Part::Name => {
                let name = vstd::slice::slice_subrange(s, span.start, span.end);
                DisplayComponent {
                    text: text::string_of(name),
                    path_part: ComponentPart::Normal(text::string_of(name)),
                }
            },
        };
        out.push(component);
        i += 1;
    }
    assert(pieces_of(out@) =~= bare_pieces(s@));
    out
}

/// Puts a separator behind each component but the last, and but the first where it is skipped.
pub fn add_intermediate_separators(components: &mut Vec<DisplayComponent>, skip_first: bool)
    ensures
        pieces_of(final(components)@) == separated(pieces_of(old(components)@), skip_first),
{
    let ghost before = pieces_of(components@);
    let n = components.len();
    let mut i: usize = 0;
    while i < n
        invariant
            i <= n,
            n == components@.len() == before.len(),
            forall|j: int|
                0 <= j < i ==> (#[trigger] components@[j])@ == separated(before, skip_first)[j],
            forall|j: int| i <= j < n ==> (#[trigger] components@[j])@ == before[j],
        decreases n - i,
    {
        if i != n - 1 && !(skip_first && i == 0) {
            assert(components@[i as int]@ == before[i as int]);
            components[i].text.push('/');
        }
        i += 1;
    }
    assert(pieces_of(components@) =~= separated(before, skip_first));
}

/// The components of a relative path; none where the path is not relative.
pub fn normal_display_components(display: &str) -> (out: Vec<DisplayComponent>)
    ensures
        pieces_of(out@) == relative_pieces(display@),
{
    let chars = text::chars_of(display);
    let s = chars.as_slice();
    if s.len() > 0 && s[0] == '/' {
        let out: Vec<DisplayComponent> = Vec::new();
        assert(pieces_of(out@) =~= Seq::<Piece>::empty());
        return out;
    }
    let mut components = bare_components(s);
    add_intermediate_separators(&mut components, false);
    components
}

/// The components of a displayed path.
pub fn display_components(display: &str) -> (out: Vec<DisplayComponent>)
    ensures
        pieces_of(out@) == display_pieces(display@),
{
    let chars = text::chars_of(display);
    let s = chars.as_slice();
    let tilde = ['~'];
    let tilde_slash = ['~', '/'];
    assert(tilde@ =~= seq!['~']);
    assert(tilde_slash@ =~= seq!['~', '/']);
    if text::same_text(s, &tilde) {
        let mut components: Vec<DisplayComponent> = Vec::new();
        components.push(
            DisplayComponent { text: text::string_of(&tilde), path_part: ComponentPart::Base },
        );
        assert(pieces_of(components@) =~= display_pieces(display@));
        return components;
    }
    if text::begins_with(s, &tilde_slash) {
        let rest = vstd::slice::slice_subrange(s, 2, s.len());
        assert(rest@ =~= display@.skip(2));
        let mut components: Vec<DisplayComponent> = Vec::new();
        components.push(
            DisplayComponent { text: text::string_of(&tilde_slash), path_part: ComponentPart::Base },
        );
        let rest_text = text::string_of(rest);
        let mut others = normal_display_components(rest_text.as_str());
        let ghost tail = others@;
        components.append(&mut others);
        assert(pieces_of(components@) =~= display_pieces(display@)) by {
            assert(pieces_of(tail) == relative_pieces(display@.skip(2)));
            assert forall|i: int| 1 <= i < components@.len() implies #[trigger] pieces_of(
                components@,
            )[i] == relative_pieces(display@.skip(2))[i - 1] by {
                assert(pieces_of(tail)[i - 1] == tail[i - 1]@);
            }
        }
        return components;
    }
    let mut components = bare_components(s);
    add_intermediate_separators(&mut components, s.len() > 0 && s[0] == '/');
    components
}

/// How many of the pieces lead to an entry of the directory before.
pub open spec fn normal_count(pieces: Seq<Piece>) -> nat
    decreases pieces.len(),
{
    if pieces.len() == 0 {
        0
    } else {
        normal_count(pieces.drop_last()) + if pieces.last().step is Normal {
            1nat
        } else {
            0
        }
    }
}

/// The directory that a displayed path starts from, where the whole path is `p`.
pub open spec fn base_path(display: Seq<char>, p: Seq<u8>, pieces: Seq<Piece>) -> Seq<u8> {
    if path::is_absolute(display) {
        Seq::empty()
    } else {
        path::popped_times(p, normal_count(pieces))
    }
}

/// The directory that a displayed path starts from.
pub fn component_base_path(
    display: &str,
    classify_path: &FsPath,
    components: &[DisplayComponent],
) -> (base: FsPath)
    ensures
        base@ == base_path(display@, classify_path@, pieces_of(components@)),
{
    let chars = text::chars_of(display);
    if chars.len() > 0 && chars[0] == '/' {
        let base = FsPath { bytes: Vec::new() };
        assert(base@ =~= Seq::<u8>::empty());
        return base;
    }
    let ghost all = pieces_of(components@);
    let mut base = classify_path.duplicate();
    let mut i: usize = 0;
    while i < components.len()
        invariant
            i <= components@.len(),
            all == pieces_of(components@),
            base@ == path::popped_times(classify_path@, normal_count(all.take(i as int))),
        decreases components@.len() - i,
    {
        assert(all.take(i as int + 1).drop_last() =~= all.take(i as int));
        assert(all.take(i as int + 1).last() == components@[i as int]@);
        if let ComponentPart::Normal(_) = &components[i].path_part {
            base = base.popped();
        }
        i += 1;
    }
    assert(all.take(i as int) =~= all);
    base
}

/// The path that the first `n` pieces lead to from `base`.
pub open spec fn walked(base: Seq<u8>, pieces: Seq<Piece>, n: int) -> Seq<u8>
    decreases n,
{
    if n <= 0 {
        base
    } else {
        let before = walked(base, pieces, n - 1);
        match pieces[n - 1].step {
            Step::Root => seq![u8::slash()],
            Step::Base => before,
            Step::Normal(name) => path::joined(before, vstd::utf8::encode_utf8(name)),
        }
    }
}

/// The paths of the components before the last one.
pub open spec fn ancestors(display: Seq<char>, p: Seq<u8>) -> Seq<Seq<u8>> {
    let pieces = display_pieces(display);
    let base = base_path(display, p, pieces);
    Seq::new(
        if pieces.len() == 0 {
            0
        } else {
            (pieces.len() - 1) as nat
        },
        |i: int| walked(base, pieces, i + 1),
    )
}

/// The bytes of a sequence of paths.
pub open spec fn paths_of(paths: Seq<FsPath>) -> Seq<Seq<u8>> {
    paths.map_values(|p: FsPath| p@)
}

/// The path after one more component.
fn walk(current: FsPath, component: &DisplayComponent) -> (r: FsPath)
    ensures
        r@ == (match component@.step {
            Step::Root => seq![u8::slash()],
            Step::Base => current@,
            Step::Normal(name) => path::joined(current@, vstd::utf8::encode_utf8(name)),
        }),
{
    match &component.path_part {
        ComponentPart::Root => {
            let mut bytes: Vec<u8> = Vec::new();
            bytes.push(47u8);
            let root = FsPath { bytes };
            assert(root@ =~= seq![u8::slash()]);
            root
        },
        ComponentPart::Base => current,
        ComponentPart::Normal(name) => current.join(&FsPath::from_text(name.as_str())),
    }
}

/// The paths of the components before the last one: what has to be known of them decides
/// their colours.
pub fn ancestor_paths(display: &str, classify_path: &FsPath) -> (out: Vec<FsPath>)
    ensures
        paths_of(out@) == ancestors(display@, classify_path@),
{
    let components = display_components(display);
    let ghost pieces = pieces_of(components@);
    let ghost base = base_path(display@, classify_path@, pieces);
    let mut out: Vec<FsPath> = Vec::new();
    let mut current = component_base_path(display, classify_path, components.as_slice());
    let n = components.len();
    let mut i: usize = 0;
    while i + 1 < n
        invariant
            n == components@.len() == pieces.len(),
            n > 0 ==> i < n,
            n == 0 ==> i == 0,
            pieces == pieces_of(components@),
            current@ == walked(base, pieces, i as int),
            out@.len() == i,
            forall|j: int| 0 <= j < i ==> (#[trigger] out@[j])@ == walked(base, pieces, j + 1),
        decreases n - i,
    {
        assert(pieces[i as int] == components@[i as int]@);
        current = walk(current, &components[i]);
        i += 1;
        out.push(current.duplicate());
    }
    assert(paths_of(out@) =~= ancestors(display@, classify_path@));
    out
}

/// A text between the escape sequences of a style.
pub open spec fn styled(s: Seq<char>, style: Option<Seq<char>>) -> Seq<char> {
    match style {
        Some(style) => seq!['\x1b', '['] + style + seq!['m'] + s + seq!['\x1b', '[', '0', 'm'],
        None => s,
    }
}

/// Appends a text in a style.
pub fn append_styled_component(output: &mut String, text: &str, style: Option<&str>)
    ensures
        final(output)@ == old(output)@ + styled(text@, text::str_option(style)),
{
    let ghost before = output@;
    if let Some(style) = style {
        output.push('\x1b');
        output.push('[');
        output.append(style);
        output.push('m');
        output.append(text);
        output.push('\x1b');
        output.push('[');
        output.push('0');
        output.push('m');
    } else {
        output.append(text);
    }
    assert(output@ =~= before + styled(text@, text::str_option(style)));
}

/// The style of an entry of which something may be known.
pub open spec fn known_style(scheme: Scheme, p: Seq<u8>, entry: Option<Entry>) -> Option<Seq<char>> {
    match entry {
        Some(entry) => colors::entry_style(
            scheme,
            p,
            Some(entry.metadata),
            entry.target_exists_spec(),
        ),
        None => colors::entry_style(scheme, p, None, None),
    }
}

/// What is known of ancestor `i`; nothing where the list ends before it.
pub open spec fn known_at(known: Seq<Option<Entry>>, i: int) -> Option<Entry> {
    if 0 <= i < known.len() {
        known[i]
    } else {
        None
    }
}

/// The first `n` pieces before the last one, each in the style of the entry it leads to.
pub open spec fn painted_ancestors(
    scheme: Scheme,
    base: Seq<u8>,
    pieces: Seq<Piece>,
    known: Seq<Option<Entry>>,
    n: int,
) -> Seq<char>
    decreases n,
{
    if n <= 0 {
        Seq::empty()
    } else {
        painted_ancestors(scheme, base, pieces, known, n - 1) + styled(
            pieces[n - 1].text,
            known_style(scheme, walked(base, pieces, n), known_at(known, n - 1)),
        )
    }
}

/// A displayed path with each component in its colour, the last one in that of the entry itself;
/// nothing for a path without components.
pub open spec fn painted_components(
    scheme: Scheme,
    display: Seq<char>,
    p: Seq<u8>,
    is_dir: bool,
    style: Option<Seq<char>>,
    known: Seq<Option<Entry>>,
) -> Option<Seq<char>> {
    let pieces = display_pieces(display);
    let base = base_path(display, p, pieces);
    if pieces.len() == 0 {
        None
    } else {
        Some(
            painted_ancestors(scheme, base, pieces, known, pieces.len() - 1) + styled(
                pieces.last().text,
                style,
            ) + location::dir_marker(display, is_dir),
        )
    }
}

/// An optional value behind an optional reference.
pub open spec fn metadata_option(metadata: Option<&Metadata>) -> Option<Metadata> {
    match metadata {
        Some(m) => Some(*m),
        None => None,
    }
}

/// A displayed path in colour.
pub open spec fn painted(
    scheme: Scheme,
    display: Seq<char>,
    p: Seq<u8>,
    is_dir: bool,
    metadata: Option<Metadata>,
    target_exists: Option<bool>,
    known: Seq<Option<Entry>>,
) -> Seq<char> {
    let style = colors::entry_style(scheme, p, metadata, target_exists);
    let whole = styled(display, style) + location::dir_marker(display, is_dir);
    if metadata is Some {
        match painted_components(scheme, display, p, is_dir, style, known) {
            Some(s) => s,
            None => whole,
        }
    } else {
        whole
    }
}

/// A displayed path in colour, where this entry is at the path, or none.
pub open spec fn painted_entry(
    scheme: Scheme,
    display: Seq<char>,
    p: Seq<u8>,
    is_dir: bool,
    entry: Option<Entry>,
    known: Seq<Option<Entry>>,
) -> Seq<char> {
    match entry {
        Some(entry) => painted(
            scheme,
            display,
            p,
            is_dir,
            Some(entry.metadata),
            entry.target_exists_spec(),
            known,
        ),
        None => painted(scheme, display, p, is_dir, None, None, known),
    }
}

impl LsColors {
    /// A displayed path in colour, where this entry is at the path, or none. `known` says of
    /// each of the `ancestor_paths` what entry it leads to.
    pub fn colorize(
        &self,
        display: &str,
        classify_path: &FsPath,
        is_dir: bool,
        entry: Option<Entry>,
        known: &[Option<Entry>],
    ) -> (r: String)
        ensures
            r@ == painted_entry(self@, display@, classify_path@, is_dir, entry, known@),
    {
        match entry {
            Some(entry) => self.colorize_with_metadata(
                display,
                classify_path,
                is_dir,
                Some(&entry.metadata),
                entry.target_exists(),
                known,
            ),
            None => self.colorize_with_metadata(display, classify_path, is_dir, None, None, known),
        }
    }

    /// A displayed path in colour: by components where the entry exists, else as a whole.
    /// `known` says of each of the `ancestor_paths` what entry it leads to.
    pub fn colorize_with_metadata(
        &self,
        display: &str,
        classify_path: &FsPath,
        is_dir: bool,
        metadata: Option<&Metadata>,
        symlink_target_exists: Option<bool>,
        known: &[Option<Entry>],
    ) -> (r: String)
        ensures
            r@ == painted(
                self@,
                display@,
                classify_path@,
                is_dir,
                metadata_option(metadata),
                symlink_target_exists,
                known@,
            ),
    {
        if metadata.is_some() {
            if let Some(output) = self.colorize_components(
                display,
                classify_path,
                is_dir,
                metadata,
                symlink_target_exists,
                known,
            ) {
                return output;
            }
        }
        self.colorize_whole_with_metadata(
            display,
            classify_path,
            is_dir,
            metadata,
            symlink_target_exists,
        )
    }

    /// A displayed path in the one colour of its entry.
    pub fn colorize_whole_with_metadata(
        &self,
        display: &str,
        classify_path: &FsPath,
        is_dir: bool,
        metadata: Option<&Metadata>,
        symlink_target_exists: Option<bool>,
    ) -> (r: String)
        ensures
            r@ == styled(
                display@,
                colors::entry_style(
                    self@,
                    classify_path@,
                    metadata_option(metadata),
                    symlink_target_exists,
                ),
            ) + location::dir_marker(display@, is_dir),
    {
        let mut output = String::new();
        append_styled_component(
            &mut output,
            display,
            self.style_for_metadata(classify_path, metadata, symlink_target_exists),
        );
        let ghost text = output@;
        if location::takes_marker(display, is_dir) {
            output.push('/');
        }
        assert(output@ =~= text + location::dir_marker(display@, is_dir));
        output
    }

    /// A displayed path with each component in its colour; nothing for a path without
    /// components.
    pub fn colorize_components(
        &self,
        display: &str,
        classify_path: &FsPath,
        is_dir: bool,
        metadata: Option<&Metadata>,
        symlink_target_exists: Option<bool>,
        known: &[Option<Entry>],
    ) -> (r: Option<String>)
        ensures
            text::text_option(r) == painted_components(
                self@,
                display@,
                classify_path@,
                is_dir,
                colors::entry_style(
                    self@,
                    classify_path@,
                    metadata_option(metadata),
                    symlink_target_exists,
                ),
                known@,
            ),
    {
        let components = display_components(display);
        if components.len() == 0 {
            return None;
        }
        let ghost pieces = pieces_of(components@);
        let ghost base = base_path(display@, classify_path@, pieces);
        let mut current = component_base_path(display, classify_path, components.as_slice());
        let mut output = String::new();
        let last = components.len() - 1;
        let mut i: usize = 0;
        while i < last
            invariant
                i <= last,
                last == components@.len() - 1,
                pieces == pieces_of(components@),
                current@ == walked(base, pieces, i as int),
                output@ == painted_ancestors(self@, base, pieces, known@, i as int),
            decreases last - i,
        {
            assert(pieces[i as int] == components@[i as int]@);
            current = walk(current, &components[i]);
            let entry = if i < known.len() {
                known[i]
            } else {
                None
            };
            let style = match &entry {
                Some(entry) => self.style_for_metadata(
                    &current,
                    Some(&entry.metadata),
                    entry.target_exists(),
                ),
                None => self.style_for_metadata(&current, None, None),
            };
            append_styled_component(&mut output, components[i].text.as_str(), style);
            i += 1;
        }
        assert(pieces.last() == components@[last as int]@);
        append_styled_component(
            &mut output,
            components[last].text.as_str(),
            self.style_for_metadata(classify_path, metadata, symlink_target_exists),
        );
        let ghost text = output@;
        if location::takes_marker(display, is_dir) {
            output.push('/');
        }
        assert(output@ =~= text + location::dir_marker(display@, is_dir));
        Some(output)
    }
}

} // verus!
