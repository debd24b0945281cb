//! The colour scheme of the `LS_COLORS` variable.

use std::collections::HashMap;

use vstd::prelude::*;

use crate::files::FileKind;
use crate::files::Metadata;
use crate::path;
use crate::path::FsPath;
use crate::style;
use crate::text;
use crate::utf8;

verus! {

broadcast use vstd::std_specs::hash::group_hash_axioms;

/// The scheme that the variable adds to.
pub const LS_COLORS_DEFAULT: &'static str =
    "rs=0:lc=\x1b[:rc=m:cl=\x1b[K:ex=01;32:sg=30;43:su=37;41:di=01;34:st=37;44:ow=34;42:tw=30;42:ln=01;36:bd=01;33:cd=01;33:do=01;35:pi=33:so=01;35:";

/// The style of a path that does not exist.
pub const MISSING_COLOR: &'static str = "38;2;255;165;0";

/// What an entry is coloured by.
#[derive(Clone, Copy, Debug, PartialEq, Eq, Structural)]
pub enum Indicator {
    Normal,
    Regular,
    Directory,
    Symlink,
    Fifo,
    Socket,
    Block,
    Char,
    Sticky,
    OtherWritable,
    StickyOtherWritable,
    Orphan,
    Executable,
    Missing,
}

/// The indicator with a two-letter key.
pub open spec fn key_indicator(key: Seq<char>) -> Option<Indicator> {
    if key.len() != 2 {
        None
    } else {
        match (key[0], key[1]) {
            ('n', 'o') => Some(Indicator::Normal),
            ('f', 'i') => Some(Indicator::Regular),
            ('d', 'i') => Some(Indicator::Directory),
            ('l', 'n') => Some(Indicator::Symlink),
            ('p', 'i') => Some(Indicator::Fifo),
            ('s', 'o') => Some(Indicator::Socket),
            ('b', 'd') => Some(Indicator::Block),
            ('c', 'd') => Some(Indicator::Char),
            ('s', 't') => Some(Indicator::Sticky),
            ('o', 'w') => Some(Indicator::OtherWritable),
            ('t', 'w') => Some(Indicator::StickyOtherWritable),
            ('o', 'r') => Some(Indicator::Orphan),
            ('e', 'x') => Some(Indicator::Executable),
            ('m', 'i') => Some(Indicator::Missing),
            _ => None,
        }
    }
}

impl Indicator {
    /// The indicator with a two-letter key.
    pub fn from_key(key: &str) -> (r: Option<Indicator>)
        ensures
            r == key_indicator(key@),
    {
        let chars = text::chars_of(key);
        if chars.len() != 2 {
            return None;
        }
        match (chars[0], chars[1]) {
            ('n', 'o') => Some(Indicator::Normal),
            ('f', 'i') => Some(Indicator::Regular),
            ('d', 'i') => Some(Indicator::Directory),
            ('l', 'n') => Some(Indicator::Symlink),
            ('p', 'i') => Some(Indicator::Fifo),
            ('s', 'o') => Some(Indicator::Socket),
            ('b', 'd') => Some(Indicator::Block),
            ('c', 'd') => Some(Indicator::Char),
            ('s', 't') => Some(Indicator::Sticky),
            ('o', 'w') => Some(Indicator::OtherWritable),
            ('t', 'w') => Some(Indicator::StickyOtherWritable),
            ('o', 'r') => Some(Indicator::Orphan),
            ('e', 'x') => Some(Indicator::Executable),
            ('m', 'i') => Some(Indicator::Missing),
            _ => None,
        }
    }

    /// A number for each indicator.
    pub open spec fn number(self) -> u8 {
        match self {
            Indicator::Normal => 0,
            Indicator::Regular => 1,
            Indicator::Directory => 2,
            Indicator::Symlink => 3,
            Indicator::Fifo => 4,
            Indicator::Socket => 5,
            Indicator::Block => 6,
            Indicator::Char => 7,
            Indicator::Sticky => 8,
            Indicator::OtherWritable => 9,
            Indicator::StickyOtherWritable => 10,
            Indicator::Orphan => 11,
            Indicator::Executable => 12,
            Indicator::Missing => 13,
        }
    }

    /// A number for each indicator.
    fn slot(self) -> (r: u8)
        ensures
            r == self.number(),
    {
        match self {
            Indicator::Normal => 0,
            Indicator::Regular => 1,
            Indicator::Directory => 2,
            Indicator::Symlink => 3,
            Indicator::Fifo => 4,
            Indicator::Socket => 5,
            Indicator::Block => 6,
            Indicator::Char => 7,
            Indicator::Sticky => 8,
            Indicator::OtherWritable => 9,
            Indicator::StickyOtherWritable => 10,
            Indicator::Orphan => 11,
            Indicator::Executable => 12,
            Indicator::Missing => 13,
        }
    }

    /// The indicator whose style stands in where this one has none.
    pub open spec fn fallback_spec(self) -> Indicator {
        match self {
            Indicator::Executable => Indicator::Regular,
            Indicator::Sticky => Indicator::Directory,
            Indicator::OtherWritable => Indicator::Directory,
            Indicator::StickyOtherWritable => Indicator::Directory,
            Indicator::Orphan => Indicator::Symlink,
            Indicator::Missing => Indicator::Symlink,
            _ => self,
        }
    }

    /// The indicator whose style stands in where this one has none.
    fn fallback(self) -> (r: Indicator)
        ensures
            r == self.fallback_spec(),
    {
        match self {
            Indicator::Executable => Indicator::Regular,
            Indicator::Sticky => Indicator::Directory,
            Indicator::OtherWritable => Indicator::Directory,
            Indicator::StickyOtherWritable => Indicator::Directory,
            Indicator::Orphan => Indicator::Symlink,
            Indicator::Missing => Indicator::Symlink,
            _ => self,
        }
    }
}

/// The indicator of an entry; `Missing` where there is none.
pub open spec fn indicator_of(metadata: Option<Metadata>, target_exists: Option<bool>) -> Indicator {
    match metadata {
        None => Indicator::Missing,
        Some(m) => match m.kind {
            FileKind::Directory => {
                let sticky = m.mode & 0o1000 != 0;
                let other_writable = m.mode & 0o002 != 0;
                if sticky && other_writable {
                    Indicator::StickyOtherWritable
                } else if other_writable {
                    Indicator::OtherWritable
                } else if sticky {
                    Indicator::Sticky
                } else {
                    Indicator::Directory
                }
            },
            FileKind::Symlink => if target_exists == Some(true) {
                Indicator::Symlink
            } else {
                Indicator::Orphan
            },
            FileKind::Regular => if m.mode & 0o111 != 0 {
                Indicator::Executable
            } else {
                Indicator::Regular
            },
            FileKind::Fifo => Indicator::Fifo,
            FileKind::Socket => Indicator::Socket,
            FileKind::Block => Indicator::Block,
            FileKind::Char => Indicator::Char,
            FileKind::Unknown => Indicator::Missing,
        },
    }
}

/// The indicator of an entry; `Missing` where there is none.
pub fn indicator_for(metadata: Option<&Metadata>, symlink_target_exists: Option<bool>) -> (r:
    Indicator)
    ensures
        r == indicator_of(
            match metadata {
                Some(m) => Some(*m),
                None => None,
            },
            symlink_target_exists,
        ),
{
    let metadata = match metadata {
        Some(metadata) => metadata,
        None => return Indicator::Missing,
    };
    match metadata.kind {
        FileKind::Directory => {
            let is_sticky = metadata.mode & 0o1000 != 0;
            let is_other_writable = metadata.mode & 0o002 != 0;
            if is_sticky && is_other_writable {
                return Indicator::StickyOtherWritable;
            }
            if is_other_writable {
                return Indicator::OtherWritable;
            }
            if is_sticky {
                return Indicator::Sticky;
            }
            Indicator::Directory
        },
        FileKind::Symlink => {
            match symlink_target_exists {
                Some(true) => Indicator::Symlink,
                _ => Indicator::Orphan,
            }
        },
        FileKind::Regular => {
            if metadata.mode & 0o111 != 0 {
                return Indicator::Executable;
            }
            Indicator::Regular
        },
        FileKind::Fifo => Indicator::Fifo,
        FileKind::Socket => Indicator::Socket,
        FileKind::Block => Indicator::Block,
        FileKind::Char => Indicator::Char,
        FileKind::Unknown => Indicator::Missing,
    }
}

/// A byte with an ASCII capital letter made small.
pub open spec fn lower(b: u8) -> u8 {
    if 65 <= b <= 90 {
        (b + 32) as u8
    } else {
        b
    }
}

/// Whether `name` ends in `suffix`, the case of ASCII letters left aside.
pub open spec fn ends_ignoring_case(name: Seq<u8>, suffix: Seq<u8>) -> bool {
    &&& suffix.len() <= name.len()
    &&& forall|i: int|
        0 <= i < suffix.len() ==> lower(name[name.len() - suffix.len() + i]) == lower(
            #[trigger] suffix[i],
        )
}

/// A byte with an ASCII capital letter made small.
fn lowered(b: u8) -> (r: u8)
    ensures
        r == lower(b),
{
    if 65 <= b && b <= 90 {
        b + 32
    } else {
        b
    }
}

/// Whether `name` ends in `suffix`, the case of ASCII letters left aside.
pub fn ends_with_ignore_ascii_case(name: &str, suffix: &str) -> (r: bool)
    ensures
        r == ends_ignoring_case(
            vstd::utf8::encode_utf8(name@),
            vstd::utf8::encode_utf8(suffix@),
        ),
{
    let a = name.as_bytes();
    let b = suffix.as_bytes();
    if a.len() < b.len() {
        return false;
    }
    let total: usize = a.len();
    let start: usize = total - b.len();
    let mut i: usize = 0;
    while i < b.len()
        invariant
            a@ == vstd::utf8::encode_utf8(name@),
            b@ == vstd::utf8::encode_utf8(suffix@),
            i <= b@.len() <= a@.len() == total,
            start == a@.len() - b@.len(),
            forall|j: int| 0 <= j < i ==> lower(a@[start + j]) == lower(#[trigger] b@[j]),
        decreases b@.len() - i,
    {
        if lowered(a[start + i]) != lowered(b[i]) {
            assert(lower(a@[a@.len() - b@.len() + i]) != lower(b@[i as int]));
            return false;
        }
        i += 1;
    }
    true
}

/// The styles of a colour scheme.
pub struct Scheme {
    /// The style of each indicator that has one.
    pub indicators: Map<Indicator, Seq<char>>,
    /// Suffixes of file names with their styles; the last one that fits a name counts.
    pub suffixes: Seq<(Seq<char>, Seq<char>)>,
}

/// The suffixes without those that are `suffix`.
pub open spec fn without_suffix(suffixes: Seq<(Seq<char>, Seq<char>)>, suffix: Seq<char>) -> Seq<
    (Seq<char>, Seq<char>),
>
    decreases suffixes.len(),
{
    if suffixes.len() == 0 {
        Seq::empty()
    } else {
        let before = without_suffix(suffixes.drop_last(), suffix);
        if suffixes.last().0 == suffix {
            before
        } else {
            before.push(suffixes.last())
        }
    }
}

/// Whether a style takes the style of a key away.
pub open spec fn clears(style: Seq<char>) -> bool {
    style.len() == 0 || style == seq!['0'] || style == seq!['0', '0']
}

/// The scheme after one entry `key=style` of the variable. A key is a `*` and a suffix, or two
/// letters; an entry without `=` or with another key changes nothing.
pub open spec fn with_entry(scheme: Scheme, entry: Seq<char>) -> Scheme {
    match text::split_first(entry, '=') {
        None => scheme,
        Some((key, value)) => if text::begins(key, seq!['*']) {
            Scheme {
                suffixes: if clears(value) {
                    without_suffix(scheme.suffixes, key.skip(1))
                } else {
                    scheme.suffixes.push((key.skip(1), style::normalized_style(value)))
                },
                ..scheme
            }
        } else {
            match key_indicator(key) {
                None => scheme,
                Some(indicator) => Scheme {
                    indicators: if clears(value) {
                        scheme.indicators.remove(indicator)
                    } else {
                        scheme.indicators.insert(indicator, style::normalized_style(value))
                    },
                    ..scheme
                },
            }
        },
    }
}

/// The scheme after the entries, in their order.
pub open spec fn with_entries(scheme: Scheme, entries: Seq<Seq<char>>) -> Scheme
    decreases entries.len(),
{
    if entries.len() == 0 {
        scheme
    } else {
        with_entry(with_entries(scheme, entries.drop_last()), entries.last())
    }
}

/// The scheme after a value of the variable: entries between `:`.
pub open spec fn with_variable(scheme: Scheme, value: Seq<char>) -> Scheme {
    with_entries(scheme, text::split(value, ':'))
}

/// A scheme without any style.
pub open spec fn no_styles() -> Scheme {
    Scheme { indicators: Map::empty(), suffixes: Seq::empty() }
}

/// The scheme for a value of the variable.
pub open spec fn scheme_for(value: Option<Seq<char>>) -> Scheme {
    let default = with_variable(no_styles(), LS_COLORS_DEFAULT@);
    match value {
        Some(value) => with_variable(default, value),
        None => default,
    }
}

/// The style of the last suffix that fits a name.
pub open spec fn suffix_style(suffixes: Seq<(Seq<char>, Seq<char>)>, name: Seq<char>) -> Option<
    Seq<char>,
>
    decreases suffixes.len(),
{
    if suffixes.len() == 0 {
        None
    } else if ends_ignoring_case(
        vstd::utf8::encode_utf8(name),
        vstd::utf8::encode_utf8(suffixes.last().0),
    ) {
        Some(suffixes.last().1)
    } else {
        suffix_style(suffixes.drop_last(), name)
    }
}

/// The style of an indicator: its own, else that of its fallback, else the normal one.
pub open spec fn indicator_style(
    indicators: Map<Indicator, Seq<char>>,
    indicator: Indicator,
) -> Option<Seq<char>> {
    if indicators.contains_key(indicator) {
        Some(indicators[indicator])
    } else if indicators.contains_key(indicator.fallback_spec()) {
        Some(indicators[indicator.fallback_spec()])
    } else if indicators.contains_key(Indicator::Normal) {
        Some(indicators[Indicator::Normal])
    } else {
        None
    }
}

/// The name at the end of a path, where it is valid UTF-8.
pub open spec fn name_text(p: Seq<u8>) -> Option<Seq<char>> {
    match path::file_name(p) {
        Some(name) => if vstd::utf8::valid_utf8(name) {
            Some(vstd::utf8::decode_utf8(name))
        } else {
            None
        },
        None => None,
    }
}

/// The style of an entry.
pub open spec fn entry_style(
    scheme: Scheme,
    p: Seq<u8>,
    metadata: Option<Metadata>,
    target_exists: Option<bool>,
) -> Option<Seq<char>> {
    let indicator = indicator_of(metadata, target_exists);
    if indicator == Indicator::Missing {
        Some(MISSING_COLOR@)
    } else if indicator == Indicator::Regular && name_text(p) is Some && suffix_style(
        scheme.suffixes,
        name_text(p)->0,
    ) is Some {
        suffix_style(scheme.suffixes, name_text(p)->0)
    } else {
        indicator_style(scheme.indicators, indicator)
    }
}

/// A colour scheme.
#[derive(Clone, Debug)]
pub struct LsColors {
    indicators: HashMap<u8, String>,
    suffixes: Vec<(String, String)>,
}

/// The texts of suffixes with their styles.
pub open spec fn suffix_texts(suffixes: Seq<(String, String)>) -> Seq<(Seq<char>, Seq<char>)> {
    suffixes.map_values(|s: (String, String)| (s.0@, s.1@))
}

/// The styles by indicator of styles by number.
pub open spec fn by_indicator(styles: Map<u8, String>) -> Map<Indicator, Seq<char>> {
    Map::new(
        |i: Indicator| styles.contains_key(i.number()),
        |i: Indicator| styles[i.number()]@,
    )
}

impl View for LsColors {
    type V = Scheme;

    closed spec fn view(&self) -> Scheme {
        Scheme {
            indicators: by_indicator(self.indicators@),
            suffixes: suffix_texts(self.suffixes@),
        }
    }
}

/// Whether a style takes the style of a key away.
fn is_cleared_by(style: &[char]) -> (r: bool)
    ensures
        r == clears(style@),
{
    let zero = ['0'];
    let zeros = ['0', '0'];
    assert(zero@ =~= seq!['0']);
    assert(zeros@ =~= seq!['0', '0']);
    style.len() == 0 || text::same_text(style, &zero) || text::same_text(style, &zeros)
}

impl LsColors {
    /// The default scheme with the entries of a value of the variable added.
    pub fn new(env_value: Option<&str>) -> (colors: LsColors)
        ensures
            colors@ == scheme_for(text::str_option(env_value)),
    {
        let mut colors = LsColors { indicators: HashMap::new(), suffixes: Vec::new() };
        assert(colors@.indicators =~= no_styles().indicators);
        assert(colors@.suffixes =~= no_styles().suffixes);
        colors.add_from_string(LS_COLORS_DEFAULT);
        if let Some(value) = env_value {
            colors.add_from_string(value);
        }
        colors
    }

    /// Adds the entries of a value of the variable, in their order.
    pub fn add_from_string(&mut self, input: &str)
        ensures
            final(self)@ == with_variable(old(self)@, input@),
    {
        let chars = text::chars_of(input);
        let entries = text::split_all(chars.as_slice(), ':');
        let ghost start = self@;
        let ghost all = text::texts(entries@);
        let mut i: usize = 0;
        while i < entries.len()
            invariant
                i <= entries@.len(),
                all == text::texts(entries@),
                self@ == with_entries(start, all.take(i as int)),
            decreases entries@.len() - i,
        {
            self.add_entry(entries[i].as_str());
            assert(all.take(i as int + 1).drop_last() =~= all.take(i as int));
            assert(all.take(i as int + 1).last() == entries@[i as int]@);
            i += 1;
        }
        assert(all.take(i as int) =~= all);
    }

    /// Adds one entry `key=style`.
    fn add_entry(&mut self, entry: &str)
        ensures
            final(self)@ == with_entry(old(self)@, entry@),
    {
        let chars = text::chars_of(entry);
        let (key, value) = match text::split_once(chars.as_slice(), '=') {
            Some(sides) => sides,
            None => return,
        };
        let star = ['*'];
        assert(star@ =~= seq!['*']);
        let style_text = text::string_of(value);
        if text::begins_with(key, &star) {
            let suffix = vstd::slice::slice_subrange(key, 1, key.len());
            assert(suffix@ =~= key@.skip(1));
            if is_cleared_by(value) {
                self.remove_suffix(suffix);
            } else {
                let ghost before = self.suffixes@;
                self.suffixes.push(
                    (
                        text::string_of(suffix),
                        style::normalize_ls_color_style(style_text.as_str()),
                    ),
                );
                assert(suffix_texts(self.suffixes@) =~= suffix_texts(before).push(
                    (suffix@, style::normalized_style(value@)),
                ));
            }
        } else {
            let key_text = text::string_of(key);
            if let Some(indicator) = Indicator::from_key(key_text.as_str()) {
                let slot = indicator.slot();
                let ghost before = self.indicators@;
                if is_cleared_by(value) {
                    self.indicators.remove(&slot);
                    assert(by_indicator(self.indicators@) =~= by_indicator(before).remove(
                        indicator,
                    ));
                } else {
                    self.indicators.insert(
                        slot,
                        style::normalize_ls_color_style(style_text.as_str()),
                    );
                    assert(by_indicator(self.indicators@) =~= by_indicator(before).insert(
                        indicator,
                        style::normalized_style(value@),
                    ));
                }
            }
        }
    }

    /// Takes the entries for a suffix away.
    fn remove_suffix(&mut self, suffix: &[char])
        ensures
            final(self)@ == (Scheme {
                suffixes: without_suffix(old(self)@.suffixes, suffix@),
                ..old(self)@
            }),
    {
        let ghost all = suffix_texts(self.suffixes@);
        let mut kept: Vec<(String, String)> = Vec::new();
        let mut i: usize = 0;
        assert(suffix_texts(kept@) =~= without_suffix(all.take(0), suffix@));
        while i < self.suffixes.len()
            invariant
                i <= self.suffixes@.len(),
                *self == *old(self),
                all == suffix_texts(self.suffixes@),
                suffix_texts(kept@) == without_suffix(all.take(i as int), suffix@),
            decreases self.suffixes@.len() - i,
        {
            let known = text::chars_of(self.suffixes[i].0.as_str());
            let ghost before = kept@;
            assert(all.take(i as int + 1).drop_last() =~= all.take(i as int));
            assert(all.take(i as int + 1).last() == all[i as int]);
            if !text::same_text(known.as_slice(), suffix) {
                kept.push((self.suffixes[i].0.clone(), self.suffixes[i].1.clone()));
                assert(suffix_texts(kept@) =~= suffix_texts(before).push(all[i as int]));
            }
            i += 1;
        }
        assert(all.take(i as int) =~= all);
        self.suffixes = kept;
    }

    /// The style of the last suffix that fits a name.
    pub fn style_for_suffix(&self, name: &str) -> (r: Option<&str>)
        ensures
            text::str_option(r) == suffix_style(self@.suffixes, name@),
    {
        let ghost all = suffix_texts(self.suffixes@);
        let mut found: Option<&str> = None;
        let mut i: usize = 0;
        while i < self.suffixes.len()
            invariant
                i <= self.suffixes@.len(),
                all == suffix_texts(self.suffixes@),
                text::str_option(found) == suffix_style(all.take(i as int), name@),
            decreases self.suffixes@.len() - i,
        {
            assert(all.take(i as int + 1).drop_last() =~= all.take(i as int));
            assert(all.take(i as int + 1).last() == all[i as int]);
            if ends_with_ignore_ascii_case(name, self.suffixes[i].0.as_str()) {
                found = Some(self.suffixes[i].1.as_str());
            }
            i += 1;
        }
        assert(all.take(i as int) =~= all);
        found
    }

    /// The style of an indicator: its own, else that of its fallback, else the normal one.
    pub fn style_for_indicator(&self, indicator: Indicator) -> (r: Option<&str>)
        ensures
            text::str_option(r) == indicator_style(self@.indicators, indicator),
    {
        if let Some(style) = self.indicators.get(&indicator.slot()) {
            return Some(style.as_str());
        }
        if let Some(style) = self.indicators.get(&indicator.fallback().slot()) {
            return Some(style.as_str());
        }
        match self.indicators.get(&Indicator::Normal.slot()) {
            Some(style) => Some(style.as_str()),
            None => None,
        }
    }

    /// The style of an entry.
    pub fn style_for_metadata(
        &self,
        path: &FsPath,
        metadata: Option<&Metadata>,
        symlink_target_exists: Option<bool>,
    ) -> (r: Option<&str>)
        ensures
            text::str_option(r) == entry_style(
                self@,
                path@,
                match metadata {
                    Some(m) => Some(*m),
                    None => None,
                },
                symlink_target_exists,
            ),
    {
        let indicator = indicator_for(metadata, symlink_target_exists);
        match indicator {
            Indicator::Missing => return Some(MISSING_COLOR),
            Indicator::Regular => {
                if let Some(file_name) = path.file_name() {
                    if let Some(name) = utf8::text_exact(file_name.bytes.as_slice()) {
                        if let Some(style) = self.style_for_suffix(name) {
                            return Some(style);
                        }
                    }
                }
            },
            _ => {},
        }
        self.style_for_indicator(indicator)
    }
}

/// An entry `key=style` for an indicator sets the style of that indicator, or takes it away where
/// the style is empty, `0` or `00`, and changes nothing else.
pub proof fn law_entry_sets_an_indicator(scheme: Scheme, key: Seq<char>, value: Seq<char>)
    requires
        key_indicator(key) is Some,
    ensures
        with_entry(scheme, key.push('=') + value) == (Scheme {
            indicators: if clears(value) {
                scheme.indicators.remove(key_indicator(key)->0)
            } else {
                scheme.indicators.insert(key_indicator(key)->0, style::normalized_style(value))
            },
            ..scheme
        }),
{
    assert(key[0] != '=' && key[1] != '=');
    assert(!key.contains('='));
    text::law_sides_are_read_back(key, '=', value);
    if text::begins(key, seq!['*']) {
        assert(key.take(1)[0] == '*');
    }
}

/// An entry `*suffix=style` adds the style behind those that are known, or takes all styles of
/// that suffix away where the style is empty, `0` or `00`, and changes nothing else.
pub proof fn law_entry_sets_a_suffix(scheme: Scheme, suffix: Seq<char>, value: Seq<char>)
    requires
        !suffix.contains('='),
    ensures
        with_entry(scheme, (seq!['*'] + suffix).push('=') + value) == (Scheme {
            suffixes: if clears(value) {
                without_suffix(scheme.suffixes, suffix)
            } else {
                scheme.suffixes.push((suffix, style::normalized_style(value)))
            },
            ..scheme
        }),
{
    let key = seq!['*'] + suffix;
    assert(!key.contains('=')) by {
        if key.contains('=') {
            let i = key.index_of('=');
            assert(suffix[i - 1] == '=');
        }
    }
    text::law_sides_are_read_back(key, '=', value);
    assert(key.take(1) =~= seq!['*']);
    assert(key.skip(1) =~= suffix);
}

/// A suffix that is taken away is gone, and no other is.
pub proof fn law_cleared_suffix_is_gone(
    suffixes: Seq<(Seq<char>, Seq<char>)>,
    suffix: Seq<char>,
    known: (Seq<char>, Seq<char>),
)
    ensures
        without_suffix(suffixes, suffix).contains(known) <==> suffixes.contains(known) && known.0
            != suffix,
    decreases suffixes.len(),
{
    let kept = without_suffix(suffixes, suffix);
    if suffixes.len() > 0 {
        let before = suffixes.drop_last();
        let last = suffixes.last();
        law_cleared_suffix_is_gone(before, suffix, known);
        assert(suffixes =~= before.push(last));
        assert(suffixes.contains(known) <==> before.contains(known) || last == known) by {
            if before.contains(known) {
                assert(suffixes[before.index_of(known)] == known);
            }
            if last == known {
                assert(suffixes[suffixes.len() - 1] == known);
            }
            if suffixes.contains(known) && last != known {
                assert(before[suffixes.index_of(known)] == known);
            }
        }
        if last.0 != suffix {
            let kept_before = without_suffix(before, suffix);
            assert(kept == kept_before.push(last));
            if kept_before.contains(known) {
                assert(kept[kept_before.index_of(known)] == known);
            }
            if last == known {
                assert(kept[kept.len() - 1] == known);
            }
            if kept.contains(known) && last != known {
                assert(kept_before[kept.index_of(known)] == known);
            }
        }
    }
}

/// Of two styles for suffixes of a name the later one counts.
pub proof fn law_later_suffix_counts(
    suffixes: Seq<(Seq<char>, Seq<char>)>,
    suffix: Seq<char>,
    style: Seq<char>,
    name: Seq<char>,
)
    requires
        ends_ignoring_case(vstd::utf8::encode_utf8(name), vstd::utf8::encode_utf8(suffix)),
    ensures
        suffix_style(suffixes.push((suffix, style)), name) == Some(style),
{
}

/// Whether a name ends in a suffix does not depend on the case of ASCII letters in either.
pub proof fn law_case_does_not_matter(name: Seq<u8>, suffix: Seq<u8>)
    ensures
        ends_ignoring_case(name, suffix) == ends_ignoring_case(
            name.map_values(|b: u8| lower(b)),
            suffix.map_values(|b: u8| lower(b)),
        ),
{
    let n = name.map_values(|b: u8| lower(b));
    let s = suffix.map_values(|b: u8| lower(b));
    if ends_ignoring_case(n, s) {
        assert forall|i: int| 0 <= i < suffix.len() implies lower(
            name[name.len() - suffix.len() + i],
        ) == lower(#[trigger] suffix[i]) by {
            assert(s[i] == lower(suffix[i]));
        }
    }
}

/// A path that does not exist has one style, whatever the scheme.
pub proof fn law_missing_has_its_own_style(
    scheme: Scheme,
    p: Seq<u8>,
    target_exists: Option<bool>,
)
    ensures
        entry_style(scheme, p, None, target_exists) == Some(MISSING_COLOR@),
{
}

proof fn lemma_entries_in_order(scheme: Scheme, a: Seq<Seq<char>>, b: Seq<Seq<char>>)
    ensures
        with_entries(scheme, a + b) == with_entries(with_entries(scheme, a), b),
    decreases b.len(),
{
    if b.len() == 0 {
        assert(a + b =~= a);
    } else {
        assert((a + b).drop_last() =~= a + b.drop_last());
        lemma_entries_in_order(scheme, a, b.drop_last());
    }
}

/// Two values of the variable, one after the other, are one value with `:` between them.
pub proof fn law_values_add_up(scheme: Scheme, a: Seq<char>, b: Seq<char>)
    ensures
        with_variable(with_variable(scheme, a), b) == with_variable(scheme, a.push(':') + b),
{
    text::law_split_of_both(a, b, ':');
    lemma_entries_in_order(scheme, text::split(a, ':'), text::split(b, ':'));
}

} // verus!
