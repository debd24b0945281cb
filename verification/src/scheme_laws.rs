//! What holds of the colours of a scheme, and of the entries that they are given to.

use vstd::prelude::*;

use crate::colors;
use crate::colors::Indicator;
use crate::colors::Scheme;
use crate::files::Entry;
use crate::files::FileKind;
use crate::files::Metadata;
use crate::path_laws;
use crate::style;
use crate::text;

verus! {

/// The keys of the indicators, and no other text is one.
pub proof fn law_keys_of_indicators(key: Seq<char>)
    ensures
        colors::key_indicator(key) == Some(Indicator::Normal) <==> key == seq!['n', 'o'],
        colors::key_indicator(key) == Some(Indicator::Regular) <==> key == seq!['f', 'i'],
        colors::key_indicator(key) == Some(Indicator::Directory) <==> key == seq!['d', 'i'],
        colors::key_indicator(key) == Some(Indicator::Symlink) <==> key == seq!['l', 'n'],
        colors::key_indicator(key) == Some(Indicator::Fifo) <==> key == seq!['p', 'i'],
        colors::key_indicator(key) == Some(Indicator::Socket) <==> key == seq!['s', 'o'],
        colors::key_indicator(key) == Some(Indicator::Block) <==> key == seq!['b', 'd'],
        colors::key_indicator(key) == Some(Indicator::Char) <==> key == seq!['c', 'd'],
        colors::key_indicator(key) == Some(Indicator::Sticky) <==> key == seq!['s', 't'],
        colors::key_indicator(key) == Some(Indicator::OtherWritable) <==> key == seq!['o', 'w'],
        colors::key_indicator(key) == Some(Indicator::StickyOtherWritable) <==> key == seq![
            't',
            'w',
        ],
        colors::key_indicator(key) == Some(Indicator::Orphan) <==> key == seq!['o', 'r'],
        colors::key_indicator(key) == Some(Indicator::Executable) <==> key == seq!['e', 'x'],
        colors::key_indicator(key) == Some(Indicator::Missing) <==> key == seq!['m', 'i'],
{
    if key.len() == 2 {
        assert(key =~= seq![key[0], key[1]]);
    }
}

/// A style of at most two characters that are all `0` takes the style of its key away, and no
/// other does.
pub proof fn law_zeros_clear(style: Seq<char>)
    ensures
        colors::clears(style) <==> style.len() <= 2 && forall|i: int|
            0 <= i < style.len() ==> #[trigger] style[i] == '0',
{
    if style.len() <= 2 && forall|i: int| 0 <= i < style.len() ==> #[trigger] style[i] == '0' {
        if style.len() == 1 {
            assert(style[0] == '0');
            assert(style =~= seq!['0']);
        } else if style.len() == 2 {
            assert(style[0] == '0' && style[1] == '0');
            assert(style =~= seq!['0', '0']);
        }
    }
}

/// A value without `:` is one entry.
pub proof fn law_one_entry_is_a_value(scheme: Scheme, entry: Seq<char>)
    requires
        !entry.contains(':'),
    ensures
        colors::with_variable(scheme, entry) == colors::with_entry(scheme, entry),
{
    text::law_split_of_whole(entry, ':');
    let entries = seq![entry];
    assert(entries.drop_last() =~= Seq::empty());
    assert(colors::with_entries(scheme, entries.drop_last()) == scheme);
    assert(colors::with_entries(scheme, entries) == colors::with_entry(scheme, entry));
}

/// The last entry for an indicator counts, whatever stands before it, and it leaves the other
/// indicators and the suffixes as they are.
pub proof fn law_last_entry_for_an_indicator_counts(
    scheme: Scheme,
    before: Seq<char>,
    key: Seq<char>,
    value: Seq<char>,
    indicator: Indicator,
    other: Indicator,
)
    requires
        colors::key_indicator(key) == Some(indicator),
        !value.contains(':'),
        other != indicator,
    ensures
        ({
            let earlier = colors::with_variable(scheme, before);
            let later = colors::with_variable(
                scheme,
                before.push(':') + (key.push('=') + value),
            );
            &&& later.suffixes == earlier.suffixes
            &&& later.indicators.contains_key(other) == earlier.indicators.contains_key(other)
            &&& earlier.indicators.contains_key(other) ==> later.indicators[other]
                == earlier.indicators[other]
            &&& value.len() <= 2 && (forall|i: int| 0 <= i < value.len() ==> value[i] == '0')
                ==> !later.indicators.contains_key(indicator)
            &&& !(value.len() <= 2 && (forall|i: int| 0 <= i < value.len() ==> value[i] == '0'))
                ==> later.indicators.contains_key(indicator) && later.indicators[indicator]
                == style::normalized_style(value)
        }),
{
    let entry = key.push('=') + value;
    law_keys_of_indicators(key);
    assert(!entry.contains(':')) by {
        if entry.contains(':') {
            let i = entry.index_of(':');
            if i > 2 {
                assert(value[i - 3] == ':');
            }
        }
    }
    let earlier = colors::with_variable(scheme, before);
    colors::law_values_add_up(scheme, before, entry);
    law_one_entry_is_a_value(earlier, entry);
    colors::law_entry_sets_an_indicator(earlier, key, value);
    law_zeros_clear(value);
}

/// An entry without `=`, or whose key is neither a `*` with what follows nor that of an indicator,
/// changes nothing.
pub proof fn law_other_entries_change_nothing(scheme: Scheme, key: Seq<char>, value: Seq<char>)
    requires
        !key.contains('='),
    ensures
        colors::with_entry(scheme, key) == scheme,
        (key.len() == 0 || key[0] != '*') && colors::key_indicator(key) is None
            ==> colors::with_entry(scheme, key.push('=') + value) == scheme,
{
    text::law_sides_are_read_back(key, '=', value);
    text::law_no_sides(key, '=');
    if text::begins(key, seq!['*']) {
        assert(key.take(1)[0] == '*');
    }
}

proof fn lemma_bits(mode: u32)
    ensures
        mode & 0o1000 != 0 <==> (mode / 512) % 2 == 1,
        mode & 0o002 != 0 <==> (mode / 2) % 2 == 1,
        mode & 0o111 != 0 <==> mode % 2 == 1 || (mode / 8) % 2 == 1 || (mode / 64) % 2 == 1,
{
    assert(mode & 0o1000 != 0 <==> (mode / 512) % 2 == 1) by (bit_vector);
    assert(mode & 0o002 != 0 <==> (mode / 2) % 2 == 1) by (bit_vector);
    assert(mode & 0o111 != 0 <==> mode % 2 == 1 || (mode / 8) % 2 == 1 || (mode / 64) % 2 == 1)
        by (bit_vector);
}

/// A directory is told by its sticky bit and by whether others may write to it.
pub proof fn law_indicators_of_directories(mode: u32, target_exists: Option<bool>)
    ensures
        ({
            let sticky = (mode / 512) % 2 == 1;
            let other_writable = (mode / 2) % 2 == 1;
            let found = colors::indicator_of(
                Some(Metadata { kind: FileKind::Directory, mode }),
                target_exists,
            );
            &&& found == Indicator::StickyOtherWritable <==> sticky && other_writable
            &&& found == Indicator::OtherWritable <==> !sticky && other_writable
            &&& found == Indicator::Sticky <==> sticky && !other_writable
            &&& found == Indicator::Directory <==> !sticky && !other_writable
        }),
{
    lemma_bits(mode);
}

/// A file is executable where anybody may execute it.
pub proof fn law_indicators_of_files(mode: u32, target_exists: Option<bool>)
    ensures
        ({
            let found = colors::indicator_of(
                Some(Metadata { kind: FileKind::Regular, mode }),
                target_exists,
            );
            let executable = mode % 2 == 1 || (mode / 8) % 2 == 1 || (mode / 64) % 2 == 1;
            &&& found == Indicator::Executable <==> executable
            &&& found == Indicator::Regular <==> !executable
        }),
{
    lemma_bits(mode);
}

/// A symbolic link is an orphan unless its target is known to exist; other kinds have one
/// indicator each, and what is not there, or of no known kind, is missing.
pub proof fn law_indicators_of_other_kinds(mode: u32, target_exists: Option<bool>)
    ensures
        colors::indicator_of(
            Some(Metadata { kind: FileKind::Symlink, mode }),
            Some(true),
        ) == Indicator::Symlink,
        target_exists != Some(true) ==> colors::indicator_of(
            Some(Metadata { kind: FileKind::Symlink, mode }),
            target_exists,
        ) == Indicator::Orphan,
        colors::indicator_of(Some(Metadata { kind: FileKind::Fifo, mode }), target_exists)
            == Indicator::Fifo,
        colors::indicator_of(Some(Metadata { kind: FileKind::Socket, mode }), target_exists)
            == Indicator::Socket,
        colors::indicator_of(Some(Metadata { kind: FileKind::Block, mode }), target_exists)
            == Indicator::Block,
        colors::indicator_of(Some(Metadata { kind: FileKind::Char, mode }), target_exists)
            == Indicator::Char,
        colors::indicator_of(Some(Metadata { kind: FileKind::Unknown, mode }), target_exists)
            == Indicator::Missing,
        colors::indicator_of(None, target_exists) == Indicator::Missing,
{
}

/// Whether the style of `other` is one that stands in for that of `indicator`: an executable is a
/// file, directories of all sorts are directories, and links to nothing are links.
pub open spec fn stands_in(other: Indicator, indicator: Indicator) -> bool {
    ||| other == Indicator::Regular && indicator == Indicator::Executable
    ||| other == Indicator::Directory && (indicator == Indicator::Sticky || indicator
        == Indicator::OtherWritable || indicator == Indicator::StickyOtherWritable)
    ||| other == Indicator::Symlink && (indicator == Indicator::Orphan || indicator
        == Indicator::Missing)
}

/// The style of an indicator is its own, where it has one; else that of the indicator that stands
/// in for it; else the normal one; else none.
pub proof fn law_styles_stand_in(
    indicators: Map<Indicator, Seq<char>>,
    indicator: Indicator,
    other: Indicator,
)
    ensures
        indicators.contains_key(indicator) ==> colors::indicator_style(indicators, indicator)
            == Some(indicators[indicator]),
        !indicators.contains_key(indicator) && stands_in(other, indicator)
            && indicators.contains_key(other) ==> colors::indicator_style(indicators, indicator)
            == Some(indicators[other]),
        !indicators.contains_key(indicator) && (forall|i: Indicator|
            #[trigger] stands_in(i, indicator) ==> !indicators.contains_key(i)) ==> {
            &&& indicators.contains_key(Indicator::Normal) ==> colors::indicator_style(
                indicators,
                indicator,
            ) == Some(indicators[Indicator::Normal])
            &&& !indicators.contains_key(Indicator::Normal) ==> colors::indicator_style(
                indicators,
                indicator,
            ) is None
        },
{
    assert(stands_in(Indicator::Regular, indicator) <==> indicator == Indicator::Executable);
    assert(stands_in(Indicator::Directory, indicator) <==> indicator == Indicator::Sticky
        || indicator == Indicator::OtherWritable || indicator == Indicator::StickyOtherWritable);
    assert(stands_in(Indicator::Symlink, indicator) <==> indicator == Indicator::Orphan || indicator
        == Indicator::Missing);
}

/// Whether two bytes are the same, the case of an ASCII letter left aside.
pub open spec fn same_letter(a: u8, b: u8) -> bool {
    ||| a == b
    ||| 65 <= a <= 90 && b == a + 32
    ||| 65 <= b <= 90 && a == b + 32
}

/// A name ends in a suffix where its last bytes are those of the suffix, the case of ASCII letters
/// left aside.
pub proof fn law_endings_match_byte_by_byte(before: Seq<u8>, end: Seq<u8>, suffix: Seq<u8>)
    ensures
        end.len() == suffix.len() ==> (colors::ends_ignoring_case(before + end, suffix) <==> forall|
            i: int,
        |
            0 <= i < end.len() ==> same_letter(#[trigger] end[i], suffix[i])),
        suffix.len() > end.len() ==> !colors::ends_ignoring_case(end, suffix),
{
    if end.len() == suffix.len() {
        let name = before + end;
        let n = name.len() - suffix.len();
        assert forall|i: int| 0 <= i < end.len() implies #[trigger] end[i] == name[n + i] by {}
        if colors::ends_ignoring_case(name, suffix) {
            assert forall|i: int| 0 <= i < end.len() implies same_letter(
                #[trigger] end[i],
                suffix[i],
            ) by {
                assert(colors::lower(name[n + i]) == colors::lower(suffix[i]));
            }
        }
        if forall|i: int| 0 <= i < end.len() ==> same_letter(#[trigger] end[i], suffix[i]) {
            assert forall|i: int| 0 <= i < suffix.len() implies colors::lower(name[n + i])
                == colors::lower(#[trigger] suffix[i]) by {
                assert(same_letter(end[i], suffix[i]));
            }
        }
    }
}

/// Whether a suffix of a scheme fits a name.
pub open spec fn fits(suffix: (Seq<char>, Seq<char>), name: Seq<char>) -> bool {
    colors::ends_ignoring_case(
        vstd::utf8::encode_utf8(name),
        vstd::utf8::encode_utf8(suffix.0),
    )
}

/// The last suffix that fits a name gives its style, and where none fits there is none.
pub proof fn law_last_fitting_suffix_counts(
    suffixes: Seq<(Seq<char>, Seq<char>)>,
    name: Seq<char>,
    k: int,
)
    ensures
        0 <= k < suffixes.len() && fits(suffixes[k], name) && (forall|i: int|
            k < i < suffixes.len() ==> !fits(#[trigger] suffixes[i], name))
            ==> colors::suffix_style(suffixes, name) == Some(suffixes[k].1),
        (forall|i: int| 0 <= i < suffixes.len() ==> !fits(#[trigger] suffixes[i], name))
            ==> colors::suffix_style(suffixes, name) is None,
    decreases suffixes.len(),
{
    if suffixes.len() > 0 {
        let others = suffixes.drop_last();
        law_last_fitting_suffix_counts(others, name, k);
        assert(forall|i: int| 0 <= i < others.len() ==> #[trigger] others[i] == suffixes[i]);
        assert(fits(suffixes[suffixes.len() - 1], name) == fits(suffixes.last(), name));
    }
}

/// A file that nobody may execute gets the style of its suffix, where it has one, and else that of
/// files.
pub proof fn law_files_are_styled_by_suffix(
    scheme: Scheme,
    dir: Seq<u8>,
    name: Seq<char>,
    mode: u32,
    target_exists: Option<bool>,
)
    requires
        path_laws::is_name(vstd::utf8::encode_utf8(name)),
        mode % 2 == 0 && (mode / 8) % 2 == 0 && (mode / 64) % 2 == 0,
    ensures
        ({
            let p = dir.push(47u8) + vstd::utf8::encode_utf8(name);
            let found = colors::entry_style(
                scheme,
                p,
                Some(Metadata { kind: FileKind::Regular, mode }),
                target_exists,
            );
            &&& colors::suffix_style(scheme.suffixes, name) is Some ==> found
                == colors::suffix_style(scheme.suffixes, name)
            &&& colors::suffix_style(scheme.suffixes, name) is None ==> found
                == colors::indicator_style(scheme.indicators, Indicator::Regular)
        }),
{
    let bytes = vstd::utf8::encode_utf8(name);
    law_indicators_of_files(mode, target_exists);
    path_laws::law_last_name_of_a_path(dir, bytes);
    vstd::utf8::encode_utf8_valid_utf8(name);
    vstd::utf8::encode_utf8_decode_utf8(name);
}

/// Anything but a file that nobody may execute, and but what is missing, gets the style of its
/// indicator; what is missing gets an orange of its own.
pub proof fn law_other_entries_are_styled_by_kind(
    scheme: Scheme,
    p: Seq<u8>,
    metadata: Option<Metadata>,
    target_exists: Option<bool>,
)
    ensures
        ({
            let indicator = colors::indicator_of(metadata, target_exists);
            let found = colors::entry_style(scheme, p, metadata, target_exists);
            &&& indicator == Indicator::Missing ==> found == Some(
                seq!['3', '8', ';', '2', ';', '2', '5', '5', ';', '1', '6', '5', ';', '0'],
            )
            &&& indicator != Indicator::Missing && indicator != Indicator::Regular ==> found
                == colors::indicator_style(scheme.indicators, indicator)
        }),
{
    reveal_strlit("38;2;255;165;0");
    assert(colors::MISSING_COLOR@ =~= seq![
        '3',
        '8',
        ';',
        '2',
        ';',
        '2',
        '5',
        '5',
        ';',
        '1',
        '6',
        '5',
        ';',
        '0',
    ]);
}

/// A symbolic link leads to what its target is, and is a directory where that is one; without a
/// target it is none. Any other entry is what it is, and has no target.
pub proof fn law_links_lead_to_their_target(metadata: Metadata, target: Metadata)
    ensures
        metadata.kind == FileKind::Symlink ==> {
            &&& (Entry { metadata, target: Some(target) }).target_exists_spec() == Some(true)
            &&& (Entry { metadata, target: None }).target_exists_spec() == Some(false)
            &&& (Entry { metadata, target: Some(target) }).is_dir_spec() == (target.kind
                == FileKind::Directory)
            &&& !(Entry { metadata, target: None }).is_dir_spec()
        },
        metadata.kind != FileKind::Symlink ==> {
            &&& (Entry { metadata, target: Some(target) }).target_exists_spec() is None
            &&& (Entry { metadata, target: None }).target_exists_spec() is None
            &&& (Entry { metadata, target: Some(target) }).is_dir_spec() == (metadata.kind
                == FileKind::Directory)
            &&& (Entry { metadata, target: None }).is_dir_spec() == (metadata.kind
                == FileKind::Directory)
        },
{
}

/// The entries of the default scheme.
pub open spec fn default_entries() -> Seq<Seq<char>> {
    seq![
        "rs=0"@,
        "lc=\x1b["@,
        "rc=m"@,
        "cl=\x1b[K"@,
        "ex=01;32"@,
        "sg=30;43"@,
        "su=37;41"@,
        "di=01;34"@,
        "st=37;44"@,
        "ow=34;42"@,
        "tw=30;42"@,
        "ln=01;36"@,
        "bd=01;33"@,
        "cd=01;33"@,
        "do=01;35"@,
        "pi=33"@,
        "so=01;35"@,
        ""@,
    ]
}

proof fn lemma_next_entry(scheme: Scheme, entries: Seq<Seq<char>>, i: int)
    requires
        0 <= i < entries.len(),
    ensures
        colors::with_entries(scheme, entries.take(i + 1)) == colors::with_entry(
            colors::with_entries(scheme, entries.take(i)),
            entries[i],
        ),
{
    assert(entries.take(i + 1).drop_last() =~= entries.take(i));
    assert(entries.take(i + 1).last() == entries[i]);
}

proof fn lemma_ignored_entry(scheme: Scheme, entry: Seq<char>)
    requires
        entry.len() == 0 || (entry.len() > 3 && entry[0] != '=' && entry[0] != '*' && entry[1] != '='
            && entry[2] == '=' && colors::key_indicator(entry.take(2)) is None),
    ensures
        colors::with_entry(scheme, entry) == scheme,
{
    if entry.len() == 0 {
        law_other_entries_change_nothing(scheme, entry, entry);
    } else {
        assert(entry =~= entry.take(2).push('=') + entry.skip(3));
        law_other_entries_change_nothing(scheme, entry.take(2), entry.skip(3));
    }
}

proof fn lemma_indicator_entry(
    scheme: Scheme,
    entry: Seq<char>,
    indicator: Indicator,
    value: Seq<char>,
)
    requires
        entry.len() > 4,
        colors::key_indicator(entry.take(2)) == Some(indicator),
        entry[2] == '=',
        entry[3] != '0' || entry[4] != '0',
        value == entry.skip(3),
    ensures
        colors::with_entry(scheme, entry) == (Scheme {
            indicators: scheme.indicators.insert(indicator, style::normalized_style(value)),
            ..scheme
        }),
{
    assert(entry =~= entry.take(2).push('=') + value);
    assert(value[0] == entry[3] && value[1] == entry[4]);
    law_zeros_clear(value);
    colors::law_entry_sets_an_indicator(scheme, entry.take(2), value);
}

proof fn lemma_default_value()
    ensures
        colors::LS_COLORS_DEFAULT@ == text::join(default_entries(), ':'),
        forall|i: int| 0 <= i < 18 ==> !(#[trigger] default_entries()[i]).contains(':'),
{
    let e = default_entries();
    reveal_strlit(
        "rs=0:lc=\x1b[:rc=m:cl=\x1b[K:ex=01;32:sg=30;43:su=37;41:di=01;34:st=37;44:ow=34;42:tw=30;42:ln=01;36:bd=01;33:cd=01;33:do=01;35:pi=33:so=01;35:",
    );
    reveal_strlit("rs=0");
    reveal_strlit("lc=\x1b[");
    reveal_strlit("rc=m");
    reveal_strlit("cl=\x1b[K");
    reveal_strlit("ex=01;32");
    reveal_strlit("sg=30;43");
    reveal_strlit("su=37;41");
    reveal_strlit("di=01;34");
    reveal_strlit("st=37;44");
    reveal_strlit("ow=34;42");
    reveal_strlit("tw=30;42");
    reveal_strlit("ln=01;36");
    reveal_strlit("bd=01;33");
    reveal_strlit("cd=01;33");
    reveal_strlit("do=01;35");
    reveal_strlit("pi=33");
    reveal_strlit("so=01;35");
    reveal_strlit("");
    let j1 = e[0];
    assert(text::join(e.take(1), ':') == j1);
    let j2 = j1.push(':') + e[1];
    assert(e.take(2).drop_last() =~= e.take(1));
    assert(text::join(e.take(2), ':') == j2);
    let j3 = j2.push(':') + e[2];
    assert(e.take(3).drop_last() =~= e.take(2));
    assert(text::join(e.take(3), ':') == j3);
    let j4 = j3.push(':') + e[3];
    assert(e.take(4).drop_last() =~= e.take(3));
    assert(text::join(e.take(4), ':') == j4);
    let j5 = j4.push(':') + e[4];
    assert(e.take(5).drop_last() =~= e.take(4));
    assert(text::join(e.take(5), ':') == j5);
    let j6 = j5.push(':') + e[5];
    assert(e.take(6).drop_last() =~= e.take(5));
    assert(text::join(e.take(6), ':') == j6);
    let j7 = j6.push(':') + e[6];
    assert(e.take(7).drop_last() =~= e.take(6));
    assert(text::join(e.take(7), ':') == j7);
    let j8 = j7.push(':') + e[7];
    assert(e.take(8).drop_last() =~= e.take(7));
    assert(text::join(e.take(8), ':') == j8);
    let j9 = j8.push(':') + e[8];
    assert(e.take(9).drop_last() =~= e.take(8));
    assert(text::join(e.take(9), ':') == j9);
    let j10 = j9.push(':') + e[9];
    assert(e.take(10).drop_last() =~= e.take(9));
    assert(text::join(e.take(10), ':') == j10);
    let j11 = j10.push(':') + e[10];
    assert(e.take(11).drop_last() =~= e.take(10));
    assert(text::join(e.take(11), ':') == j11);
    let j12 = j11.push(':') + e[11];
    assert(e.take(12).drop_last() =~= e.take(11));
    assert(text::join(e.take(12), ':') == j12);
    let j13 = j12.push(':') + e[12];
    assert(e.take(13).drop_last() =~= e.take(12));
    assert(text::join(e.take(13), ':') == j13);
    let j14 = j13.push(':') + e[13];
    assert(e.take(14).drop_last() =~= e.take(13));
    assert(text::join(e.take(14), ':') == j14);
    let j15 = j14.push(':') + e[14];
    assert(e.take(15).drop_last() =~= e.take(14));
    assert(text::join(e.take(15), ':') == j15);
    let j16 = j15.push(':') + e[15];
    assert(e.take(16).drop_last() =~= e.take(15));
    assert(text::join(e.take(16), ':') == j16);
    let j17 = j16.push(':') + e[16];
    assert(e.take(17).drop_last() =~= e.take(16));
    assert(text::join(e.take(17), ':') == j17);
    let j18 = j17.push(':') + e[17];
    assert(e.take(18).drop_last() =~= e.take(17));
    assert(text::join(e.take(18), ':') == j18);
    assert(e.take(18) =~= e);
    assert(j18 =~= colors::LS_COLORS_DEFAULT@);
}

/// Without the variable directories, links, executables and special files have a style each, and
/// no suffix has one.
pub proof fn law_default_scheme()
    ensures
        colors::scheme_for(None).suffixes.len() == 0,
        colors::scheme_for(None).indicators == map![
            Indicator::Executable => style::normalized_style("01;32"@),
            Indicator::Directory => style::normalized_style("01;34"@),
            Indicator::Sticky => style::normalized_style("37;44"@),
            Indicator::OtherWritable => style::normalized_style("34;42"@),
            Indicator::StickyOtherWritable => style::normalized_style("30;42"@),
            Indicator::Symlink => style::normalized_style("01;36"@),
            Indicator::Block => style::normalized_style("01;33"@),
            Indicator::Char => style::normalized_style("01;33"@),
            Indicator::Fifo => style::normalized_style("33"@),
            Indicator::Socket => style::normalized_style("01;35"@),
        ],
{
    let e = default_entries();
    let none = colors::no_styles();
    lemma_default_value();
    text::law_split_undoes_join(e, ':');
    assert(e.take(18) =~= e);
    let s0 = colors::with_entries(none, e.take(0));
    assert(s0 == none);
    let s1 = colors::with_entries(none, e.take(1));
    lemma_next_entry(none, e, 0);
    reveal_strlit("rs=0");
    lemma_ignored_entry(s0, e[0]);
    let s2 = colors::with_entries(none, e.take(2));
    lemma_next_entry(none, e, 1);
    reveal_strlit("lc=\x1b[");
    lemma_ignored_entry(s1, e[1]);
    let s3 = colors::with_entries(none, e.take(3));
    lemma_next_entry(none, e, 2);
    reveal_strlit("rc=m");
    lemma_ignored_entry(s2, e[2]);
    let s4 = colors::with_entries(none, e.take(4));
    lemma_next_entry(none, e, 3);
    reveal_strlit("cl=\x1b[K");
    lemma_ignored_entry(s3, e[3]);
    let s5 = colors::with_entries(none, e.take(5));
    lemma_next_entry(none, e, 4);
    reveal_strlit("ex=01;32");
    reveal_strlit("01;32");
    assert("01;32"@ =~= e[4].skip(3));
    lemma_indicator_entry(s4, e[4], Indicator::Executable, "01;32"@);
    let s6 = colors::with_entries(none, e.take(6));
    lemma_next_entry(none, e, 5);
    reveal_strlit("sg=30;43");
    lemma_ignored_entry(s5, e[5]);
    let s7 = colors::with_entries(none, e.take(7));
    lemma_next_entry(none, e, 6);
    reveal_strlit("su=37;41");
    lemma_ignored_entry(s6, e[6]);
    let s8 = colors::with_entries(none, e.take(8));
    lemma_next_entry(none, e, 7);
    reveal_strlit("di=01;34");
    reveal_strlit("01;34");
    assert("01;34"@ =~= e[7].skip(3));
    lemma_indicator_entry(s7, e[7], Indicator::Directory, "01;34"@);
    let s9 = colors::with_entries(none, e.take(9));
    lemma_next_entry(none, e, 8);
    reveal_strlit("st=37;44");
    reveal_strlit("37;44");
    assert("37;44"@ =~= e[8].skip(3));
    lemma_indicator_entry(s8, e[8], Indicator::Sticky, "37;44"@);
    let s10 = colors::with_entries(none, e.take(10));
    lemma_next_entry(none, e, 9);
    reveal_strlit("ow=34;42");
    reveal_strlit("34;42");
    assert("34;42"@ =~= e[9].skip(3));
    lemma_indicator_entry(s9, e[9], Indicator::OtherWritable, "34;42"@);
    let s11 = colors::with_entries(none, e.take(11));
    lemma_next_entry(none, e, 10);
    reveal_strlit("tw=30;42");
    reveal_strlit("30;42");
    assert("30;42"@ =~= e[10].skip(3));
    lemma_indicator_entry(s10, e[10], Indicator::StickyOtherWritable, "30;42"@);
    let s12 = colors::with_entries(none, e.take(12));
    lemma_next_entry(none, e, 11);
    reveal_strlit("ln=01;36");
    reveal_strlit("01;36");
    assert("01;36"@ =~= e[11].skip(3));
    lemma_indicator_entry(s11, e[11], Indicator::Symlink, "01;36"@);
    let s13 = colors::with_entries(none, e.take(13));
    lemma_next_entry(none, e, 12);
    reveal_strlit("bd=01;33");
    reveal_strlit("01;33");
    assert("01;33"@ =~= e[12].skip(3));
    lemma_indicator_entry(s12, e[12], Indicator::Block, "01;33"@);
    let s14 = colors::with_entries(none, e.take(14));
    lemma_next_entry(none, e, 13);
    reveal_strlit("cd=01;33");
    reveal_strlit("01;33");
    assert("01;33"@ =~= e[13].skip(3));
    lemma_indicator_entry(s13, e[13], Indicator::Char, "01;33"@);
    let s15 = colors::with_entries(none, e.take(15));
    lemma_next_entry(none, e, 14);
    reveal_strlit("do=01;35");
    lemma_ignored_entry(s14, e[14]);
    let s16 = colors::with_entries(none, e.take(16));
    lemma_next_entry(none, e, 15);
    reveal_strlit("pi=33");
    reveal_strlit("33");
    assert("33"@ =~= e[15].skip(3));
    lemma_indicator_entry(s15, e[15], Indicator::Fifo, "33"@);
    let s17 = colors::with_entries(none, e.take(17));
    lemma_next_entry(none, e, 16);
    reveal_strlit("so=01;35");
    reveal_strlit("01;35");
    assert("01;35"@ =~= e[16].skip(3));
    lemma_indicator_entry(s16, e[16], Indicator::Socket, "01;35"@);
    let s18 = colors::with_entries(none, e.take(18));
    lemma_next_entry(none, e, 17);
    reveal_strlit("");
    lemma_ignored_entry(s17, e[17]);
    assert(s18.indicators =~= map![
        Indicator::Executable => style::normalized_style("01;32"@),
        Indicator::Directory => style::normalized_style("01;34"@),
        Indicator::Sticky => style::normalized_style("37;44"@),
        Indicator::OtherWritable => style::normalized_style("34;42"@),
        Indicator::StickyOtherWritable => style::normalized_style("30;42"@),
        Indicator::Symlink => style::normalized_style("01;36"@),
        Indicator::Block => style::normalized_style("01;33"@),
        Indicator::Char => style::normalized_style("01;33"@),
        Indicator::Fifo => style::normalized_style("33"@),
        Indicator::Socket => style::normalized_style("01;35"@),
    ]);
}

/// The variable adds to the default scheme.
pub proof fn law_the_variable_adds_to_the_default(value: Seq<char>)
    ensures
        colors::scheme_for(Some(value)) == colors::with_variable(
            colors::scheme_for(None),
            value,
        ),
{
}

/// Where a suffix is taken away, the entries of the others stay, in their order.
pub proof fn law_other_suffixes_stay_in_order(
    suffixes: Seq<(Seq<char>, Seq<char>)>,
    suffix: Seq<char>,
)
    ensures
        colors::without_suffix(suffixes, suffix) == suffixes.filter(
            |known: (Seq<char>, Seq<char>)| known.0 != suffix,
        ),
    decreases suffixes.len(),
{
    reveal(Seq::filter);
    if suffixes.len() > 0 {
        law_other_suffixes_stay_in_order(suffixes.drop_last(), suffix);
    }
}

} // verus!
