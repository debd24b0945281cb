//! What holds of display styles.

use vstd::prelude::*;

use crate::number;
use crate::style;
use crate::style::Item;
use crate::text;

verus! {

/// Whether a number is a code of an attribute.
spec fn is_attribute(n: nat) -> bool {
    1 <= n <= 5 || 7 <= n <= 9
}

/// Whether a number is the code of a foreground colour by itself.
spec fn is_foreground(n: nat) -> bool {
    30 <= n <= 37 || 90 <= n <= 97
}

/// Whether a number is the code of a background colour by itself.
spec fn is_background(n: nat) -> bool {
    40 <= n <= 47 || 100 <= n <= 107
}

/// Whether a code is read as neither an attribute nor a colour, where no group begins with it.
spec fn is_other(code: Seq<char>) -> bool {
    !code.contains(';') && match style::sgr_code(code) {
        None => true,
        Some(n) => n > 9 && !is_foreground(n) && !is_background(n) && code == number::decimal(n),
    }
}

/// Whether codes are a group that names a colour.
spec fn is_group(color: Seq<Seq<char>>, code: nat) -> bool {
    &&& color.len() == 3 || color.len() == 5
    &&& forall|i: int|
        0 <= i < color.len() ==> style::sgr_code(#[trigger] color[i]) is Some && color[i]
            == number::decimal(style::sgr_code(color[i])->0)
    &&& style::sgr_code(color[0]) == Some(code)
    &&& color.len() == 3 ==> style::sgr_code(color[1]) == Some(5nat)
    &&& color.len() == 5 ==> style::sgr_code(color[1]) == Some(2nat)
}

/// Whether codes are one code of a colour.
spec fn is_single(color: Seq<Seq<char>>, background: bool) -> bool {
    &&& color.len() == 1
    &&& style::sgr_code(color[0]) is Some
    &&& color[0] == number::decimal(style::sgr_code(color[0])->0)
    &&& if background {
        is_background(style::sgr_code(color[0])->0)
    } else {
        is_foreground(style::sgr_code(color[0])->0)
    }
}

/// Whether an item is one that codes ask for.
spec fn is_item(item: Item) -> bool {
    match item {
        Item::Reset => true,
        Item::Attribute(a) => is_attribute(a),
        Item::Foreground(color) => is_single(color, false) || is_group(color, 38),
        Item::Background(color) => is_single(color, true) || is_group(color, 48),
        Item::Other(code) => is_other(code),
    }
}

spec fn are_items(items: Seq<Item>) -> bool {
    forall|i: int| 0 <= i < items.len() ==> is_item(#[trigger] items[i])
}

proof fn lemma_decimal_code(n: nat)
    requires
        n <= u16::MAX,
    ensures
        style::sgr_code(number::decimal(n)) == Some(n),
        !number::decimal(n).contains(';'),
{
    number::law_decimal_is_read_back(n, u16::MAX as nat);
    number::lemma_decimal(n);
}

proof fn lemma_extended(parts: Seq<Seq<char>>, i: int)
    requires
        0 <= i < parts.len(),
        style::extended_color(parts, i) is Some,
    ensures
        is_group(style::extended_color(parts, i)->0, style::sgr_code(parts[i])->0),
{
    let color = style::extended_color(parts, i)->0;
    let code = style::sgr_code_at(parts, i)->0;
    let mode = style::sgr_code_at(parts, i + 1)->0;
    lemma_decimal_code(code);
    lemma_decimal_code(mode);
    lemma_decimal_code(style::sgr_code_at(parts, i + 2)->0);
    if mode == 2 {
        lemma_decimal_code(style::sgr_code_at(parts, i + 3)->0);
        lemma_decimal_code(style::sgr_code_at(parts, i + 4)->0);
    }
}

proof fn lemma_item(parts: Seq<Seq<char>>, i: int)
    requires
        0 <= i < parts.len(),
        !parts[i].contains(';'),
    ensures
        is_item(style::item_at(parts, i).0),
{
    if let Some(code) = style::sgr_code(parts[i]) {
        lemma_decimal_code(code);
        if style::extended_color(parts, i) is Some {
            lemma_extended(parts, i);
        }
    }
}

proof fn lemma_items(parts: Seq<Seq<char>>, i: int)
    requires
        0 <= i,
        forall|j: int| 0 <= j < parts.len() ==> !(#[trigger] parts[j]).contains(';'),
    ensures
        are_items(style::items_from(parts, i)),
    decreases parts.len() - i,
{
    if i < parts.len() {
        lemma_item(parts, i);
        let (item, taken) = style::item_at(parts, i);
        lemma_items(parts, i + taken);
        assert(style::items_from(parts, i) == seq![item] + style::items_from(parts, i + taken));
    }
}

/// The attributes under `n` that are on at the end.
spec fn attributes(items: Seq<Item>, n: nat) -> Seq<Item>
    decreases n,
{
    if n <= 1 {
        Seq::empty()
    } else {
        let below = attributes(items, (n - 1) as nat);
        if n - 1 != 6 && style::attribute_on(items, (n - 1) as nat) {
            below.push(Item::Attribute((n - 1) as nat))
        } else {
            below
        }
    }
}

/// Other codes as items.
spec fn others(items: Seq<Item>) -> Seq<Item> {
    style::other_codes(items).map_values(|code: Seq<char>| Item::Other(code))
}

/// A background colour as an item, if there is one.
spec fn back(items: Seq<Item>) -> Seq<Item> {
    match style::background(items) {
        Some(color) => seq![Item::Background(color)],
        None => Seq::empty(),
    }
}

/// A foreground colour as an item, if there is one.
spec fn fore(items: Seq<Item>) -> Seq<Item> {
    match style::foreground(items) {
        Some(color) => seq![Item::Foreground(color)],
        None => Seq::empty(),
    }
}

proof fn lemma_last_colors(items: Seq<Item>)
    requires
        are_items(items),
    ensures
        style::background(items) is Some ==> is_item(
            Item::Background(style::background(items)->0),
        ),
        style::foreground(items) is Some ==> is_item(
            Item::Foreground(style::foreground(items)->0),
        ),
        forall|i: int|
            0 <= i < style::other_codes(items).len() ==> is_other(
                #[trigger] style::other_codes(items)[i],
            ),
    decreases items.len(),
{
    if items.len() > 0 {
        let before = items.drop_last();
        assert(is_item(items[items.len() - 1]));
        assert(are_items(before)) by {
            assert forall|i: int| 0 <= i < before.len() implies is_item(#[trigger] before[i]) by {
                assert(before[i] == items[i]);
            }
        }
        lemma_last_colors(before);
        let codes = style::other_codes(items);
        let fewer = style::other_codes(before);
        assert forall|i: int| 0 <= i < codes.len() implies is_other(#[trigger] codes[i]) by {
            if i < fewer.len() {
                assert(codes[i] == fewer[i]);
            }
        }
    }
}

proof fn lemma_attribute_codes(items: Seq<Item>, n: nat)
    requires
        n <= 10,
    ensures
        style::attribute_codes(items, n).len() == attributes(items, n).len(),
        forall|i: int|
            0 <= i < attributes(items, n).len() ==> {
                &&& #[trigger] attributes(items, n)[i] is Attribute
                &&& is_attribute(attributes(items, n)[i]->Attribute_0)
                &&& style::attribute_codes(items, n)[i] == number::decimal(
                    attributes(items, n)[i]->Attribute_0,
                )
            },
    decreases n,
{
    if n > 1 {
        lemma_attribute_codes(items, (n - 1) as nat);
    }
}

proof fn lemma_attributes_on(items: Seq<Item>, n: nat, a: nat)
    requires
        n <= 10,
    ensures
        style::attribute_on(attributes(items, n), a) == (1 <= a < n && a != 6
            && style::attribute_on(items, a)),
    decreases n,
{
    if n > 1 {
        let below = attributes(items, (n - 1) as nat);
        lemma_attributes_on(items, (n - 1) as nat, a);
        if n - 1 != 6 && style::attribute_on(items, (n - 1) as nat) {
            assert(attributes(items, n).drop_last() =~= below);
        }
    }
}

/// Whether items are neither attributes nor a reset.
spec fn keep_attributes(items: Seq<Item>) -> bool {
    forall|i: int|
        0 <= i < items.len() ==> !((#[trigger] items[i]) is Attribute) && !(items[i] is Reset)
}

proof fn lemma_of_both(a: Seq<Item>, b: Seq<Item>, n: nat)
    ensures
        style::other_codes(a + b) == style::other_codes(a) + style::other_codes(b),
        style::background(a + b) == if style::background(b) is Some {
            style::background(b)
        } else {
            style::background(a)
        },
        style::foreground(a + b) == if style::foreground(b) is Some {
            style::foreground(b)
        } else {
            style::foreground(a)
        },
        keep_attributes(b) ==> style::attribute_on(a + b, n) == style::attribute_on(a, n),
    decreases b.len(),
{
    if b.len() == 0 {
        assert(a + b =~= a);
        assert(style::other_codes(a) + style::other_codes(b) =~= style::other_codes(a));
    } else {
        let before = b.drop_last();
        assert((a + b).drop_last() =~= a + before);
        assert((a + b).last() == b.last());
        lemma_of_both(a, before, n);
        assert(style::other_codes(a + b) =~= style::other_codes(a) + style::other_codes(b));
        if keep_attributes(b) {
            assert(keep_attributes(before)) by {
                assert forall|i: int| 0 <= i < before.len() implies !((#[trigger] before[i])
                    is Attribute) && !(before[i] is Reset) by {
                    assert(before[i] == b[i]);
                }
            }
            assert(!(b[b.len() - 1] is Attribute) && !(b[b.len() - 1] is Reset));
        }
    }
}

proof fn lemma_attributes_only(items: Seq<Item>, n: nat)
    ensures
        style::other_codes(attributes(items, n)) =~= Seq::empty(),
        style::background(attributes(items, n)) is None,
        style::foreground(attributes(items, n)) is None,
    decreases n,
{
    if n > 1 {
        lemma_attributes_only(items, (n - 1) as nat);
        if n - 1 != 6 && style::attribute_on(items, (n - 1) as nat) {
            assert(attributes(items, n).drop_last() =~= attributes(items, (n - 1) as nat));
        }
    }
}

proof fn lemma_others_only(codes: Seq<Seq<char>>)
    ensures
        ({
            let items = codes.map_values(|code: Seq<char>| Item::Other(code));
            &&& style::other_codes(items) == codes
            &&& style::background(items) is None
            &&& style::foreground(items) is None
        }),
    decreases codes.len(),
{
    let items = codes.map_values(|code: Seq<char>| Item::Other(code));
    if codes.len() > 0 {
        let before = codes.drop_last();
        lemma_others_only(before);
        assert(items.drop_last() =~= before.map_values(|code: Seq<char>| Item::Other(code)));
        assert(before.push(codes.last()) =~= codes);
    } else {
        assert(style::other_codes(items) =~= codes);
    }
}

proof fn lemma_one(item: Item)
    ensures
        style::other_codes(seq![item]) =~= (if item is Other {
            seq![item->Other_0]
        } else {
            Seq::empty()
        }),
        style::background(seq![item]) == (if item is Background {
            Some(item->Background_0)
        } else {
            None
        }),
        style::foreground(seq![item]) == (if item is Foreground {
            Some(item->Foreground_0)
        } else {
            None
        }),
{
    let none = seq![item].drop_last();
    assert(none =~= Seq::empty());
    assert(seq![item].last() == item);
    assert(style::other_codes(none) =~= Seq::empty());
    assert(style::background(none) is None);
    assert(style::foreground(none) is None);
}

/// The items that the codes in normal order ask for.
spec fn ordered_items(items: Seq<Item>) -> Seq<Item> {
    attributes(items, 10) + others(items) + back(items) + fore(items)
}

proof fn lemma_same_attribute_codes(a: Seq<Item>, b: Seq<Item>, n: nat)
    requires
        forall|i: nat|
            1 <= i < n && i != 6 ==> #[trigger] style::attribute_on(a, i) == style::attribute_on(
                b,
                i,
            ),
    ensures
        style::attribute_codes(a, n) == style::attribute_codes(b, n),
    decreases n,
{
    if n > 1 {
        lemma_same_attribute_codes(a, b, (n - 1) as nat);
        if n - 1 != 6 {
            assert(style::attribute_on(a, (n - 1) as nat) == style::attribute_on(
                b,
                (n - 1) as nat,
            ));
        }
    }
}

proof fn lemma_same_order(items: Seq<Item>)
    ensures
        style::ordered_codes(ordered_items(items)) == style::ordered_codes(items),
{
    let a = attributes(items, 10);
    let o = others(items);
    let b = back(items);
    let f = fore(items);
    let all = ordered_items(items);
    lemma_attributes_only(items, 10);
    lemma_others_only(style::other_codes(items));
    if b.len() > 0 {
        lemma_one(b[0]);
        assert(b =~= seq![b[0]]);
    }
    if f.len() > 0 {
        lemma_one(f[0]);
        assert(f =~= seq![f[0]]);
    }
    assert forall|n: nat| 1 <= n < 10 && n != 6 implies #[trigger] style::attribute_on(all, n)
        == style::attribute_on(items, n) by {
        lemma_of_both(a, o, n);
        lemma_of_both(a + o, b, n);
        lemma_of_both(a + o + b, f, n);
        lemma_attributes_on(items, 10, n);
    }
    lemma_of_both(a, o, 0);
    lemma_of_both(a + o, b, 0);
    lemma_of_both(a + o + b, f, 0);
    lemma_same_attribute_codes(all, items, 10);
    assert(style::other_codes(all) =~= style::other_codes(items));
    assert(style::background(all) == style::background(items));
    assert(style::foreground(all) == style::foreground(items));
}

proof fn lemma_singles(parts: Seq<Seq<char>>, i: int, items: Seq<Item>)
    requires
        0 <= i,
        i + items.len() <= parts.len(),
        forall|j: int|
            0 <= j < items.len() ==> style::item_at(parts, i + j) == (#[trigger] items[j], 1nat),
    ensures
        style::items_from(parts, i) == items + style::items_from(parts, i + items.len()),
    decreases items.len(),
{
    if items.len() == 0 {
        assert(items + style::items_from(parts, i) =~= style::items_from(parts, i));
    } else {
        let rest = items.skip(1);
        assert(style::item_at(parts, i + 0) == (items[0], 1nat));
        assert forall|j: int| 0 <= j < rest.len() implies style::item_at(parts, i + 1 + j) == (
            #[trigger] rest[j],
            1nat,
        ) by {
            assert(rest[j] == items[j + 1]);
            assert(style::item_at(parts, i + (j + 1)) == (items[j + 1], 1nat));
        }
        lemma_singles(parts, i + 1, rest);
        assert(seq![items[0]] + (rest + style::items_from(parts, i + items.len())) =~= items
            + style::items_from(parts, i + items.len()));
    }
}

/// Whether the code at `i` is the mode of no group.
spec fn is_no_mode(parts: Seq<Seq<char>>, i: int) -> bool {
    style::sgr_code_at(parts, i) != Some(5nat) && style::sgr_code_at(parts, i) != Some(2nat)
}

proof fn lemma_color(parts: Seq<Seq<char>>, i: int, color: Seq<Seq<char>>, background: bool)
    requires
        0 <= i,
        i + color.len() <= parts.len(),
        parts.subrange(i, i + color.len()) == color,
        is_single(color, background) || is_group(
            color,
            if background {
                48
            } else {
                38
            },
        ),
    ensures
        style::item_at(parts, i) == (
            if background {
                Item::Background(color)
            } else {
                Item::Foreground(color)
            },
            color.len(),
        ),
        is_no_mode(parts, i),
{
    assert forall|j: int| 0 <= j < color.len() implies parts[i + j] == #[trigger] color[j] by {
        assert(parts.subrange(i, i + color.len())[j] == parts[i + j]);
    }
    assert(parts[i + 0] == color[0]);
    if color.len() == 1 {
        assert(color =~= seq![color[0]]);
    } else {
        assert(parts[i + 1] == color[1]);
        assert(parts[i + 2] == color[2]);
        if color.len() == 5 {
            assert(parts[i + 3] == color[3]);
            assert(parts[i + 4] == color[4]);
        }
        assert(style::extended_color(parts, i) is Some);
        assert(style::extended_color(parts, i)->0 =~= color);
    }
}

proof fn lemma_parse_colors(parts: Seq<Seq<char>>, i: int, items: Seq<Item>)
    requires
        are_items(items),
        0 <= i <= parts.len(),
        parts.skip(i) == style::color_codes(style::background(items)) + style::color_codes(
            style::foreground(items),
        ),
    ensures
        style::items_from(parts, i) == back(items) + fore(items),
        is_no_mode(parts, i),
{
    let bc = style::color_codes(style::background(items));
    let fc = style::color_codes(style::foreground(items));
    let n = i + bc.len();
    lemma_last_colors(items);
    assert(parts.skip(i).len() == bc.len() + fc.len());
    if style::foreground(items) is Some {
        assert forall|j: int| 0 <= j < fc.len() implies parts.subrange(n, n + fc.len())[j]
            == #[trigger] fc[j] by {
            assert(parts.skip(i)[bc.len() + j] == fc[j]);
        }
        assert(parts.subrange(n, n + fc.len()) =~= fc);
        lemma_color(parts, n, fc, false);
        assert(style::items_from(parts, n + fc.len()) =~= Seq::empty());
    }
    assert(style::items_from(parts, n) =~= fore(items));
    if style::background(items) is Some {
        assert forall|j: int| 0 <= j < bc.len() implies parts.subrange(i, i + bc.len())[j]
            == #[trigger] bc[j] by {
            assert(parts.skip(i)[j] == bc[j]);
        }
        assert(parts.subrange(i, i + bc.len()) =~= bc);
        lemma_color(parts, i, bc, true);
    }
    assert(style::items_from(parts, i) =~= back(items) + fore(items));
}

proof fn lemma_parse_others(parts: Seq<Seq<char>>, i: int, codes: Seq<Seq<char>>)
    requires
        0 <= i,
        i + codes.len() <= parts.len(),
        parts.subrange(i, i + codes.len()) == codes,
        forall|j: int| 0 <= j < codes.len() ==> is_other(#[trigger] codes[j]),
        is_no_mode(parts, i + codes.len()),
    ensures
        style::items_from(parts, i) == codes.map_values(|code: Seq<char>| Item::Other(code))
            + style::items_from(parts, i + codes.len()),
{
    let o = codes.map_values(|code: Seq<char>| Item::Other(code));
    assert forall|j: int| 0 <= j < o.len() implies style::item_at(parts, i + j) == (
        #[trigger] o[j],
        1nat,
    ) by {
        assert(parts.subrange(i, i + codes.len())[j] == parts[i + j]);
        assert(is_other(codes[j]));
        assert(is_no_mode(parts, i + j + 1)) by {
            if j + 1 < codes.len() {
                assert(parts.subrange(i, i + codes.len())[j + 1] == parts[i + j + 1]);
                assert(is_other(codes[j + 1]));
            }
        }
        assert(style::extended_color(parts, i + j) is None);
    }
    lemma_singles(parts, i, o);
}

proof fn lemma_parse_attributes(parts: Seq<Seq<char>>, items: Seq<Item>)
    requires
        style::attribute_codes(items, 10).len() <= parts.len(),
        parts.take(style::attribute_codes(items, 10).len() as int) == style::attribute_codes(
            items,
            10,
        ),
    ensures
        style::items_from(parts, 0) == attributes(items, 10) + style::items_from(
            parts,
            style::attribute_codes(items, 10).len() as int,
        ),
{
    let a = attributes(items, 10);
    let ac = style::attribute_codes(items, 10);
    lemma_attribute_codes(items, 10);
    assert forall|j: int| 0 <= j < a.len() implies style::item_at(parts, 0 + j) == (
        #[trigger] a[j],
        1nat,
    ) by {
        assert(parts.take(ac.len() as int)[j] == parts[j]);
        lemma_decimal_code(a[j]->Attribute_0);
    }
    lemma_singles(parts, 0, a);
}

proof fn lemma_parse_ordered(items: Seq<Item>)
    requires
        are_items(items),
    ensures
        style::items_from(style::ordered_codes(items), 0) == ordered_items(items),
{
    let ac = style::attribute_codes(items, 10);
    let oc = style::other_codes(items);
    let bc = style::color_codes(style::background(items));
    let fc = style::color_codes(style::foreground(items));
    let parts = style::ordered_codes(items);
    let na = ac.len() as int;
    let no = na + oc.len();
    lemma_last_colors(items);
    assert(parts =~= ac + (oc + (bc + fc)));
    assert(parts.skip(no) =~= bc + fc);
    lemma_parse_colors(parts, no, items);
    assert(parts.subrange(na, na + oc.len()) =~= oc);
    lemma_parse_others(parts, na, oc);
    assert(parts.take(na) =~= ac);
    lemma_parse_attributes(parts, items);
    assert(attributes(items, 10) + (others(items) + (back(items) + fore(items)))
        =~= ordered_items(items));
}

proof fn lemma_codes_hold_no_separator(items: Seq<Item>, i: int)
    requires
        are_items(items),
        0 <= i < style::ordered_codes(items).len(),
    ensures
        !style::ordered_codes(items)[i].contains(';'),
{
    let ac = style::attribute_codes(items, 10);
    let oc = style::other_codes(items);
    let bc = style::color_codes(style::background(items));
    let fc = style::color_codes(style::foreground(items));
    let na = ac.len();
    let no = na + oc.len();
    let nb = no + bc.len();
    let code = style::ordered_codes(items)[i];
    lemma_last_colors(items);
    lemma_attribute_codes(items, 10);
    if i < na {
        assert(code == ac[i]);
        lemma_decimal_code(attributes(items, 10)[i]->Attribute_0);
    } else if i < no {
        assert(code == oc[i - na]);
    } else if i < nb {
        assert(code == bc[i - no]);
        number::lemma_decimal(style::sgr_code(code)->0);
    } else {
        assert(code == fc[i - nb]);
        number::lemma_decimal(style::sgr_code(code)->0);
    }
}

/// Bringing a style into normal order twice is the same as once.
pub proof fn law_normal_style_is_kept(s: Seq<char>)
    ensures
        style::normalized_style(style::normalized_style(s)) == style::normalized_style(s),
{
    let parts = text::split(s, ';');
    let items = style::items_from(parts, 0);
    let codes = style::ordered_codes(items);
    assert forall|j: int| 0 <= j < parts.len() implies !(#[trigger] parts[j]).contains(';') by {
        text::law_pieces_hold_no_separator(s, ';', j);
    }
    lemma_items(parts, 0);
    if codes.len() == 0 {
        let none = Seq::<char>::empty();
        assert(text::join(codes, ';') =~= none);
        assert(!none.contains(';'));
        text::law_split_of_whole(none, ';');
        let one = Item::Other(none);
        assert(style::item_at(seq![none], 0) == (one, 1nat));
        assert(style::items_from(seq![none], 1) =~= Seq::empty());
        assert(style::items_from(seq![none], 0) =~= seq![one]);
        lemma_one(one);
        assert(seq![one].drop_last() =~= Seq::empty());
        assert forall|n: nat| !(#[trigger] style::attribute_on(seq![one], n)) by {
            assert(!style::attribute_on(seq![one].drop_last(), n));
        }
        lemma_same_attribute_codes(seq![one], Seq::empty(), 10);
        lemma_no_attributes(10);
        assert(style::ordered_codes(seq![one]) =~= seq![none]);
        assert(text::join(seq![none], ';') =~= none);
    } else {
        assert forall|i: int| 0 <= i < codes.len() implies !(#[trigger] codes[i]).contains(
            ';',
        ) by {
            lemma_codes_hold_no_separator(items, i);
        }
        text::law_split_undoes_join(codes, ';');
        lemma_parse_ordered(items);
        lemma_same_order(items);
    }
}

proof fn lemma_no_attributes(n: nat)
    ensures
        style::attribute_codes(Seq::empty(), n) =~= Seq::empty(),
    decreases n,
{
    if n > 1 {
        lemma_no_attributes((n - 1) as nat);
    }
}

/// Whether no other code among items holds a character.
spec fn others_without(items: Seq<Item>, c: char) -> bool {
    forall|i: int|
        0 <= i < items.len() && items[i] is Other ==> !(#[trigger] items[i])->Other_0.contains(c)
}

proof fn lemma_decimal_without(n: nat, c: char)
    requires
        !number::is_digit(c),
    ensures
        !number::decimal(n).contains(c),
{
    number::lemma_decimal(n);
}

proof fn lemma_items_without(parts: Seq<Seq<char>>, i: int, c: char)
    requires
        0 <= i,
        !number::is_digit(c),
        forall|j: int| 0 <= j < parts.len() ==> !(#[trigger] parts[j]).contains(c),
    ensures
        others_without(style::items_from(parts, i), c),
    decreases parts.len() - i,
{
    if i < parts.len() {
        let (item, taken) = style::item_at(parts, i);
        if let Some(code) = style::sgr_code(parts[i]) {
            lemma_decimal_without(code, c);
        }
        assert(!parts[i].contains(c));
        lemma_items_without(parts, i + taken, c);
        assert(style::items_from(parts, i) == seq![item] + style::items_from(parts, i + taken));
    }
}

proof fn lemma_other_codes_without(items: Seq<Item>, c: char)
    requires
        others_without(items, c),
    ensures
        forall|i: int|
            0 <= i < style::other_codes(items).len() ==> !(#[trigger] style::other_codes(
                items,
            )[i]).contains(c),
    decreases items.len(),
{
    if items.len() > 0 {
        let before = items.drop_last();
        assert(others_without(before, c)) by {
            assert forall|i: int| 0 <= i < before.len() && before[i] is Other implies !(
            #[trigger] before[i])->Other_0.contains(c) by {
                assert(before[i] == items[i]);
            }
        }
        lemma_other_codes_without(before, c);
        let codes = style::other_codes(items);
        let fewer = style::other_codes(before);
        assert forall|i: int| 0 <= i < codes.len() implies !(#[trigger] codes[i]).contains(c) by {
            if i < fewer.len() {
                assert(codes[i] == fewer[i]);
            } else {
                assert(!items[items.len() - 1]->Other_0.contains(c));
            }
        }
    }
}

/// A style in normal order holds digits, separators, and what the style held before.
pub proof fn law_normal_style_adds_digits_only(s: Seq<char>, c: char)
    requires
        !s.contains(c),
        !number::is_digit(c),
        c != ';',
    ensures
        !style::normalized_style(s).contains(c),
{
    let parts = text::split(s, ';');
    let items = style::items_from(parts, 0);
    let ac = style::attribute_codes(items, 10);
    let oc = style::other_codes(items);
    let bc = style::color_codes(style::background(items));
    let fc = style::color_codes(style::foreground(items));
    let codes = style::ordered_codes(items);
    assert forall|j: int| 0 <= j < parts.len() implies !(#[trigger] parts[j]).contains(';') by {
        text::law_pieces_hold_no_separator(s, ';', j);
    }
    assert forall|j: int| 0 <= j < parts.len() implies !(#[trigger] parts[j]).contains(c) by {
        text::law_joined_pieces_are_a_part(s, ';', j, j);
        if parts[j].contains(c) {
            assert(s[text::cuts(s, ';')[j].0 + parts[j].index_of(c)] == c);
        }
    }
    lemma_items(parts, 0);
    lemma_items_without(parts, 0, c);
    lemma_last_colors(items);
    lemma_attribute_codes(items, 10);
    lemma_other_codes_without(items, c);
    assert forall|i: int| 0 <= i < codes.len() implies !(#[trigger] codes[i]).contains(c) by {
        let na = ac.len();
        let no = na + oc.len();
        let nb = no + bc.len();
        if i < na {
            assert(codes[i] == ac[i]);
            lemma_decimal_without(attributes(items, 10)[i]->Attribute_0, c);
        } else if i < no {
            assert(codes[i] == oc[i - na]);
        } else if i < nb {
            assert(codes[i] == bc[i - no]);
            lemma_decimal_without(style::sgr_code(codes[i])->0, c);
        } else {
            assert(codes[i] == fc[i - nb]);
            lemma_decimal_without(style::sgr_code(codes[i])->0, c);
        }
    }
    text::lemma_joined_pieces_hold_no_more(codes, ';', c);
}

proof fn lemma_item_behind(parts: Seq<Seq<char>>, i: int)
    requires
        0 <= i < parts.len(),
    ensures
        style::item_at(parts, i) == style::item_at(parts.skip(i), 0),
{
    let behind = parts.skip(i);
    assert(behind[0] == parts[i]);
    assert forall|k: int| 0 <= k implies #[trigger] style::sgr_code_at(behind, k)
        == style::sgr_code_at(parts, i + k) by {
        if k < behind.len() {
            assert(behind[k] == parts[i + k]);
        }
    }
    assert(style::sgr_code_at(behind, 0) == style::sgr_code_at(parts, i + 0));
    assert(style::sgr_code_at(behind, 1) == style::sgr_code_at(parts, i + 1));
    assert(style::sgr_code_at(behind, 2) == style::sgr_code_at(parts, i + 2));
    assert(style::sgr_code_at(behind, 3) == style::sgr_code_at(parts, i + 3));
    assert(style::sgr_code_at(behind, 4) == style::sgr_code_at(parts, i + 4));
    assert(style::extended_color(behind, 0) == style::extended_color(parts, i));
}

proof fn lemma_items_behind(parts: Seq<Seq<char>>, i: int)
    requires
        0 <= i <= parts.len(),
    ensures
        style::items_from(parts, i) == style::items_from(parts.skip(i), 0),
    decreases parts.len() - i,
{
    if i < parts.len() {
        let behind = parts.skip(i);
        let taken = style::item_at(parts, i).1;
        lemma_item_behind(parts, i);
        lemma_taken(parts, i);
        lemma_items_behind(parts, i + taken);
        lemma_items_behind(behind, taken as int);
        assert(behind.skip(taken as int) =~= parts.skip(i + taken));
    } else {
        assert(parts.skip(i).len() == 0);
    }
}

proof fn lemma_taken(parts: Seq<Seq<char>>, i: int)
    requires
        0 <= i < parts.len(),
    ensures
        1 <= style::item_at(parts, i).1,
        i + style::item_at(parts, i).1 <= parts.len(),
{
}

/// What a number asks for by itself, where it begins no group.
pub open spec fn asked_by(n: nat) -> Item {
    if n == 0 {
        Item::Reset
    } else if n == 6 {
        Item::Attribute(5)
    } else if n <= 9 {
        Item::Attribute(n)
    } else if 30 <= n <= 37 || 90 <= n <= 97 {
        Item::Foreground(seq![number::decimal(n)])
    } else if 40 <= n <= 47 || 100 <= n <= 107 {
        Item::Background(seq![number::decimal(n)])
    } else {
        Item::Other(number::decimal(n))
    }
}

/// Every code that begins no group counts by itself, whatever stands before or behind it: it takes
/// one code, and the codes behind it count as if it were not there. A code that is no number is
/// kept as it is.
pub proof fn law_codes_count_one_by_one(code: Seq<char>, rest: Seq<Seq<char>>)
    requires
        number::number(code, 65535) != Some(38nat),
        number::number(code, 65535) != Some(48nat),
    ensures
        style::items_from(seq![code] + rest, 0) == seq![
            match number::number(code, 65535) {
                Some(n) => asked_by(n),
                None => Item::Other(code),
            },
        ] + style::items_from(rest, 0),
{
    let parts = seq![code] + rest;
    assert(parts[0] == code);
    lemma_items_behind(parts, 1);
    assert(parts.skip(1) =~= rest);
}

/// A group of codes names a colour: 38 or 48, then 5 and one number, or 2 and three numbers. It
/// counts as one, as a foreground colour with 38 and as a background colour with 48.
pub proof fn law_groups_count_as_one(numbers: Seq<nat>, codes: Seq<Seq<char>>, rest: Seq<Seq<char>>)
    requires
        numbers.len() == codes.len(),
        numbers.len() == 3 && numbers[1] == 5 || numbers.len() == 5 && numbers[1] == 2,
        numbers[0] == 38 || numbers[0] == 48,
        forall|i: int|
            0 <= i < codes.len() ==> number::number(#[trigger] codes[i], 65535) == Some(numbers[i]),
    ensures
        ({
            let color = numbers.map_values(|n: nat| number::decimal(n));
            style::items_from(codes + rest, 0) == seq![
                if numbers[0] == 38 {
                    Item::Foreground(color)
                } else {
                    Item::Background(color)
                },
            ] + style::items_from(rest, 0)
        }),
{
    let parts = codes + rest;
    let color = numbers.map_values(|n: nat| number::decimal(n));
    let n = codes.len() as int;
    assert forall|i: int| 0 <= i < n implies #[trigger] style::sgr_code_at(parts, i) == Some(
        numbers[i],
    ) by {
        assert(parts[i] == codes[i]);
    }
    assert(style::sgr_code_at(parts, 0) == Some(numbers[0]));
    assert(style::sgr_code_at(parts, 1) == Some(numbers[1]));
    assert(style::sgr_code_at(parts, 2) == Some(numbers[2]));
    if n == 5 {
        assert(style::sgr_code_at(parts, 3) == Some(numbers[3]));
        assert(style::sgr_code_at(parts, 4) == Some(numbers[4]));
    }
    assert(style::extended_color(parts, 0)->0 =~= color);
    lemma_items_behind(parts, n);
    assert(parts.skip(n) =~= rest);
    lemma_taken(parts, 0);
}

/// A 38 or 48 that begins no group counts by itself, and as no colour.
pub proof fn law_incomplete_groups_are_no_colours(n: nat, code: Seq<char>, rest: Seq<Seq<char>>)
    requires
        n == 38 || n == 48,
        number::number(code, 65535) == Some(n),
        !(rest.len() >= 2 && number::number(rest[0], 65535) == Some(5nat) && number::number(
            rest[1],
            65535,
        ) is Some),
        !(rest.len() >= 4 && number::number(rest[0], 65535) == Some(2nat) && number::number(
            rest[1],
            65535,
        ) is Some && number::number(rest[2], 65535) is Some && number::number(rest[3], 65535)
            is Some),
    ensures
        style::items_from(seq![code] + rest, 0) == seq![Item::Other(number::decimal(n))]
            + style::items_from(rest, 0),
{
    let parts = seq![code] + rest;
    assert(parts[0] == code);
    assert forall|k: int| 1 <= k implies #[trigger] style::sgr_code_at(parts, k) == (if k
        <= rest.len() {
        number::number(rest[k - 1], 65535)
    } else {
        None
    }) by {
        if k <= rest.len() {
            assert(parts[k] == rest[k - 1]);
        }
    }
    assert(style::sgr_code_at(parts, 1) == (if 1 <= rest.len() {
        number::number(rest[0], 65535)
    } else {
        None
    }));
    assert(style::extended_color(parts, 0) is None);
    lemma_items_behind(parts, 1);
    assert(parts.skip(1) =~= rest);
}

/// An attribute is on at the end where it was asked for, and no reset came behind it.
pub proof fn law_attributes_last_until_a_reset(items: Seq<Item>, attribute: nat)
    ensures
        style::attribute_on(items, attribute) <==> exists|j: int|
            {
                &&& 0 <= j < items.len()
                &&& #[trigger] items[j] == Item::Attribute(attribute)
                &&& forall|k: int| j < k < items.len() ==> !(#[trigger] items[k] is Reset)
            },
    decreases items.len(),
{
    if items.len() > 0 {
        let before = items.drop_last();
        let last = items.len() - 1;
        law_attributes_last_until_a_reset(before, attribute);
        if style::attribute_on(items, attribute) {
            if items[last] != Item::Attribute(attribute) {
                let j = choose|j: int|
                    {
                        &&& 0 <= j < before.len()
                        &&& #[trigger] before[j] == Item::Attribute(attribute)
                        &&& forall|k: int| j < k < before.len() ==> !(#[trigger] before[k] is Reset)
                    };
                assert(items[j] == before[j]);
                assert forall|k: int| j < k < items.len() implies !(#[trigger] items[k]
                    is Reset) by {
                    if k < last {
                        assert(items[k] == before[k]);
                    }
                }
            }
        } else if exists|j: int|
            {
                &&& 0 <= j < items.len()
                &&& #[trigger] items[j] == Item::Attribute(attribute)
                &&& forall|k: int| j < k < items.len() ==> !(#[trigger] items[k] is Reset)
            } {
            let j = choose|j: int|
                {
                    &&& 0 <= j < items.len()
                    &&& #[trigger] items[j] == Item::Attribute(attribute)
                    &&& forall|k: int| j < k < items.len() ==> !(#[trigger] items[k] is Reset)
                };
            if j < last {
                assert(before[j] == items[j]);
                assert forall|k: int| j < k < before.len() implies !(#[trigger] before[k]
                    is Reset) by {
                    assert(before[k] == items[k]);
                }
                assert(!(items[last] is Reset));
            }
        }
    }
}

/// The background and the foreground colour are the last ones that were asked for.
pub proof fn law_the_last_colours_count(items: Seq<Item>, j: int)
    requires
        0 <= j < items.len(),
    ensures
        items[j] is Background && (forall|k: int|
            j < k < items.len() ==> !(#[trigger] items[k] is Background)) ==> style::background(items)
            == Some(items[j]->Background_0),
        items[j] is Foreground && (forall|k: int|
            j < k < items.len() ==> !(#[trigger] items[k] is Foreground)) ==> style::foreground(items)
            == Some(items[j]->Foreground_0),
    decreases items.len(),
{
    let before = items.drop_last();
    let last = items.len() - 1;
    if j < last {
        law_the_last_colours_count(before, j);
        assert(before[j] == items[j]);
        if forall|k: int| j < k < items.len() ==> !(#[trigger] items[k] is Background) {
            assert forall|k: int| j < k < before.len() implies !(#[trigger] before[k]
                is Background) by {
                assert(before[k] == items[k]);
            }
            assert(!(items[last] is Background));
        }
        if forall|k: int| j < k < items.len() ==> !(#[trigger] items[k] is Foreground) {
            assert forall|k: int| j < k < before.len() implies !(#[trigger] before[k]
                is Foreground) by {
                assert(before[k] == items[k]);
            }
            assert(!(items[last] is Foreground));
        }
    }
}

/// Without a colour that was asked for there is none.
pub proof fn law_no_colour_comes_from_nothing(items: Seq<Item>)
    ensures
        (forall|k: int| 0 <= k < items.len() ==> !(#[trigger] items[k] is Background))
            ==> style::background(items) is None,
        (forall|k: int| 0 <= k < items.len() ==> !(#[trigger] items[k] is Foreground))
            ==> style::foreground(items) is None,
    decreases items.len(),
{
    if items.len() > 0 {
        let before = items.drop_last();
        law_no_colour_comes_from_nothing(before);
        assert(forall|k: int| 0 <= k < before.len() ==> #[trigger] before[k] == items[k]);
        assert(items[items.len() - 1] == items.last());
    }
}

/// The codes that are neither attributes nor colours are kept, in their order.
pub proof fn law_other_codes_are_kept_in_order(items: Seq<Item>)
    ensures
        style::other_codes(items) == items.filter(|item: Item| item is Other).map_values(
            |item: Item| item->Other_0,
        ),
    decreases items.len(),
{
    reveal(Seq::filter);
    let kept = items.filter(|item: Item| item is Other);
    if items.len() > 0 {
        let before = items.drop_last();
        law_other_codes_are_kept_in_order(before);
    }
    assert(style::other_codes(items) =~= kept.map_values(|item: Item| item->Other_0));
}

/// The code of an attribute, where it is on at the end.
pub open spec fn code_if_on(items: Seq<Item>, attribute: nat) -> Seq<Seq<char>> {
    if style::attribute_on(items, attribute) {
        seq![number::decimal(attribute)]
    } else {
        Seq::empty()
    }
}

/// The normal form of a style is its attributes in ascending order, then the other codes, then the
/// background and the foreground colour, with `;` between each two codes.
pub proof fn law_normal_order(s: Seq<char>)
    ensures
        ({
            let items = style::items_from(text::split(s, ';'), 0);
            let back = match style::background(items) {
                Some(codes) => codes,
                None => Seq::empty(),
            };
            let fore = match style::foreground(items) {
                Some(codes) => codes,
                None => Seq::empty(),
            };
            style::normalized_style(s) == text::join(
                code_if_on(items, 1) + code_if_on(items, 2) + code_if_on(items, 3) + code_if_on(
                    items,
                    4,
                ) + code_if_on(items, 5) + code_if_on(items, 7) + code_if_on(items, 8) + code_if_on(
                    items,
                    9,
                ) + style::other_codes(items) + back + fore,
                ';',
            )
        }),
{
    let items = style::items_from(text::split(s, ';'), 0);
    let none = Seq::<Seq<char>>::empty();
    assert(style::attribute_codes(items, 1) =~= none);
    assert(style::attribute_codes(items, 2) =~= code_if_on(items, 1));
    assert(style::attribute_codes(items, 3) =~= code_if_on(items, 1) + code_if_on(items, 2));
    assert(style::attribute_codes(items, 4) =~= style::attribute_codes(items, 3) + code_if_on(
        items,
        3,
    ));
    assert(style::attribute_codes(items, 5) =~= style::attribute_codes(items, 4) + code_if_on(
        items,
        4,
    ));
    assert(style::attribute_codes(items, 6) =~= style::attribute_codes(items, 5) + code_if_on(
        items,
        5,
    ));
    assert(style::attribute_codes(items, 7) =~= style::attribute_codes(items, 6));
    assert(style::attribute_codes(items, 8) =~= style::attribute_codes(items, 7) + code_if_on(
        items,
        7,
    ));
    assert(style::attribute_codes(items, 9) =~= style::attribute_codes(items, 8) + code_if_on(
        items,
        8,
    ));
    assert(style::attribute_codes(items, 10) =~= style::attribute_codes(items, 9) + code_if_on(
        items,
        9,
    ));
}

/// Numbers as codes.
pub open spec fn decimals(numbers: Seq<nat>) -> Seq<Seq<char>> {
    numbers.map_values(|n: nat| number::decimal(n))
}

proof fn lemma_items_of_numbers(numbers: Seq<nat>)
    requires
        forall|i: int|
            0 <= i < numbers.len() ==> #[trigger] numbers[i] <= 65535 && numbers[i] != 38
                && numbers[i] != 48,
    ensures
        style::items_from(decimals(numbers), 0) == numbers.map_values(|n: nat| asked_by(n)),
    decreases numbers.len(),
{
    let items = numbers.map_values(|n: nat| asked_by(n));
    if numbers.len() == 0 {
        assert(style::items_from(decimals(numbers), 0) =~= items);
    } else {
        let others = numbers.skip(1);
        let n = numbers[0];
        assert forall|i: int| 0 <= i < others.len() implies #[trigger] others[i] <= 65535
            && others[i] != 38 && others[i] != 48 by {
            assert(others[i] == numbers[i + 1]);
        }
        lemma_items_of_numbers(others);
        number::law_decimal_is_read_back(n, 65535);
        law_codes_count_one_by_one(number::decimal(n), decimals(others));
        assert(seq![number::decimal(n)] + decimals(others) =~= decimals(numbers));
        assert(seq![asked_by(n)] + others.map_values(|n: nat| asked_by(n)) =~= items);
    }
}

proof fn lemma_items_of_style(numbers: Seq<nat>)
    requires
        numbers.len() > 0,
        forall|i: int|
            0 <= i < numbers.len() ==> #[trigger] numbers[i] <= 65535 && numbers[i] != 38
                && numbers[i] != 48,
    ensures
        style::items_from(text::split(text::join(decimals(numbers), ';'), ';'), 0)
            == numbers.map_values(|n: nat| asked_by(n)),
{
    assert forall|i: int| 0 <= i < decimals(numbers).len() implies !(#[trigger] decimals(
        numbers,
    )[i]).contains(';') by {
        lemma_decimal_code(numbers[i]);
    }
    text::law_split_undoes_join(decimals(numbers), ';');
    lemma_items_of_numbers(numbers);
}

/// A style of single codes comes to an end in the last of its foreground colours, whatever codes
/// stand before or behind that one, a reset included.
pub proof fn law_a_style_ends_in_its_last_foreground(numbers: Seq<nat>, j: int)
    requires
        0 <= j < numbers.len(),
        forall|i: int|
            0 <= i < numbers.len() ==> #[trigger] numbers[i] <= 65535 && numbers[i] != 38
                && numbers[i] != 48,
        30 <= numbers[j] <= 37 || 90 <= numbers[j] <= 97,
        forall|k: int|
            j < k < numbers.len() ==> !(30 <= #[trigger] numbers[k] <= 37) && !(90 <= numbers[k]
                <= 97),
    ensures
        ({
            let normal = style::normalized_style(text::join(decimals(numbers), ';'));
            let end = number::decimal(numbers[j]);
            let start = normal.len() - end.len();
            &&& start >= 0
            &&& normal.skip(start) == end
            &&& start > 0 ==> normal[start - 1] == ';'
        }),
{
    let items = numbers.map_values(|n: nat| asked_by(n));
    let s = text::join(decimals(numbers), ';');
    lemma_items_of_style(numbers);
    assert(items[j] == asked_by(numbers[j]));
    assert forall|k: int| j < k < items.len() implies !(#[trigger] items[k] is Foreground) by {
        assert(items[k] == asked_by(numbers[k]));
    }
    law_the_last_colours_count(items, j);
    let end = number::decimal(numbers[j]);
    let codes = style::ordered_codes(items);
    let before = style::attribute_codes(items, 10) + style::other_codes(items)
        + style::color_codes(style::background(items));
    assert(codes =~= before.push(end));
    assert(codes.drop_last() =~= before);
    let normal = style::normalized_style(s);
    assert(normal == text::join(codes, ';'));
    if codes.len() == 1 {
        assert(normal == end);
        assert(normal.skip(0) =~= end);
    } else {
        assert(normal == text::join(before, ';').push(';') + end);
        assert(normal.skip(normal.len() - end.len()) =~= end);
    }
}

} // verus!
