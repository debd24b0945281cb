//! Display styles: lists of "select graphic rendition" codes, separated by `;`.

use vstd::prelude::*;

use crate::number;
use crate::text;

verus! {

/// What one code, or one group of codes, of a style asks for.
pub enum Item {
    /// All attributes off.
    Reset,
    /// An attribute on.
    Attribute(nat),
    /// A foreground colour.
    Foreground(Seq<Seq<char>>),
    /// A background colour.
    Background(Seq<Seq<char>>),
    /// Anything else.
    Other(Seq<char>),
}

/// The number of a code.
pub open spec fn sgr_code(code: Seq<char>) -> Option<nat> {
    number::number(code, u16::MAX as nat)
}

/// The number of the code at `i`, if there is one.
pub open spec fn sgr_code_at(parts: Seq<Seq<char>>, i: int) -> Option<nat> {
    if 0 <= i < parts.len() {
        sgr_code(parts[i])
    } else {
        None
    }
}

/// The group of codes at `i` that names a colour out of a table (mode 5) or by its red, green
/// and blue (mode 2).
pub open spec fn extended_color(parts: Seq<Seq<char>>, i: int) -> Option<Seq<Seq<char>>> {
    match (sgr_code_at(parts, i), sgr_code_at(parts, i + 1)) {
        (Some(code), Some(mode)) => if mode == 5 {
            match sgr_code_at(parts, i + 2) {
                Some(color) => Some(
                    seq![number::decimal(code), number::decimal(mode), number::decimal(color)],
                ),
                None => None,
            }
        } else if mode == 2 {
            match (
                sgr_code_at(parts, i + 2),
                sgr_code_at(parts, i + 3),
                sgr_code_at(parts, i + 4),
            ) {
                (Some(red), Some(green), Some(blue)) => Some(
                    seq![
                        number::decimal(code),
                        number::decimal(mode),
                        number::decimal(red),
                        number::decimal(green),
                        number::decimal(blue),
                    ],
                ),
                _ => None,
            }
        } else {
            None
        },
        _ => None,
    }
}

/// What the code at `i` asks for, and how many codes belong to it.
pub open spec fn item_at(parts: Seq<Seq<char>>, i: int) -> (Item, nat) {
    match sgr_code(parts[i]) {
        None => (Item::Other(parts[i]), 1),
        Some(code) => if code == 0 {
            (Item::Reset, 1)
        } else if 1 <= code <= 5 || 7 <= code <= 9 {
            (Item::Attribute(code), 1)
        } else if code == 6 {
            (Item::Attribute(5), 1)
        } else if 30 <= code <= 37 || 90 <= code <= 97 {
            (Item::Foreground(seq![number::decimal(code)]), 1)
        } else if 40 <= code <= 47 || 100 <= code <= 107 {
            (Item::Background(seq![number::decimal(code)]), 1)
        } else if code == 38 {
            match extended_color(parts, i) {
                Some(color) => (Item::Foreground(color), color.len()),
                None => (Item::Other(number::decimal(code)), 1),
            }
        } else if code == 48 {
            match extended_color(parts, i) {
                Some(color) => (Item::Background(color), color.len()),
                None => (Item::Other(number::decimal(code)), 1),
            }
        } else {
            (Item::Other(number::decimal(code)), 1)
        },
    }
}

/// What the codes from `i` on ask for.
pub open spec fn items_from(parts: Seq<Seq<char>>, i: int) -> Seq<Item>
    decreases parts.len() - i,
{
    if 0 <= i < parts.len() {
        let (item, taken) = item_at(parts, i);
        seq![item] + items_from(parts, i + taken)
    } else {
        Seq::empty()
    }
}

/// Whether an attribute is on at the end.
pub open spec fn attribute_on(items: Seq<Item>, attribute: nat) -> bool
    decreases items.len(),
{
    if items.len() == 0 {
        false
    } else {
        match items.last() {
            Item::Reset => false,
            Item::Attribute(a) => a == attribute || attribute_on(items.drop_last(), attribute),
            _ => attribute_on(items.drop_last(), attribute),
        }
    }
}

/// The codes of the attributes under `n` that are on at the end. There is no attribute 6.
pub open spec fn attribute_codes(items: Seq<Item>, n: nat) -> Seq<Seq<char>>
    decreases n,
{
    if n <= 1 {
        Seq::empty()
    } else {
        let below = attribute_codes(items, (n - 1) as nat);
        if n - 1 != 6 && attribute_on(items, (n - 1) as nat) {
            below.push(number::decimal((n - 1) as nat))
        } else {
            below
        }
    }
}

/// The codes that are neither attributes nor colours.
pub open spec fn other_codes(items: Seq<Item>) -> Seq<Seq<char>>
    decreases items.len(),
{
    if items.len() == 0 {
        Seq::empty()
    } else {
        match items.last() {
            Item::Other(code) => other_codes(items.drop_last()).push(code),
            _ => other_codes(items.drop_last()),
        }
    }
}

/// The last background colour.
pub open spec fn background(items: Seq<Item>) -> Option<Seq<Seq<char>>>
    decreases items.len(),
{
    if items.len() == 0 {
        None
    } else {
        match items.last() {
            Item::Background(color) => Some(color),
            _ => background(items.drop_last()),
        }
    }
}

/// The last foreground colour.
pub open spec fn foreground(items: Seq<Item>) -> Option<Seq<Seq<char>>>
    decreases items.len(),
{
    if items.len() == 0 {
        None
    } else {
        match items.last() {
            Item::Foreground(color) => Some(color),
            _ => foreground(items.drop_last()),
        }
    }
}

/// The codes of a colour, if there is one.
pub open spec fn color_codes(color: Option<Seq<Seq<char>>>) -> Seq<Seq<char>> {
    match color {
        Some(codes) => codes,
        None => Seq::empty(),
    }
}

/// The codes in normal order: attributes, others, background, foreground.
pub open spec fn ordered_codes(items: Seq<Item>) -> Seq<Seq<char>> {
    attribute_codes(items, 10) + other_codes(items) + color_codes(background(items)) + color_codes(
        foreground(items),
    )
}

/// The normal form of a style.
pub open spec fn normalized_style(style: Seq<char>) -> Seq<char> {
    text::join(ordered_codes(items_from(text::split(style, ';'), 0)), ';')
}

/// The number of a code.
pub fn parse_sgr_code(code: &str) -> (r: Option<u16>)
    ensures
        match r {
            Some(n) => sgr_code(code@) == Some(n as nat),
            None => sgr_code(code@) is None,
        },
{
    let chars = text::chars_of(code);
    match number::parse_number(chars.as_slice(), 65535) {
        Some(n) => Some(n as u16),
        None => None,
    }
}

/// The number of the code at `i`, if there is one.
fn parse_sgr_code_at(parts: &[String], i: usize) -> (r: Option<u16>)
    ensures
        match r {
            Some(n) => sgr_code_at(text::texts(parts@), i as int) == Some(n as nat),
            None => sgr_code_at(text::texts(parts@), i as int) is None,
        },
{
    if i < parts.len() {
        parse_sgr_code(parts[i].as_str())
    } else {
        None
    }
}

/// The group of codes at `index` that names a colour, and how many codes it holds.
pub fn parse_extended_color(parts: &[String], index: usize) -> (r: Option<(Vec<String>, usize)>)
    requires
        index < parts@.len(),
    ensures
        match r {
            Some(color) => extended_color(text::texts(parts@), index as int) == Some(
                text::texts(color.0@),
            ) && color.1 == color.0@.len(),
            None => extended_color(text::texts(parts@), index as int) is None,
        },
{
    let ghost all = text::texts(parts@);
    let code = match parse_sgr_code_at(parts, index) {
        Some(code) => code,
        None => return None,
    };
    let left = parts.len() - index;
    if left < 2 {
        return None;
    }
    let mode = match parse_sgr_code_at(parts, index + 1) {
        Some(mode) => mode,
        None => return None,
    };
    let mut codes: Vec<String> = Vec::new();
    codes.push(number::to_decimal(code));
    codes.push(number::to_decimal(mode));
    if mode == 5 {
        if left < 3 {
            return None;
        }
        match parse_sgr_code_at(parts, index + 2) {
            Some(color) => {
                codes.push(number::to_decimal(color));
                assert(text::texts(codes@) =~= extended_color(all, index as int)->0);
                Some((codes, 3))
            },
            None => None,
        }
    } else if mode == 2 {
        if left < 5 {
            return None;
        }
        let red = parse_sgr_code_at(parts, index + 2);
        let green = parse_sgr_code_at(parts, index + 3);
        let blue = parse_sgr_code_at(parts, index + 4);
        match (red, green, blue) {
            (Some(red), Some(green), Some(blue)) => {
                codes.push(number::to_decimal(red));
                codes.push(number::to_decimal(green));
                codes.push(number::to_decimal(blue));
                assert(text::texts(codes@) =~= extended_color(all, index as int)->0);
                Some((codes, 5))
            },
            _ => None,
        }
    } else {
        None
    }
}

/// The colour codes behind an optional vector.
spec fn optional_texts(color: Option<Vec<String>>) -> Option<Seq<Seq<char>>> {
    match color {
        Some(codes) => Some(text::texts(codes@)),
        None => None,
    }
}

/// One code as a list.
fn single(code: u16) -> (r: Vec<String>)
    ensures
        text::texts(r@) == seq![number::decimal(code as nat)],
{
    let mut codes: Vec<String> = Vec::new();
    codes.push(number::to_decimal(code));
    assert(text::texts(codes@) =~= seq![number::decimal(code as nat)]);
    codes
}

/// The normal form of a style: attributes in ascending order, then codes that are neither
/// attributes nor colours, then the last background and the last foreground colour.
#[verifier::rlimit(30)]
pub fn normalize_ls_color_style(style: &str) -> (r: String)
    ensures
        r@ == normalized_style(style@),
{
    let chars = text::chars_of(style);
    let parts = text::split_all(chars.as_slice(), ';');
    let ghost all = text::texts(parts@);
    let mut leading: Vec<String> = Vec::new();
    let mut attrs: [bool; 10] = [false; 10];
    let mut fore: Option<Vec<String>> = None;
    let mut back: Option<Vec<String>> = None;
    let mut index: usize = 0;
    let ghost mut done: Seq<Item> = Seq::empty();
    assert(text::texts(leading@) =~= other_codes(done));
    assert(done + items_from(all, 0) =~= items_from(all, 0));
    while index < parts.len()
        invariant
            index <= parts@.len(),
            all == text::texts(parts@),
            done + items_from(all, index as int) == items_from(all, 0),
            forall|a: int| 0 <= a < 10 ==> #[trigger] attrs@[a] == attribute_on(done, a as nat),
            text::texts(leading@) == other_codes(done),
            optional_texts(back) == background(done),
            optional_texts(fore) == foreground(done),
        decreases parts@.len() - index,
    {
        let ghost before = done;
        let ghost item = item_at(all, index as int).0;
        let ghost taken = item_at(all, index as int).1;
        let ghost old_leading = leading@;
        proof {
            done = done.push(item);
            assert(done.drop_last() =~= before);
            assert(before + (seq![item] + items_from(all, index + taken)) =~= done + items_from(
                all,
                index + taken,
            ));
        }
        let mut step: usize = 1;
        match parse_sgr_code(parts[index].as_str()) {
            None => {
                leading.push(parts[index].clone());
            },
            Some(code) => {
                if code == 0 {
                    attrs = [false; 10];
                } else if code <= 5 || (7 <= code && code <= 9) {
                    attrs[code as usize] = true;
                } else if code == 6 {
                    attrs[5] = true;
                } else if (30 <= code && code <= 37) || (90 <= code && code <= 97) {
                    fore = Some(single(code));
                } else if code == 38 {
                    match parse_extended_color(parts.as_slice(), index) {
                        Some((color, consumed)) => {
                            fore = Some(color);
                            step = consumed;
                        },
                        None => {
                            leading.push(number::to_decimal(code));
                        },
                    }
                } else if (40 <= code && code <= 47) || (100 <= code && code <= 107) {
                    back = Some(single(code));
                } else if code == 48 {
                    match parse_extended_color(parts.as_slice(), index) {
                        Some((color, consumed)) => {
                            back = Some(color);
                            step = consumed;
                        },
                        None => {
                            leading.push(number::to_decimal(code));
                        },
                    }
                } else {
                    leading.push(number::to_decimal(code));
                }
            },
        }
        assert(step == taken);
        assert(text::texts(leading@) =~= other_codes(done));
        index += step;
    }
    assert(items_from(all, index as int) =~= Seq::empty());
    assert(done =~= items_from(all, 0));
    let mut normalized: Vec<String> = Vec::new();
    let mut attr: u16 = 1;
    assert(text::texts(normalized@) =~= attribute_codes(done, 1));
    while attr < 10
        invariant
            1 <= attr <= 10,
            forall|a: int| 0 <= a < 10 ==> #[trigger] attrs@[a] == attribute_on(done, a as nat),
            text::texts(normalized@) == attribute_codes(done, attr as nat),
        decreases 10 - attr,
    {
        if attr != 6 && attrs[attr as usize] {
            normalized.push(number::to_decimal(attr));
        }
        attr += 1;
        assert(text::texts(normalized@) =~= attribute_codes(done, attr as nat));
    }
    let ghost first = normalized@;
    let ghost others = leading@;
    normalized.append(&mut leading);
    let ghost second = normalized@;
    if let Some(mut codes) = back {
        normalized.append(&mut codes);
    }
    if let Some(mut codes) = fore {
        normalized.append(&mut codes);
    }
    assert(text::texts(normalized@) =~= ordered_codes(done));
    text::join_all(normalized.as_slice(), ';')
}

} // verus!
