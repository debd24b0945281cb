//! Numbers in decimal notation.

use vstd::prelude::*;

use crate::text::chars_of;
use crate::text::string_of;

verus! {

/// Whether `c` is one of the digits `0` to `9`.
pub open spec fn is_digit(c: char) -> bool {
    '0' <= c && c <= '9'
}

/// Whether `s` holds digits only.
pub open spec fn all_digits(s: Seq<char>) -> bool {
    forall|i: int| 0 <= i < s.len() ==> is_digit(#[trigger] s[i])
}

/// The number that a digit stands for.
pub open spec fn digit_value(c: char) -> nat {
    (c as u32 - '0' as u32) as nat
}

/// The number that a sequence of digits stands for.
pub open spec fn digits_value(s: Seq<char>) -> nat
    decreases s.len(),
{
    if s.len() == 0 {
        0
    } else {
        digits_value(s.drop_last()) * 10 + digit_value(s.last())
    }
}

/// `s` without the `+` that it may begin with.
pub open spec fn unsigned_digits(s: Seq<char>) -> Seq<char> {
    if s.len() > 0 && s[0] == '+' {
        s.skip(1)
    } else {
        s
    }
}

/// The number that `s` stands for: an optional `+`, then one or more digits, nothing else,
/// and no more than `max`.
pub open spec fn number(s: Seq<char>, max: nat) -> Option<nat> {
    let digits = unsigned_digits(s);
    if digits.len() > 0 && all_digits(digits) && digits_value(digits) <= max {
        Some(digits_value(digits))
    } else {
        None
    }
}

/// The digit for a number under ten.
pub open spec fn digit_char(d: nat) -> char {
    ('0' as u32 + d) as char
}

/// The decimal notation of a number.
pub open spec fn decimal(n: nat) -> Seq<char>
    decreases n,
{
    if n < 10 {
        seq![digit_char(n)]
    } else {
        decimal(n / 10).push(digit_char(n % 10))
    }
}

proof fn lemma_digits_value_grows(s: Seq<char>, k: int)
    requires
        0 <= k <= s.len(),
    ensures
        digits_value(s.take(k)) <= digits_value(s),
    decreases s.len(),
{
    if k == s.len() {
        assert(s.take(k) =~= s);
    } else {
        lemma_digits_value_grows(s.drop_last(), k);
        assert(s.drop_last().take(k) =~= s.take(k));
    }
}

/// Parses a decimal number that may be no more than `max`.
pub fn parse_number(s: &[char], max: u64) -> (r: Option<u64>)
    ensures
        match r {
            Some(n) => number(s@, max as nat) == Some(n as nat),
            None => number(s@, max as nat) is None,
        },
{
    let first: usize = if s.len() > 0 && s[0] == '+' {
        1
    } else {
        0
    };
    let ghost digits = unsigned_digits(s@);
    assert(digits =~= s@.skip(first as int));
    if first == s.len() {
        return None;
    }
    let mut value: u128 = 0;
    let mut i: usize = first;
    assert(digits.take(0).len() == 0);
    while i < s.len()
        invariant
            first <= i <= s@.len(),
            digits == unsigned_digits(s@),
            digits == s@.skip(first as int),
            value == digits_value(digits.take(i - first)),
            value <= max,
            forall|j: int| 0 <= j < i - first ==> is_digit(#[trigger] digits[j]),
        decreases s@.len() - i,
    {
        let c = s[i];
        assert(digits[i - first] == c);
        if c < '0' || c > '9' {
            assert(!is_digit(digits[i - first]));
            return None;
        }
        let d: u128 = (c as u32 - '0' as u32) as u128;
        assert(digits.take(i + 1 - first).drop_last() =~= digits.take(i - first));
        value = value * 10 + d;
        assert(value == digits_value(digits.take(i + 1 - first)));
        if value > max as u128 {
            proof {
                lemma_digits_value_grows(digits, i + 1 - first);
            }
            return None;
        }
        i += 1;
    }
    assert(digits.take(i - first) =~= digits);
    Some(value as u64)
}

/// The decimal notation of `n`.
pub fn to_decimal(n: u16) -> (out: String)
    ensures
        out@ == decimal(n as nat),
{
    let digits = decimal_digits(n);
    string_of(digits.as_slice())
}

fn decimal_digits(n: u16) -> (out: Vec<char>)
    ensures
        out@ == decimal(n as nat),
    decreases n,
{
    let last: char = (48u8 + (n % 10) as u8) as char;
    let mut out: Vec<char> = if n < 10 {
        Vec::new()
    } else {
        decimal_digits(n / 10)
    };
    out.push(last);
    out
}

/// Parses an optional number out of the environment; the default where there is none or where
/// it is no number.
pub fn env_usize(value: Option<&str>, default: usize) -> (r: usize)
    ensures
        r == (match value {
            Some(v) => match number(v@, usize::MAX as nat) {
                Some(n) => n,
                None => default as nat,
            },
            None => default as nat,
        }),
{
    match value {
        Some(v) => {
            let chars = chars_of(v);
            match parse_number(chars.as_slice(), usize::MAX as u64) {
                Some(n) => n as usize,
                None => default,
            }
        },
        None => default,
    }
}

/// Reading the decimal notation of a number gives the number back.
pub proof fn law_decimal_is_read_back(n: nat, max: nat)
    requires
        n <= max,
    ensures
        number(decimal(n), max) == Some(n),
{
    lemma_decimal(n);
    assert(decimal(n)[0] != '+');
}

/// The decimal notation of a number is digits that stand for the number.
pub proof fn lemma_decimal(n: nat)
    ensures
        decimal(n).len() > 0,
        all_digits(decimal(n)),
        digits_value(decimal(n)) == n,
    decreases n,
{
    if n < 10 {
        let s = decimal(n);
        assert(s.drop_last().len() == 0);
        assert(digits_value(s.drop_last()) == 0);
    } else {
        lemma_decimal(n / 10);
        let s = decimal(n);
        assert(s.drop_last() =~= decimal(n / 10));
        assert forall|i: int| 0 <= i < s.len() implies is_digit(#[trigger] s[i]) by {
            if i < s.len() - 1 {
                assert(s[i] == decimal(n / 10)[i]);
            }
        }
    }
}

/// A text is a number where it is one or more of the digits `0` to `9`, with or without a `+`
/// before them, and is no more than the greatest one; each digit counts ten times the next.
pub proof fn law_numbers_are_digits(digits: Seq<char>, max: nat)
    ensures
        number(seq!['+'] + digits, max) is Some <==> {
            &&& digits.len() > 0
            &&& forall|i: int|
                0 <= i < digits.len() ==> '0' <= #[trigger] digits[i] && digits[i] <= '9'
            &&& digits_value(digits) <= max
        },
        number(seq!['+'] + digits, max) is Some ==> number(seq!['+'] + digits, max) == Some(
            digits_value(digits),
        ),
        digits.len() == 0 || digits[0] != '+' ==> number(digits, max) == number(
            seq!['+'] + digits,
            max,
        ),
        digits_value(Seq::empty()) == 0,
        forall|c: char|
            '0' <= c && c <= '9' ==> #[trigger] digits_value(digits.push(c)) == digits_value(digits)
                * 10 + (c as u32 - 48),
{
    assert forall|c: char| '0' <= c && c <= '9' implies #[trigger] digits_value(digits.push(c))
        == digits_value(digits) * 10 + (c as u32 - 48) by {
        assert(digits.push(c).drop_last() =~= digits);
    }
    assert((seq!['+'] + digits).skip(1) =~= digits);
    if forall|i: int| 0 <= i < digits.len() ==> '0' <= #[trigger] digits[i] && digits[i] <= '9' {
        assert(all_digits(digits));
    }
    if all_digits(digits) {
        assert forall|i: int| 0 <= i < digits.len() implies '0' <= #[trigger] digits[i] && digits[i]
            <= '9' by {
            assert(is_digit(digits[i]));
        }
    }
}

/// The decimal notation of a number is digits that stand for it, and begins with `0` only where
/// the number is zero.
pub proof fn law_decimal_notation_is_shortest(n: nat)
    ensures
        decimal(n).len() > 0,
        forall|i: int|
            0 <= i < decimal(n).len() ==> '0' <= #[trigger] decimal(n)[i] && decimal(n)[i] <= '9',
        digits_value(decimal(n)) == n,
        decimal(n)[0] == '0' <==> n == 0,
        n == 0 ==> decimal(n).len() == 1,
    decreases n,
{
    lemma_decimal(n);
    assert forall|i: int| 0 <= i < decimal(n).len() implies '0' <= #[trigger] decimal(n)[i]
        && decimal(n)[i] <= '9' by {
        assert(is_digit(decimal(n)[i]));
    }
    if n >= 10 {
        law_decimal_notation_is_shortest(n / 10);
        assert(decimal(n)[0] == decimal(n / 10)[0]);
    }
}

} // verus!
