//! Bytes as UTF-8 text.

use vstd::prelude::*;

verus! {

/// The text that `String::from_utf8_lossy` makes of bytes that are not valid UTF-8.
pub uninterp spec fn replaced_text(bytes: Seq<u8>) -> Seq<char>;

/// The text that bytes are shown as: the text that they encode where they are valid UTF-8, and
/// else a text with replacement characters in it.
pub open spec fn shown_text(bytes: Seq<u8>) -> Seq<char> {
    if vstd::utf8::valid_utf8(bytes) {
        vstd::utf8::decode_utf8(bytes)
    } else {
        replaced_text(bytes)
    }
}

/// The bytes of a text are shown as that text.
pub proof fn law_text_is_shown_as_itself(s: Seq<char>)
    ensures
        shown_text(vstd::utf8::encode_utf8(s)) == s,
{
    vstd::utf8::encode_utf8_valid_utf8(s);
    vstd::utf8::encode_utf8_decode_utf8(s);
}

/// The bytes of two texts, one behind the other, are those of the first and those of the second.
pub proof fn law_texts_are_encoded_in_order(a: Seq<char>, b: Seq<char>)
    ensures
        vstd::utf8::encode_utf8(a + b) == vstd::utf8::encode_utf8(a) + vstd::utf8::encode_utf8(b),
    decreases a.len(),
{
    if a.len() == 0 {
        assert(a + b =~= b);
        assert(vstd::utf8::encode_utf8(a) + vstd::utf8::encode_utf8(b)
            =~= vstd::utf8::encode_utf8(b));
    } else {
        assert((a + b).drop_first() =~= a.drop_first() + b);
        law_texts_are_encoded_in_order(a.drop_first(), b);
        assert(vstd::utf8::encode_utf8(a + b) =~= vstd::utf8::encode_utf8(a)
            + vstd::utf8::encode_utf8(b));
    }
}

proof fn lemma_encoded_scalar(u: u32)
    ensures
        u == 47 ==> vstd::utf8::encode_scalar(u) =~= seq![47u8],
        u != 47 ==> !vstd::utf8::encode_scalar(u).contains(47u8),
{
    assert(u <= 0x7f ==> ((u & 0x7f) as u8 == 47u8 <==> u == 47)) by (bit_vector);
    assert((0xC0u8 | ((u >> 6) & 0x1F) as u8) != 47u8) by (bit_vector);
    assert((0xE0u8 | ((u >> 12) & 0x0F) as u8) != 47u8) by (bit_vector);
    assert((0xF0u8 | ((u >> 18) & 0x07) as u8) != 47u8) by (bit_vector);
    assert((0x80u8 | (u & 0x3F) as u8) != 47u8) by (bit_vector);
    assert((0x80u8 | ((u >> 6) & 0x3F) as u8) != 47u8) by (bit_vector);
    assert((0x80u8 | ((u >> 12) & 0x3F) as u8) != 47u8) by (bit_vector);
}

/// The byte of `/` stands for `/` in a text, and for nothing else.
pub proof fn law_slash_is_its_byte(s: Seq<char>)
    ensures
        vstd::utf8::encode_utf8(s).contains(47u8) <==> s.contains('/'),
        s.len() > 0 ==> vstd::utf8::encode_utf8(s).len() > 0 && (vstd::utf8::encode_utf8(s)[0]
            == 47u8 <==> s[0] == '/'),
        vstd::utf8::encode_utf8(seq!['/']) == seq![47u8],
    decreases s.len(),
{
    let slash = seq!['/'];
    lemma_encoded_scalar('/' as u32);
    assert(slash.drop_first() =~= Seq::<char>::empty());
    assert(vstd::utf8::encode_utf8(slash.drop_first()) =~= Seq::<u8>::empty());
    assert(vstd::utf8::encode_utf8(slash) =~= seq![47u8]);
    if s.len() > 0 {
        let first = vstd::utf8::encode_scalar(s[0] as u32);
        let rest = vstd::utf8::encode_utf8(s.drop_first());
        lemma_encoded_scalar(s[0] as u32);
        vstd::utf8::char_u32_cast(s[0], s[0] as u32);
        law_slash_is_its_byte(s.drop_first());
        assert(first.len() > 0);
        assert(vstd::utf8::encode_utf8(s) == first + rest);
        assert(first.contains(first[0]));
        if s.contains('/') {
            let i = s.index_of('/');
            if i == 0 {
                assert((first + rest)[0] == 47u8);
            } else {
                assert(s.drop_first()[i - 1] == '/');
                let j = rest.index_of(47u8);
                assert((first + rest)[first.len() + j] == 47u8);
            }
        }
        if (first + rest).contains(47u8) {
            let j = (first + rest).index_of(47u8);
            if j < first.len() {
                assert(first[j] == 47u8);
                assert(s[0] == '/');
            } else {
                assert(rest[j - first.len()] == 47u8);
                let i = s.drop_first().index_of('/');
                assert(s[i + 1] == '/');
            }
        }
    }
}

/// Calls `String::from_utf8_lossy`. Its result depends on the bytes alone, and is the text that
/// they encode where they are valid UTF-8. Which replacement characters stand for invalid
/// bytes is left unsaid.
#[verifier::external_body]
pub(crate) fn text_lossy(bytes: &[u8]) -> (r: String)
    ensures
        vstd::utf8::valid_utf8(bytes@) ==> r@ == vstd::utf8::decode_utf8(bytes@),
        !vstd::utf8::valid_utf8(bytes@) ==> r@ == replaced_text(bytes@),
{
    String::from_utf8_lossy(bytes).into_owned()
}

/// Calls `std::str::from_utf8`, which succeeds on valid UTF-8 and then gives the text that the
/// bytes encode.
#[verifier::external_body]
pub(crate) fn text_exact(bytes: &[u8]) -> (r: Option<&str>)
    ensures
        r is Some <==> vstd::utf8::valid_utf8(bytes@),
        r is Some ==> r->0@ == vstd::utf8::decode_utf8(bytes@),
{
    std::str::from_utf8(bytes).ok()
}

} // verus!
