//! Facts about strings shared by the other modules: UTF-8 encodings of
//! concatenations, and conversions between `String` and its characters.
use vstd::prelude::*;
use vstd::string::*;
use vstd::utf8::*;

verus! {

/// The UTF-8 bytes of a character sequence.
pub open spec fn utf8(s: Seq<char>) -> Seq<u8> {
    encode_utf8(s)
}

/// Encoding distributes over concatenation.
pub proof fn lemma_utf8_concat(a: Seq<char>, b: Seq<char>)
    ensures
        utf8(a + b) == utf8(a) + utf8(b),
    decreases a.len(),
{
    if a.len() == 0 {
        assert(a + b =~= b);
        assert(utf8(a) =~= Seq::<u8>::empty());
        assert(utf8(a) + utf8(b) =~= utf8(b));
    } else {
        assert((a + b).drop_first() =~= a.drop_first() + b);
        lemma_utf8_concat(a.drop_first(), b);
        assert((a + b)[0] == a[0]);
        assert(utf8(a + b) =~= encode_scalar(a[0] as u32) + (utf8(a.drop_first()) + utf8(b)));
        assert(utf8(a) + utf8(b) =~= encode_scalar(a[0] as u32) + utf8(a.drop_first()) + utf8(b));
    }
}

/// The encoding of the dot character.
pub proof fn lemma_utf8_dot()
    ensures
        utf8(seq!['.']) == seq![46u8],
{
    let v: u32 = '.' as u32;
    assert(v == 46);
    assert(seq!['.'].drop_first() =~= Seq::<char>::empty());
    assert((v & 0x7F) as u8 == 46u8) by (bit_vector)
        requires
            v == 46,
    ;
    assert(encode_utf8(Seq::<char>::empty()) =~= Seq::<u8>::empty());
    assert(seq!['.'][0] as u32 == v);
    assert(has_width_1_encoding(v));
    assert(encode_scalar(v) =~= seq![46u8]);
    assert(utf8(seq!['.']) == encode_scalar(v) + encode_utf8(seq!['.'].drop_first()));
    assert(utf8(seq!['.']) =~= seq![46u8]);
}

/// Relies on `str::chars`: the characters of the string, in order.
#[verifier::external_body]
pub(crate) fn chars_of(s: &str) -> (r: Vec<char>)
    ensures
        r@ == s@,
{
    s.chars().collect()
}

/// Relies on `String: FromIterator<char>`: the string of the given characters.
#[verifier::external_body]
pub(crate) fn string_from_chars(cs: &[char]) -> (r: String)
    ensures
        r@ == cs@,
{
    cs.iter().collect()
}

} // verus!
