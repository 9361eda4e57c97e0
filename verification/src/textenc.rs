//! Conversions from stored name bytes to text.
use vstd::prelude::*;

use crate::numtext::nat_digits;

verus! {

/// The text that `String::from_utf8_lossy` makes of a byte sequence.
pub uninterp spec fn utf8_lossy(bytes: Seq<u8>) -> Seq<char>;

/// The text that `encoding_rs::EUC_KR.decode` makes of a byte sequence.
pub uninterp spec fn euc_kr_text(bytes: Seq<u8>) -> Seq<char>;

/// Whether every byte is ASCII.
pub open spec fn all_ascii(bytes: Seq<u8>) -> bool {
    forall|i: int| 0 <= i < bytes.len() ==> #[trigger] bytes[i] < 128
}

/// The characters of ASCII bytes.
pub open spec fn ascii_chars(bytes: Seq<u8>) -> Seq<char> {
    Seq::new(bytes.len(), |i: int| bytes[i] as char)
}

/// Calls `String::from_utf8_lossy`: its result is named `utf8_lossy` of the bytes;
/// valid UTF-8 decodes to its characters unchanged (as the documentation says), so in
/// particular ASCII bytes decode to the characters with their codes; nothing more is
/// claimed of the replacement of invalid sequences.
#[verifier::external_body]
pub(crate) fn lossy_string(bytes: &[u8]) -> (s: String)
    ensures
        s@ == utf8_lossy(bytes@),
        vstd::utf8::valid_utf8(bytes@) ==> s@ == vstd::utf8::decode_utf8(bytes@),
        all_ascii(bytes@) ==> s@ == ascii_chars(bytes@),
{
    String::from_utf8_lossy(bytes).into_owned()
}

/// Calls `encoding_rs::EUC_KR.decode` and keeps the decoded text: the text is named
/// `euc_kr_text` of the bytes (the decoder also sniffs a byte-order mark, which is part of
/// that name); nothing is claimed of the character mapping.
#[verifier::external_body]
pub(crate) fn euc_kr_string(bytes: &[u8]) -> (s: String)
    ensures
        s@ == euc_kr_text(bytes@),
{
    encoding_rs::EUC_KR.decode(bytes).0.into_owned()
}

/// Decimal digits are ASCII.
pub proof fn lemma_nat_digits_ascii(n: nat)
    ensures
        all_ascii(nat_digits(n)),
{
    crate::numtext::lemma_nat_digits_value(n);
    let s = nat_digits(n);
    assert forall|i: int| 0 <= i < s.len() implies #[trigger] s[i] < 128 by {
        assert(crate::numtext::is_digit(s[i]));
    }
}

/// Joining ASCII texts gives ASCII text.
pub proof fn lemma_concat_ascii(a: Seq<u8>, b: Seq<u8>)
    requires
        all_ascii(a),
        all_ascii(b),
    ensures
        all_ascii(a + b),
{
    assert forall|i: int| 0 <= i < (a + b).len() implies #[trigger] (a + b)[i] < 128 by {
        if i < a.len() {
            assert((a + b)[i] == a[i]);
        } else {
            assert((a + b)[i] == b[i - a.len()]);
        }
    }
}

/// The decimal text of an integer is ASCII.
pub proof fn lemma_int_text_ascii(x: int)
    ensures
        all_ascii(crate::numtext::int_text(x)),
{
    if x < 0 {
        lemma_nat_digits_ascii((-x) as nat);
        lemma_concat_ascii(seq![45u8], crate::numtext::nat_digits((-x) as nat));
    } else {
        lemma_nat_digits_ascii(x as nat);
    }
}


pub proof fn lemma_encode_utf8_push(s: Seq<char>, c: char)
    ensures
        vstd::utf8::encode_utf8(s.push(c)) == vstd::utf8::encode_utf8(s) + vstd::utf8::encode_scalar(
            c as u32,
        ),
    decreases s.len(),
{
    if s.len() == 0 {
        assert(s.push(c).drop_first() =~= Seq::<char>::empty());
        assert(vstd::utf8::encode_utf8(s) =~= Seq::<u8>::empty());
        assert(vstd::utf8::encode_utf8(Seq::<char>::empty()) =~= Seq::<u8>::empty());
        assert(vstd::utf8::encode_utf8(s.push(c)) =~= vstd::utf8::encode_scalar(c as u32) + Seq::<u8>::empty());
    } else {
        lemma_encode_utf8_push(s.drop_first(), c);
        assert(s.push(c).drop_first() =~= s.drop_first().push(c));
        assert(s.push(c)[0] == s[0]);
    }
}

/// Appends the UTF-8 encoding of a character.
pub fn push_utf8(out: &mut Vec<u8>, c: char)
    ensures
        final(out)@ == old(out)@ + vstd::utf8::encode_scalar(c as u32),
{
    let code = c as u32;
    proof {
        vstd::utf8::char_is_scalar(c);
    }
    if code <= 0x7F {
        out.push((code & 0x7F) as u8);
    } else if code <= 0x7FF {
        out.push(0xC0 | ((code >> 6) & 0x1F) as u8);
        out.push(0x80 | (code & 0x3F) as u8);
    } else if code <= 0xFFFF {
        out.push(0xE0 | ((code >> 12) & 0x0F) as u8);
        out.push(0x80 | ((code >> 6) & 0x3F) as u8);
        out.push(0x80 | (code & 0x3F) as u8);
    } else {
        out.push(0xF0 | ((code >> 18) & 0x7) as u8);
        out.push(0x80 | ((code >> 12) & 0x3F) as u8);
        out.push(0x80 | ((code >> 6) & 0x3F) as u8);
        out.push(0x80 | (code & 0x3F) as u8);
    }
    assert(out@ =~= old(out)@ + vstd::utf8::encode_scalar(c as u32));
}

/// A string holding exactly the given characters.
pub fn chars_to_string(cs: &[char]) -> (r: String)
    ensures
        r@ == cs@,
{
    let mut out: Vec<u8> = Vec::new();
    let mut i: usize = 0;
    while i < cs.len()
        invariant
            i <= cs@.len(),
            out@ == vstd::utf8::encode_utf8(cs@.take(i as int)),
        decreases cs@.len() - i,
    {
        proof {
            lemma_encode_utf8_push(cs@.take(i as int), cs@[i as int]);
            assert(cs@.take(i as int).push(cs@[i as int]) =~= cs@.take(i + 1));
        }
        push_utf8(&mut out, cs[i]);
        i = i + 1;
    }
    assert(cs@.take(i as int) =~= cs@);
    proof {
        vstd::utf8::encode_utf8_valid_utf8(cs@);
        vstd::utf8::encode_utf8_decode_utf8(cs@);
    }
    lossy_string(out.as_slice())
}

} // verus!
