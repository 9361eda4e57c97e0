//! Hexadecimal text of byte sequences, through the `hex` crate.
use vstd::prelude::*;

use crate::numtext::{hex_digit_byte, hex_digit_value};
use crate::textenc::ascii_chars;

verus! {

/// The lowercase hexadecimal digits of a byte sequence, two per byte.
pub open spec fn hex_lower(data: Seq<u8>) -> Seq<u8>
    decreases data.len(),
{
    if data.len() == 0 {
        Seq::empty()
    } else {
        hex_lower(data.drop_last()) + seq![
            hex_digit_byte((data.last() / 16) as nat, false),
            hex_digit_byte((data.last() % 16) as nat, false),
        ]
    }
}

/// Whether every byte is a hexadecimal digit (either case).
pub open spec fn all_hex(h: Seq<u8>) -> bool {
    forall|i: int| 0 <= i < h.len() ==> (#[trigger] hex_digit_value(h[i])) is Some
}

/// The bytes hexadecimal text stands for: `None` for an odd length or a byte that is
/// not a hexadecimal digit.
pub open spec fn hex_pairs(h: Seq<u8>) -> Option<Seq<u8>> {
    if h.len() % 2 != 0 || !all_hex(h) {
        None
    } else {
        Some(
            Seq::new(
                h.len() / 2,
                |i: int|
                    (hex_digit_value(h[2 * i])->Some_0 * 16 + hex_digit_value(h[2 * i + 1])->Some_0) as u8,
            ),
        )
    }
}

/// Calls `hex::encode`, which, as its documentation says, writes each byte as two
/// lowercase hexadecimal digits.
#[verifier::external_body]
pub(crate) fn hex_encode(data: &[u8]) -> (r: String)
    ensures
        r@ == ascii_chars(hex_lower(data@)),
{
    hex::encode(data)
}

/// Calls `hex::decode` and keeps whether it succeeded: as its source shows, it refuses an
/// odd length and any byte that is not a hexadecimal digit (either case), and otherwise
/// reads each pair of digits as one byte, high digit first.
#[verifier::external_body]
pub(crate) fn hex_decode(text: &str) -> (r: Option<Vec<u8>>)
    ensures
        match hex_pairs(vstd::utf8::encode_utf8(text@)) {
            Some(bytes) => r matches Some(v) && v@ == bytes,
            None => r is None,
        },
{
    hex::decode(text).ok()
}

proof fn lemma_hex_lower_len(data: Seq<u8>)
    ensures
        hex_lower(data).len() == 2 * data.len(),
    decreases data.len(),
{
    if data.len() > 0 {
        lemma_hex_lower_len(data.drop_last());
    }
}

proof fn lemma_hex_lower_at(data: Seq<u8>, i: int)
    requires
        0 <= i < data.len(),
    ensures
        hex_lower(data)[2 * i] == hex_digit_byte((data[i] / 16) as nat, false),
        hex_lower(data)[2 * i + 1] == hex_digit_byte((data[i] % 16) as nat, false),
    decreases data.len(),
{
    lemma_hex_lower_len(data.drop_last());
    if i < data.len() - 1 {
        lemma_hex_lower_at(data.drop_last(), i);
    }
}

/// Hexadecimal text is ASCII.
pub proof fn lemma_hex_lower_ascii(data: Seq<u8>)
    ensures
        forall|i: int| 0 <= i < hex_lower(data).len() ==> #[trigger] hex_lower(data)[i] < 128,
{
    lemma_hex_lower_len(data);
    assert forall|i: int| 0 <= i < hex_lower(data).len() implies #[trigger] hex_lower(data)[i] < 128 by {
        lemma_hex_lower_at(data, i / 2);
        assert(i == 2 * (i / 2) || i == 2 * (i / 2) + 1);
    }
}

/// Decoding the hexadecimal text of a byte sequence gives the sequence back.
pub proof fn lemma_hex_round_trip(data: Seq<u8>)
    ensures
        hex_pairs(hex_lower(data)) == Some(data),
        vstd::utf8::encode_utf8(ascii_chars(hex_lower(data))) == hex_lower(data),
{
    let h = hex_lower(data);
    lemma_hex_lower_len(data);
    assert forall|i: int| 0 <= i < h.len() implies (#[trigger] hex_digit_value(h[i])) is Some by {
        lemma_hex_lower_at(data, i / 2);
        assert(i == 2 * (i / 2) || i == 2 * (i / 2) + 1);
    }
    assert forall|i: int| 0 <= i < data.len() implies (hex_digit_value(h[2 * i])->Some_0 * 16
        + hex_digit_value(h[2 * i + 1])->Some_0) as u8 == data[i] by {
        lemma_hex_lower_at(data, i);
    }
    assert(hex_pairs(h)->Some_0 =~= data);
    lemma_hex_lower_ascii(data);
    let chars = ascii_chars(h);
    assert(vstd::utf8::is_ascii_chars(chars)) by {
        assert forall|i: int| 0 <= i < chars.len() implies '\0' <= #[trigger] chars[i] <= '\u{7f}' by {
            assert(h[i] < 128);
        }
    }
    vstd::utf8::is_ascii_chars_encode_utf8(chars);
    assert(vstd::utf8::encode_utf8(chars) =~= h);
}

} // verus!
