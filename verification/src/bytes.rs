//! Little-endian integer encodings and byte-vector helpers.
use vstd::prelude::*;

verus! {

/// The unsigned value of four little-endian bytes.
pub open spec fn u32_from_le(b: Seq<u8>) -> u32
    recommends
        b.len() >= 4,
{
    (b[0] as int + 256 * (b[1] as int) + 65536 * (b[2] as int) + 16777216 * (b[3] as int)) as u32
}

/// The unsigned value of two little-endian bytes.
pub open spec fn u16_from_le(b: Seq<u8>) -> u16
    recommends
        b.len() >= 2,
{
    (b[0] as int + 256 * (b[1] as int)) as u16
}

/// The two's-complement value of four little-endian bytes.
pub open spec fn i32_from_le(b: Seq<u8>) -> i32
    recommends
        b.len() >= 4,
{
    let u = u32_from_le(b);
    if u < 0x8000_0000 {
        u as i32
    } else {
        (u - 0x1_0000_0000) as i32
    }
}

/// The unsigned value of the four bytes of `s` that start at `off`.
pub open spec fn u32_at(s: Seq<u8>, off: int) -> u32 {
    u32_from_le(s.subrange(off, off + 4))
}

/// The signed value of the four bytes of `s` that start at `off`.
pub open spec fn i32_at(s: Seq<u8>, off: int) -> i32 {
    i32_from_le(s.subrange(off, off + 4))
}

/// The unsigned value of the two bytes of `s` that start at `off`.
pub open spec fn u16_at(s: Seq<u8>, off: int) -> u16 {
    u16_from_le(s.subrange(off, off + 2))
}

/// The four little-endian bytes of an unsigned value.
pub open spec fn u32_le_bytes(x: u32) -> Seq<u8> {
    seq![
        (x % 256) as u8,
        ((x / 256) % 256) as u8,
        ((x / 65536) % 256) as u8,
        (x / 16777216) as u8,
    ]
}

/// The two little-endian bytes of an unsigned value.
pub open spec fn u16_le_bytes(x: u16) -> Seq<u8> {
    seq![(x % 256) as u8, (x / 256) as u8]
}

/// The two's-complement bit pattern of a signed value, as an unsigned value.
pub open spec fn i32_bits(x: i32) -> u32 {
    if x >= 0 {
        x as u32
    } else {
        (x + 0x1_0000_0000) as u32
    }
}

/// The four little-endian bytes of a signed value.
pub open spec fn i32_le_bytes(x: i32) -> Seq<u8> {
    u32_le_bytes(i32_bits(x))
}

/// Decoding the encoding of an unsigned value gives the value back.
pub proof fn lemma_u32_round_trip(x: u32)
    ensures
        u32_from_le(u32_le_bytes(x)) == x,
        u32_le_bytes(x).len() == 4,
{
    let b = u32_le_bytes(x);
    assert(b[0] as int + 256 * (b[1] as int) + 65536 * (b[2] as int) + 16777216 * (b[3] as int)
        == x as int) by (nonlinear_arith)
        requires
            b[0] as int == x % 256,
            b[1] as int == (x / 256) % 256,
            b[2] as int == (x / 65536) % 256,
            b[3] as int == x / 16777216,
            0 <= x < 0x1_0000_0000,
    ;
}

/// Decoding the encoding of a two-byte value gives the value back.
pub proof fn lemma_u16_round_trip(x: u16)
    ensures
        u16_from_le(u16_le_bytes(x)) == x,
        u16_le_bytes(x).len() == 2,
{
    let b = u16_le_bytes(x);
    assert(b[0] as int + 256 * (b[1] as int) == x as int) by (nonlinear_arith)
        requires
            b[0] as int == x % 256,
            b[1] as int == x / 256,
            0 <= x < 0x1_0000,
    ;
}

/// Decoding the encoding of a signed value gives the value back.
pub proof fn lemma_i32_round_trip(x: i32)
    ensures
        i32_from_le(i32_le_bytes(x)) == x,
        i32_le_bytes(x).len() == 4,
{
    lemma_u32_round_trip(i32_bits(x));
}

/// Encoding the value of four bytes gives the same four bytes.
pub proof fn lemma_u32_bytes_round_trip(b: Seq<u8>)
    requires
        b.len() == 4,
    ensures
        u32_le_bytes(u32_from_le(b)) == b,
{
    let x = u32_from_le(b);
    assert(x as int == b[0] as int + 256 * (b[1] as int) + 65536 * (b[2] as int) + 16777216 * (
    b[3] as int));
    assert(x % 256 == b[0] && (x / 256) % 256 == b[1] && (x / 65536) % 256 == b[2] && x / 16777216
        == b[3]) by (nonlinear_arith)
        requires
            x as int == b[0] as int + 256 * (b[1] as int) + 65536 * (b[2] as int) + 16777216 * (
            b[3] as int),
            0 <= b[0] < 256,
            0 <= b[1] < 256,
            0 <= b[2] < 256,
            0 <= b[3] < 256,
    ;
    assert(u32_le_bytes(x) =~= b);
}

/// Encoding the value of two bytes gives the same two bytes.
pub proof fn lemma_u16_bytes_round_trip(b: Seq<u8>)
    requires
        b.len() == 2,
    ensures
        u16_le_bytes(u16_from_le(b)) == b,
{
    let x = u16_from_le(b);
    assert(x % 256 == b[0] && x / 256 == b[1]) by (nonlinear_arith)
        requires
            x as int == b[0] as int + 256 * (b[1] as int),
            0 <= b[0] < 256,
            0 <= b[1] < 256,
    ;
    assert(u16_le_bytes(x) =~= b);
}

/// Encoding the signed value of four bytes gives the same four bytes.
pub proof fn lemma_i32_bytes_round_trip(b: Seq<u8>)
    requires
        b.len() == 4,
    ensures
        i32_le_bytes(i32_from_le(b)) == b,
{
    lemma_u32_bytes_round_trip(b);
}

/// Reads the unsigned little-endian value stored at `off`.
pub fn read_u32_le_at(data: &[u8], off: usize) -> (r: u32)
    requires
        off + 4 <= data@.len(),
    ensures
        r == u32_at(data@, off as int),
{
    let b0 = data[off] as u32;
    let b1 = data[off + 1] as u32;
    let b2 = data[off + 2] as u32;
    let b3 = data[off + 3] as u32;
    b0 + 256 * b1 + 65536 * b2 + 16777216 * b3
}

/// Reads the two-byte unsigned little-endian value stored at `off`.
pub fn read_u16_le_at(data: &[u8], off: usize) -> (r: u16)
    requires
        off + 2 <= data@.len(),
    ensures
        r == u16_at(data@, off as int),
{
    let b0 = data[off] as u16;
    let b1 = data[off + 1] as u16;
    b0 + 256 * b1
}

/// Reads the signed little-endian value stored at `off`.
pub fn read_i32_le_at(data: &[u8], off: usize) -> (r: i32)
    requires
        off + 4 <= data@.len(),
    ensures
        r == i32_at(data@, off as int),
{
    let u = read_u32_le_at(data, off);
    if u < 0x8000_0000 {
        u as i32
    } else {
        ((u as i64) - 0x1_0000_0000) as i32
    }
}

/// Appends `src` to `out`.
pub fn extend_bytes(out: &mut Vec<u8>, src: &[u8])
    ensures
        final(out)@ == old(out)@ + src@,
{
    let ghost start = out@;
    let mut i: usize = 0;
    while i < src.len()
        invariant
            i <= src@.len(),
            out@ == start + src@.subrange(0, i as int),
        decreases src@.len() - i,
    {
        out.push(src[i]);
        i = i + 1;
        assert(out@ =~= start + src@.subrange(0, i as int));
    }
    assert(src@.subrange(0, i as int) =~= src@);
}

/// Appends the four little-endian bytes of `x`.
pub fn push_u32_le(out: &mut Vec<u8>, x: u32)
    ensures
        final(out)@ == old(out)@ + u32_le_bytes(x),
{
    out.push((x % 256) as u8);
    out.push(((x / 256) % 256) as u8);
    out.push(((x / 65536) % 256) as u8);
    out.push((x / 16777216) as u8);
    assert(final(out)@ =~= old(out)@ + u32_le_bytes(x));
}

/// Appends the two little-endian bytes of `x`.
pub fn push_u16_le(out: &mut Vec<u8>, x: u16)
    ensures
        final(out)@ == old(out)@ + u16_le_bytes(x),
{
    out.push((x % 256) as u8);
    out.push((x / 256) as u8);
    assert(final(out)@ =~= old(out)@ + u16_le_bytes(x));
}

/// Appends the four little-endian bytes of `x`.
pub fn push_i32_le(out: &mut Vec<u8>, x: i32)
    ensures
        final(out)@ == old(out)@ + i32_le_bytes(x),
{
    let bits: u32 = if x >= 0 {
        x as u32
    } else {
        ((x as i64) + 0x1_0000_0000) as u32
    };
    push_u32_le(out, bits);
}

/// Copies a byte slice into a new vector.
pub fn bytes_to_vec(src: &[u8]) -> (r: Vec<u8>)
    ensures
        r@ == src@,
{
    let mut out: Vec<u8> = Vec::new();
    extend_bytes(&mut out, src);
    out
}

/// Copies `len` bytes of `data` starting at `start` into a new vector.
pub fn copy_range(data: &[u8], start: usize, len: usize) -> (r: Vec<u8>)
    requires
        start + len <= data@.len(),
    ensures
        r@ == data@.subrange(start as int, start + len),
{
    let mut out: Vec<u8> = Vec::with_capacity(len);
    let n = data.len();
    let mut i: usize = 0;
    while i < len
        invariant
            i <= len,
            n == data@.len(),
            start + len <= data@.len(),
            out@ == data@.subrange(start as int, start + i),
        decreases len - i,
    {
        out.push(data[start + i]);
        i = i + 1;
        assert(out@ =~= data@.subrange(start as int, start + i));
    }
    out
}

} // verus!
