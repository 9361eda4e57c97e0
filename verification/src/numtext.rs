//! Decimal and hexadecimal number text, as Rust's integer parsers read it.
use vstd::prelude::*;

verus! {

/// Whether a byte is an ASCII decimal digit.
pub open spec fn is_digit(b: u8) -> bool {
    48 <= b <= 57
}

/// The value of an ASCII hexadecimal digit, if the byte is one.
pub open spec fn hex_digit_value(b: u8) -> Option<int> {
    if 48 <= b <= 57 {
        Some(b - 48)
    } else if 65 <= b <= 70 {
        Some(b - 55)
    } else if 97 <= b <= 102 {
        Some(b - 87)
    } else {
        None
    }
}

/// Whether every byte is a decimal digit.
pub open spec fn all_digits(s: Seq<u8>) -> bool {
    forall|i: int| 0 <= i < s.len() ==> is_digit(#[trigger] s[i])
}

/// Whether every byte is a hexadecimal digit.
pub open spec fn all_hex_digits(s: Seq<u8>) -> bool {
    forall|i: int| 0 <= i < s.len() ==> (#[trigger] hex_digit_value(s[i])) is Some
}

/// The value of a run of decimal digits.
pub open spec fn digits_value(s: Seq<u8>) -> int
    decreases s.len(),
{
    if s.len() == 0 {
        0
    } else {
        digits_value(s.drop_last()) * 10 + (s.last() - 48)
    }
}

/// The value of a run of hexadecimal digits.
pub open spec fn hex_digits_value(s: Seq<u8>) -> int
    decreases s.len(),
{
    if s.len() == 0 {
        0
    } else {
        hex_digits_value(s.drop_last()) * 16 + hex_digit_value(s.last())->Some_0
    }
}

/// The sign and digits of number text: a leading `-` (only where negative values are
/// allowed) or `+` is split off.
pub open spec fn split_sign(s: Seq<u8>, signed: bool) -> (bool, Seq<u8>) {
    if s.len() > 0 && s[0] == 45 && signed {
        (true, s.drop_first())
    } else if s.len() > 0 && s[0] == 43 {
        (false, s.drop_first())
    } else {
        (false, s)
    }
}

/// The value of decimal number text in `[lo, hi]`, as Rust's `str::parse` reads it:
/// an optional sign, then one or more digits.
pub open spec fn parse_decimal(s: Seq<u8>, signed: bool, lo: int, hi: int) -> Option<int> {
    let (neg, body) = split_sign(s, signed);
    if body.len() == 0 || !all_digits(body) {
        None
    } else {
        let v = if neg {
            -digits_value(body)
        } else {
            digits_value(body)
        };
        if lo <= v <= hi {
            Some(v)
        } else {
            None
        }
    }
}

/// The value of unsigned hexadecimal number text in `[0, hi]`, as Rust's
/// `from_str_radix(_, 16)` reads it: an optional `+`, then one or more hex digits.
pub open spec fn parse_hex(s: Seq<u8>, hi: int) -> Option<int> {
    let (neg, body) = split_sign(s, false);
    if body.len() == 0 || !all_hex_digits(body) {
        None
    } else if hex_digits_value(body) <= hi {
        Some(hex_digits_value(body))
    } else {
        None
    }
}

proof fn lemma_digits_value_nonneg(s: Seq<u8>)
    requires
        all_digits(s),
    ensures
        digits_value(s) >= 0,
    decreases s.len(),
{
    if s.len() > 0 {
        assert(all_digits(s.drop_last()));
        lemma_digits_value_nonneg(s.drop_last());
    }
}

proof fn lemma_hex_digits_value_nonneg(s: Seq<u8>)
    requires
        all_hex_digits(s),
    ensures
        hex_digits_value(s) >= 0,
    decreases s.len(),
{
    if s.len() > 0 {
        assert(all_hex_digits(s.drop_last()));
        assert(hex_digit_value(s.last()) is Some);
        lemma_hex_digits_value_nonneg(s.drop_last());
    }
}

/// Reads the digits of `body` as a value, saturating at `cap`; reports whether all are digits.
fn scan_digits(body: &[u8], cap: u64) -> (r: (bool, u64))
    requires
        cap <= 0x1_0000_0000_0000,
    ensures
        r.0 == all_digits(body@),
        r.0 ==> r.1 == (if digits_value(body@) < cap {
            digits_value(body@)
        } else {
            cap as int
        }),
{
    let mut acc: u64 = 0;
    let mut i: usize = 0;
    while i < body.len()
        invariant
            i <= body@.len(),
            cap <= 0x1_0000_0000_0000,
            all_digits(body@.subrange(0, i as int)),
            acc == (if digits_value(body@.subrange(0, i as int)) < cap {
                digits_value(body@.subrange(0, i as int))
            } else {
                cap as int
            }),
        decreases body@.len() - i,
    {
        let b = body[i];
        if !(48 <= b && b <= 57) {
            assert(!all_digits(body@)) by {
                assert(!is_digit(body@[i as int]));
            }
            return (false, 0);
        }
        let ghost prev = body@.subrange(0, i as int);
        let ghost next = body@.subrange(0, i + 1);
        assert(next.drop_last() =~= prev);
        proof {
            lemma_digits_value_nonneg(prev);
        }
        let d = (b - 48) as u64;
        let candidate = acc * 10 + d;
        acc = if candidate < cap {
            candidate
        } else {
            cap
        };
        proof {
            let v = digits_value(prev);
            assert(digits_value(next) == v * 10 + d);
            if v >= cap {
                assert(v * 10 + d >= cap) by (nonlinear_arith)
                    requires
                        v >= cap,
                        d >= 0,
                ;
            }
        }
        i = i + 1;
    }
    assert(body@.subrange(0, i as int) =~= body@);
    (true, acc)
}

/// Reads the hex digits of `body` as a value, saturating at `cap`; reports whether all are
/// hex digits.
fn scan_hex_digits(body: &[u8], cap: u64) -> (r: (bool, u64))
    requires
        cap <= 0x1_0000_0000_0000,
    ensures
        r.0 == all_hex_digits(body@),
        r.0 ==> r.1 == (if hex_digits_value(body@) < cap {
            hex_digits_value(body@)
        } else {
            cap as int
        }),
{
    let mut acc: u64 = 0;
    let mut i: usize = 0;
    while i < body.len()
        invariant
            i <= body@.len(),
            cap <= 0x1_0000_0000_0000,
            all_hex_digits(body@.subrange(0, i as int)),
            acc == (if hex_digits_value(body@.subrange(0, i as int)) < cap {
                hex_digits_value(body@.subrange(0, i as int))
            } else {
                cap as int
            }),
        decreases body@.len() - i,
    {
        let b = body[i];
        let d: u64 = if 48 <= b && b <= 57 {
            (b - 48) as u64
        } else if 65 <= b && b <= 70 {
            (b - 55) as u64
        } else if 97 <= b && b <= 102 {
            (b - 87) as u64
        } else {
            assert(!all_hex_digits(body@)) by {
                assert(hex_digit_value(body@[i as int]) is None);
            }
            return (false, 0);
        };
        let ghost prev = body@.subrange(0, i as int);
        let ghost next = body@.subrange(0, i + 1);
        assert(next.drop_last() =~= prev);
        proof {
            lemma_hex_digits_value_nonneg(prev);
        }
        let candidate = acc * 16 + d;
        acc = if candidate < cap {
            candidate
        } else {
            cap
        };
        proof {
            let v = hex_digits_value(prev);
            assert(hex_digits_value(next) == v * 16 + d);
            if v >= cap {
                assert(v * 16 + d >= cap) by (nonlinear_arith)
                    requires
                        v >= cap,
                        d >= 0,
                ;
            }
        }
        i = i + 1;
    }
    assert(body@.subrange(0, i as int) =~= body@);
    (true, acc)
}

/// Splits off a leading sign as `split_sign` does.
fn split_sign_exec(s: &[u8], signed: bool) -> (r: (bool, &[u8]))
    ensures
        (r.0, r.1@) == split_sign(s@, signed),
{
    if s.len() > 0 && s[0] == 45 && signed {
        (true, &s[1..s.len()])
    } else if s.len() > 0 && s[0] == 43 {
        (false, &s[1..s.len()])
    } else {
        (false, s)
    }
}

/// Parses decimal text as an `i32`, as `str::parse::<i32>` does.
pub fn parse_i32_dec(s: &[u8]) -> (r: Option<i32>)
    ensures
        r matches Some(v) ==> parse_decimal(s@, true, i32::MIN as int, i32::MAX as int) == Some(
            v as int,
        ),
        r is None ==> parse_decimal(s@, true, i32::MIN as int, i32::MAX as int) is None,
{
    let (neg, body) = split_sign_exec(s, true);
    if body.len() == 0 {
        return None;
    }
    let (ok, v) = scan_digits(body, 0x8000_0001);
    if !ok {
        return None;
    }
    proof {
        lemma_digits_value_nonneg(body@);
    }
    if neg {
        if v <= 0x8000_0000 {
            Some((0 - (v as i64)) as i32)
        } else {
            None
        }
    } else {
        if v <= 0x7fff_ffff {
            Some(v as i32)
        } else {
            None
        }
    }
}

/// Parses decimal text as a `u32`-range value, as `str::parse` does for unsigned types
/// no wider than `hi`.
pub fn parse_unsigned_dec(s: &[u8], hi: u32) -> (r: Option<u32>)
    ensures
        r matches Some(v) ==> parse_decimal(s@, false, 0, hi as int) == Some(v as int),
        r is None ==> parse_decimal(s@, false, 0, hi as int) is None,
{
    let (neg, body) = split_sign_exec(s, false);
    if body.len() == 0 {
        return None;
    }
    let (ok, v) = scan_digits(body, 0x1_0000_0000);
    if !ok {
        return None;
    }
    proof {
        lemma_digits_value_nonneg(body@);
    }
    if v <= hi as u64 {
        Some(v as u32)
    } else {
        None
    }
}

/// Parses hexadecimal text as a `u8`, as `u8::from_str_radix(_, 16)` does.
pub fn parse_u8_hex(s: &[u8]) -> (r: Option<u8>)
    ensures
        r matches Some(v) ==> parse_hex(s@, 255) == Some(v as int),
        r is None ==> parse_hex(s@, 255) is None,
{
    let (neg, body) = split_sign_exec(s, false);
    if body.len() == 0 {
        return None;
    }
    let (ok, v) = scan_hex_digits(body, 256);
    if !ok {
        return None;
    }
    proof {
        lemma_hex_digits_value_nonneg(body@);
    }
    if v <= 255 {
        Some(v as u8)
    } else {
        None
    }
}

/// The decimal digits of a natural number, most significant first, without
/// leading zeros.
pub open spec fn nat_digits(n: nat) -> Seq<u8>
    decreases n,
{
    if n < 10 {
        seq![(48 + n) as u8]
    } else {
        nat_digits(n / 10).push((48 + n % 10) as u8)
    }
}

/// The decimal text of an integer, as Rust's `Display` writes it.
pub open spec fn int_text(x: int) -> Seq<u8> {
    if x < 0 {
        seq![45u8] + nat_digits((-x) as nat)
    } else {
        nat_digits(x as nat)
    }
}

/// Appends the decimal digits of `n`.
pub fn push_decimal_u64(out: &mut Vec<u8>, n: u64)
    ensures
        final(out)@ == old(out)@ + nat_digits(n as nat),
    decreases n,
{
    if n >= 10 {
        push_decimal_u64(out, n / 10);
    }
    let ghost before = out@;
    out.push((48 + n % 10) as u8);
    proof {
        if n >= 10 {
            assert(out@ =~= old(out)@ + nat_digits(n as nat));
        } else {
            assert(out@ =~= old(out)@ + nat_digits(n as nat));
        }
    }
}

/// Appends the decimal text of `x`.
pub fn push_decimal_i64(out: &mut Vec<u8>, x: i64)
    ensures
        final(out)@ == old(out)@ + int_text(x as int),
{
    if x < 0 {
        out.push(45u8);
        let magnitude: u64 = if x == i64::MIN {
            0x8000_0000_0000_0000
        } else {
            (0 - x) as u64
        };
        let ghost mid = out@;
        push_decimal_u64(out, magnitude);
        assert(out@ =~= old(out)@ + int_text(x as int));
    } else {
        push_decimal_u64(out, x as u64);
    }
}

/// Every digit of a natural number's decimal text is a decimal digit, and
/// the text reads back as the number.
pub proof fn lemma_nat_digits_value(n: nat)
    ensures
        all_digits(nat_digits(n)),
        nat_digits(n).len() > 0,
        digits_value(nat_digits(n)) == n,
    decreases n,
{
    if n >= 10 {
        lemma_nat_digits_value(n / 10);
        let s = nat_digits(n);
        assert(s.drop_last() =~= nat_digits(n / 10));
        assert(s.last() == (48 + n % 10) as u8);
        assert(n == (n / 10) * 10 + n % 10);
        assert forall|i: int| 0 <= i < s.len() implies is_digit(#[trigger] s[i]) by {
            if i < s.len() - 1 {
                assert(s[i] == nat_digits(n / 10)[i]);
            }
        }
        assert(digits_value(s) == digits_value(nat_digits(n / 10)) * 10 + (s.last() - 48));
    } else {
        let s = nat_digits(n);
        assert(s.drop_last() =~= Seq::<u8>::empty());
        assert(digits_value(s) == digits_value(s.drop_last()) * 10 + (s.last() - 48));
    }
}

/// Parsing the decimal text of a value in `[lo, hi]` gives the value back.
pub proof fn lemma_int_text_parses(x: int, lo: int, hi: int)
    requires
        lo <= x <= hi,
        x >= 0 || lo < 0,
    ensures
        parse_decimal(int_text(x), lo < 0, lo, hi) == Some(x),
{
    if x < 0 {
        lemma_nat_digits_value((-x) as nat);
        assert((seq![45u8] + nat_digits((-x) as nat)).drop_first() =~= nat_digits((-x) as nat));
    } else {
        lemma_nat_digits_value(x as nat);
        let s = nat_digits(x as nat);
        assert(is_digit(s[0]));
    }
}

/// Whether a decimal digit run starting with an overlong prefix is too large too.
proof fn lemma_digits_value_prefix(s: Seq<u8>, k: int)
    requires
        0 <= k <= s.len(),
        all_digits(s),
    ensures
        digits_value(s) >= digits_value(s.subrange(0, k)),
    decreases s.len() - k,
{
    if k < s.len() {
        lemma_digits_value_prefix(s, k + 1);
        let prev = s.subrange(0, k);
        let next = s.subrange(0, k + 1);
        assert(next.drop_last() =~= prev);
        assert(all_digits(prev));
        lemma_digits_value_nonneg(prev);
        assert(digits_value(next) >= digits_value(prev)) by (nonlinear_arith)
            requires
                digits_value(next) == digits_value(prev) * 10 + (next.last() - 48),
                next.last() >= 48,
                digits_value(prev) >= 0,
        ;
    } else {
        assert(s.subrange(0, k) =~= s);
    }
}


/// The ASCII hexadecimal digit of a nibble, uppercase or lowercase.
pub open spec fn hex_digit_byte(n: nat, upper: bool) -> u8 {
    if n < 10 {
        (48 + n) as u8
    } else if upper {
        (55 + n) as u8
    } else {
        (87 + n) as u8
    }
}

/// The hexadecimal digits of a natural number, most significant first, without leading
/// zeros.
pub open spec fn hex_digits(n: nat, upper: bool) -> Seq<u8>
    decreases n,
{
    if n < 16 {
        seq![hex_digit_byte(n, upper)]
    } else {
        hex_digits(n / 16, upper).push(hex_digit_byte(n % 16, upper))
    }
}

/// Hexadecimal digits padded with zeros to at least two, as `{:02X}` or `{:02x}` writes them.
pub open spec fn hex_text2(n: nat, upper: bool) -> Seq<u8> {
    if n < 16 {
        seq![48u8, hex_digit_byte(n, upper)]
    } else {
        hex_digits(n, upper)
    }
}

/// Appends the hexadecimal digits of `n`.
pub fn push_hex_u64(out: &mut Vec<u8>, n: u64, upper: bool)
    ensures
        final(out)@ == old(out)@ + hex_digits(n as nat, upper),
    decreases n,
{
    if n >= 16 {
        push_hex_u64(out, n / 16, upper);
    }
    let d = (n % 16) as u8;
    let b: u8 = if d < 10 {
        48 + d
    } else if upper {
        55 + d
    } else {
        87 + d
    };
    out.push(b);
    assert(out@ =~= old(out)@ + hex_digits(n as nat, upper));
}

/// Appends `n` in hexadecimal, padded with zeros to two digits.
pub fn push_hex2_u64(out: &mut Vec<u8>, n: u64, upper: bool)
    ensures
        final(out)@ == old(out)@ + hex_text2(n as nat, upper),
{
    if n < 16 {
        out.push(48u8);
    }
    let ghost mid = out@;
    push_hex_u64(out, n, upper);
    assert(out@ =~= old(out)@ + hex_text2(n as nat, upper));
}

/// Hexadecimal digits are ASCII.
pub proof fn lemma_hex_digits_ascii(n: nat, upper: bool)
    ensures
        forall|i: int| 0 <= i < hex_text2(n, upper).len() ==> #[trigger] hex_text2(n, upper)[i] < 128,
        forall|i: int| 0 <= i < hex_digits(n, upper).len() ==> #[trigger] hex_digits(n, upper)[i] < 128,
    decreases n,
{
    if n >= 16 {
        lemma_hex_digits_ascii(n / 16, upper);
        let s = hex_digits(n, upper);
        assert forall|i: int| 0 <= i < s.len() implies #[trigger] s[i] < 128 by {
            if i < s.len() - 1 {
                assert(s[i] == hex_digits(n / 16, upper)[i]);
            }
        }
    }
}

} // verus!
