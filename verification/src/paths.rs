//! Path-name rules: the last component of a Unix path, archive family stems,
//! wildcard matching of file names, and the percent escaping of archived names
//! used as local file names.
use vstd::prelude::*;
use vstd::string::StrSliceExecFns;

use crate::binary_payloads::file_stem;
use crate::chartext::{char_utf8_len, char_utf8_len_exec, hex_digit_char, is_hex_digit_char, str_chars};
use crate::numtext::{parse_hex, parse_u8_hex};
use crate::textenc::{all_ascii, ascii_chars, lossy_string, utf8_lossy};

verus! {

/// The start of the path segment that ends at `end`: just after the last `/` before it.
pub open spec fn seg_start(s: Seq<char>, end: int) -> int
    decreases end,
{
    if end <= 0 {
        0
    } else if s[end - 1] as u32 == 47 {
        end
    } else {
        seg_start(s, end - 1)
    }
}

/// Whether a path segment is `.`.
pub open spec fn is_dot(seg: Seq<char>) -> bool {
    seg.len() == 1 && seg[0] as u32 == 46
}

/// Whether a path segment is `..`.
pub open spec fn is_dot_dot(seg: Seq<char>) -> bool {
    seg.len() == 2 && seg[0] as u32 == 46 && seg[1] as u32 == 46
}

/// The span of the last component of `s[..end]` that names a file, as Unix
/// `Path::file_name` finds it: trailing `/` and `.` components are skipped, and there
/// is none when the path is empty, a root, or ends in `..`.
pub open spec fn file_name_span(s: Seq<char>, end: int) -> Option<(int, int)>
    decreases end,
{
    if end <= 0 || end > s.len() {
        None
    } else if s[end - 1] as u32 == 47 {
        file_name_span(s, end - 1)
    } else {
        let b = seg_start(s, end);
        if b >= end || b < 0 {
            None
        } else if is_dot(s.subrange(b, end)) {
            file_name_span(s, b)
        } else if is_dot_dot(s.subrange(b, end)) {
            None
        } else {
            Some((b, end))
        }
    }
}

/// The last component of a Unix path that names a file.
pub open spec fn path_file_name(s: Seq<char>) -> Option<Seq<char>> {
    match file_name_span(s, s.len() as int) {
        Some((b, e)) => Some(s.subrange(b, e)),
        None => None,
    }
}

/// The stem of a Unix path's file name, as `Path::file_stem` gives it.
pub open spec fn path_file_stem(s: Seq<char>) -> Option<Seq<char>> {
    match path_file_name(s) {
        Some(name) => Some(file_stem(name)),
        None => None,
    }
}

proof fn lemma_seg_start_bounds(s: Seq<char>, end: int)
    requires
        end <= s.len(),
    ensures
        end <= 0 ==> seg_start(s, end) == 0,
        end > 0 ==> 0 <= seg_start(s, end) <= end,
        forall|k: int| seg_start(s, end) <= k < end ==> s[k] as u32 != 47,
    decreases end,
{
    if end > 0 && s[end - 1] as u32 != 47 {
        lemma_seg_start_bounds(s, end - 1);
    }
}

/// A file name span lies inside the path.
pub proof fn lemma_file_name_span_bounds(s: Seq<char>, end: int)
    ensures
        file_name_span(s, end) matches Some((b, e)) ==> 0 <= b < e <= end <= s.len(),
    decreases end,
{
    if 0 < end <= s.len() {
        lemma_seg_start_bounds(s, end);
        if s[end - 1] as u32 == 47 {
            lemma_file_name_span_bounds(s, end - 1);
        } else {
            let b = seg_start(s, end);
            if 0 <= b < end && is_dot(s.subrange(b, end)) {
                lemma_file_name_span_bounds(s, b);
            }
        }
    }
}

/// The span of the file name of a path, by character positions.
pub fn file_name_span_exec(s: &[char]) -> (r: Option<(usize, usize)>)
    ensures
        r matches Some((b, e)) ==> file_name_span(s@, s@.len() as int) == Some((b as int, e as int)),
        r is None ==> file_name_span(s@, s@.len() as int) is None,
{
    let mut end: usize = s.len();
    loop
        invariant
            end <= s@.len(),
            file_name_span(s@, s@.len() as int) == file_name_span(s@, end as int),
        decreases end,
    {
        if end == 0 {
            return None;
        }
        if s[end - 1] as u32 == 47 {
            end = end - 1;
        } else {
            let mut b: usize = end;
            while b > 0 && s[b - 1] as u32 != 47
                invariant
                    b <= end,
                    end <= s@.len(),
                    end > 0,
                    seg_start(s@, end as int) == seg_start(s@, b as int),
                    forall|k: int| b <= k < end ==> s@[k] as u32 != 47,
                decreases b,
            {
                b = b - 1;
            }
            assert(seg_start(s@, b as int) == b as int);
            if b >= end {
                return None;
            }
            let len = end - b;
            if len == 1 && s[b] as u32 == 46 {
                assert(is_dot(s@.subrange(b as int, end as int)));
                end = b;
            } else if len == 2 && s[b] as u32 == 46 && s[b + 1] as u32 == 46 {
                assert(is_dot_dot(s@.subrange(b as int, end as int)));
                return None;
            } else {
                assert(!is_dot(s@.subrange(b as int, end as int)));
                assert(!is_dot_dot(s@.subrange(b as int, end as int)));
                return Some((b, end));
            }
        }
    }
}

/// Whether slicing off the last two bytes of `stem` lands on a character boundary,
/// which `str` slicing requires: true when the stem has at most two bytes, when its last
/// two characters are one byte each, or when its last character is two bytes.
pub open spec fn chunk_suffix_slice_ok(stem: Seq<char>) -> bool {
    ||| crate::chartext::text_utf8_len(stem) <= 2
    ||| stem.len() >= 2 && char_utf8_len(stem.last()) == 1 && char_utf8_len(stem[stem.len() - 2]) == 1
    ||| stem.len() >= 1 && char_utf8_len(stem.last()) == 2
}

/// A stem without a trailing two-digit hexadecimal chunk number, when it has more than
/// two bytes.
pub open spec fn strip_chunk_suffix(stem: Seq<char>) -> Seq<char> {
    if crate::chartext::text_utf8_len(stem) > 2 && stem.len() >= 2 && is_hex_digit_char(stem.last())
        && is_hex_digit_char(stem[stem.len() - 2]) {
        stem.take(stem.len() - 2)
    } else {
        stem
    }
}

/// Whether a character is a hexadecimal digit in either case: `0`-`9`, `A`-`F`, `a`-`f`.
pub open spec fn is_chunk_digit(c: char) -> bool {
    ||| 48 <= (c as u32) && (c as u32) <= 57
    ||| 65 <= (c as u32) && (c as u32) <= 70
    ||| 97 <= (c as u32) && (c as u32) <= 102
}

/// A family name followed by a two-digit hexadecimal chunk number, in either case,
/// strips back to the family name.
pub proof fn lemma_chunk_number_stripped(f: Seq<char>, a: char, b: char)
    requires
        f.len() >= 1,
        is_chunk_digit(a),
        is_chunk_digit(b),
    ensures
        strip_chunk_suffix(f + seq![a, b]) == f,
{
    let s = f + seq![a, b];
    lemma_text_utf8_len_nonneg(f);
    assert(s.drop_last() =~= f + seq![a]);
    assert((f + seq![a]).drop_last() =~= f);
    assert(crate::chartext::text_utf8_len(f + seq![a]) == crate::chartext::text_utf8_len(f) + 1);
    assert(crate::chartext::text_utf8_len(s) == crate::chartext::text_utf8_len(f) + 2);
    assert(s.last() == b && s[s.len() - 2] == a);
    assert(s.take(s.len() - 2) =~= f);
}

/// Stripping removes nothing, or exactly a trailing two-digit hexadecimal number.
pub proof fn lemma_chunk_strip_shape(s: Seq<char>)
    ensures
        strip_chunk_suffix(s) == s || (s.len() >= 2 && strip_chunk_suffix(s) == s.take(s.len() - 2)
            && is_chunk_digit(s[s.len() - 2]) && is_chunk_digit(s.last())),
        s.len() >= 1 && !is_chunk_digit(s.last()) ==> strip_chunk_suffix(s) == s,
{
}

proof fn lemma_text_utf8_len_nonneg(s: Seq<char>)
    ensures
        crate::chartext::text_utf8_len(s) >= s.len(),
    decreases s.len(),
{
    if s.len() > 0 {
        lemma_text_utf8_len_nonneg(s.drop_last());
    }
}

/// Whether the UTF-8 encoding of `s` has more than two bytes.
fn utf8_longer_than_two(s: &[char]) -> (r: bool)
    ensures
        r == (crate::chartext::text_utf8_len(s@) > 2),
{
    let mut total: usize = 0;
    let mut i: usize = 0;
    while i < s.len()
        invariant
            i <= s@.len(),
            total <= 2,
            total == crate::chartext::text_utf8_len(s@.take(i as int)),
        decreases s@.len() - i,
    {
        assert(s@.take(i + 1).drop_last() =~= s@.take(i as int));
        let next = total + char_utf8_len_exec(s[i]);
        if next > 2 {
            proof {
                lemma_utf8_len_prefix(s@, i + 1);
            }
            return true;
        }
        total = next;
        i = i + 1;
    }
    assert(s@.take(i as int) =~= s@);
    false
}

proof fn lemma_utf8_len_prefix(s: Seq<char>, k: int)
    requires
        0 <= k <= s.len(),
    ensures
        crate::chartext::text_utf8_len(s) >= crate::chartext::text_utf8_len(s.take(k)),
    decreases s.len() - k,
{
    if k < s.len() {
        lemma_utf8_len_prefix(s, k + 1);
        assert(s.take(k + 1).drop_last() =~= s.take(k));
    } else {
        assert(s.take(k) =~= s);
    }
}

/// Whether `strip_chunk_suffix` can be applied to `stem` without splitting a character.
pub fn chunk_suffix_slice_ok_exec(stem: &[char]) -> (r: bool)
    ensures
        r == chunk_suffix_slice_ok(stem@),
{
    if !utf8_longer_than_two(stem) {
        return true;
    }
    let n = stem.len();
    if n >= 2 && char_utf8_len_exec(stem[n - 1]) == 1 && char_utf8_len_exec(stem[n - 2]) == 1 {
        return true;
    }
    n >= 1 && char_utf8_len_exec(stem[n - 1]) == 2
}

/// The length of `stem` after `strip_chunk_suffix`.
pub fn strip_chunk_suffix_len(stem: &[char]) -> (r: usize)
    ensures
        r <= stem@.len(),
        stem@.take(r as int) == strip_chunk_suffix(stem@),
{
    let n = stem.len();
    if n >= 2 && hex_digit_char(stem[n - 1]) && hex_digit_char(stem[n - 2]) && utf8_longer_than_two(
        stem,
    ) {
        return n - 2;
    }
    assert(stem@.take(n as int) =~= stem@);
    n
}

/// The family stem of a binary archive path: the file stem without a trailing
/// two-digit hexadecimal chunk number. `None` when the path names no file.
pub fn binary_family_stem(path: &str) -> (r: Option<String>)
    requires
        path_file_stem(path@) matches Some(stem) ==> chunk_suffix_slice_ok(stem),
    ensures
        r matches Some(s) ==> path_file_stem(path@) matches Some(stem) && s@ == strip_chunk_suffix(stem),
        r is None ==> path_file_stem(path@) is None,
{
    let chars = str_chars(path);
    match file_name_span_exec(chars.as_slice()) {
        None => None,
        Some((b, e)) => {
            proof {
                lemma_file_name_span_bounds(chars@, chars@.len() as int);
            }
            let name = path.substring_char(b, e);
            let name_chars = str_chars(name);
            let stem_len = stem_len_of(name_chars.as_slice());
            let stem = name.substring_char(0, stem_len);
            let stem_chars = str_chars(stem);
            let keep = strip_chunk_suffix_len(stem_chars.as_slice());
            let kept = stem.substring_char(0, keep);
            Some(kept.to_owned())
        },
    }
}

/// The length of a file name's stem.
pub fn stem_len_of(name: &[char]) -> (r: usize)
    ensures
        r <= name@.len(),
        name@.take(r as int) == file_stem(name@),
{
    let mut i: usize = name.len();
    while i > 0 && name[i - 1] as u32 != 46
        invariant
            i <= name@.len(),
            crate::binary_payloads::last_dot(name@, name@.len() as int) == crate::binary_payloads::last_dot(name@, i as int),
        decreases i,
    {
        i = i - 1;
    }
    assert(name@.take(name@.len() as int) =~= name@);
    if i <= 1 {
        name.len()
    } else {
        i - 1
    }
}

/// Whether byte `b` is kept as it is by `escape_archive_name`: an ASCII letter or digit,
/// `.`, `-` or `_`.
pub open spec fn is_name_safe_byte(b: u8) -> bool {
    ||| 48 <= b <= 57
    ||| 65 <= b <= 90
    ||| 97 <= b <= 122
    ||| b == 46
    ||| b == 45
    ||| b == 95
}

/// The uppercase hexadecimal digit of a nibble.
pub open spec fn hex_upper(n: u8) -> u8 {
    if n < 10 {
        (48 + n) as u8
    } else {
        (55 + n) as u8
    }
}

/// The escaped form of one byte.
pub open spec fn escape_byte(b: u8) -> Seq<u8> {
    if is_name_safe_byte(b) {
        seq![b]
    } else {
        seq![37u8, hex_upper(b / 16), hex_upper(b % 16)]
    }
}

/// The escaped form of a byte sequence.
pub open spec fn escape_bytes(bs: Seq<u8>) -> Seq<u8>
    decreases bs.len(),
{
    if bs.len() == 0 {
        Seq::empty()
    } else {
        escape_bytes(bs.drop_last()) + escape_byte(bs.last())
    }
}

/// The bytes of `unnamed`.
pub open spec fn unnamed_word() -> Seq<u8> {
    seq![117u8, 110, 110, 97, 109, 101, 100]
}

/// The local file name of an archived name: its UTF-8 bytes with every byte other than
/// ASCII letters, digits, `.`, `-` and `_` written as `%XX`; `unnamed` for an empty name.
pub open spec fn escaped_name(name: Seq<char>) -> Seq<char> {
    let e = escape_bytes(vstd::utf8::encode_utf8(name));
    if e.len() == 0 {
        ascii_chars(unnamed_word())
    } else {
        ascii_chars(e)
    }
}

proof fn lemma_escape_ascii(bs: Seq<u8>)
    ensures
        all_ascii(escape_bytes(bs)),
    decreases bs.len(),
{
    if bs.len() > 0 {
        lemma_escape_ascii(bs.drop_last());
        let a = escape_bytes(bs.drop_last());
        let b = escape_byte(bs.last());
        assert forall|i: int| 0 <= i < (a + b).len() implies #[trigger] (a + b)[i] < 128 by {
            if i >= a.len() {
                assert((a + b)[i] == b[i - a.len()]);
            } else {
                assert((a + b)[i] == a[i]);
            }
        }
    }
}

fn hex_upper_exec(n: u8) -> (r: u8)
    requires
        n < 16,
    ensures
        r == hex_upper(n),
{
    if n < 10 {
        48 + n
    } else {
        55 + n
    }
}

/// Percent-escapes an archived record name for use as a local file name.
pub fn escape_archive_name(name: &str) -> (r: String)
    ensures
        r@ == escaped_name(name@),
{
    let bytes = name.as_bytes();
    let mut out: Vec<u8> = Vec::new();
    let mut i: usize = 0;
    while i < bytes.len()
        invariant
            i <= bytes@.len(),
            out@ == escape_bytes(bytes@.take(i as int)),
        decreases bytes@.len() - i,
    {
        let b = bytes[i];
        assert(bytes@.take(i + 1).drop_last() =~= bytes@.take(i as int));
        if (48 <= b && b <= 57) || (65 <= b && b <= 90) || (97 <= b && b <= 122) || b == 46 || b
            == 45 || b == 95 {
            out.push(b);
        } else {
            out.push(37u8);
            out.push(hex_upper_exec(b / 16));
            out.push(hex_upper_exec(b % 16));
        }
        assert(out@ =~= escape_bytes(bytes@.take(i + 1)));
        i = i + 1;
    }
    assert(bytes@.take(i as int) =~= bytes@);
    proof {
        lemma_escape_ascii(bytes@);
    }
    if out.len() == 0 {
        let word: Vec<u8> = vec![117u8, 110, 110, 97, 109, 101, 100];
        assert(word@ =~= unnamed_word());
        assert(all_ascii(word@));
        return lossy_string(word.as_slice());
    }
    lossy_string(out.as_slice())
}

/// What is wrong with an escaped name.
#[derive(Debug, Clone, Copy, PartialEq, Eq, Structural)]
pub enum ArchiveNameError {
    /// A `%` is not followed by two more bytes.
    TruncatedEscape,
    /// The two bytes after a `%` are not a hexadecimal byte value.
    InvalidEscape,
}

/// The bytes an escaped name stands for, read from position `i`: `%` and two bytes
/// read as a hexadecimal `u8` (as `u8::from_str_radix` reads them, so `+F` counts), other
/// bytes as they are.
pub open spec fn unescape_from(bs: Seq<u8>, i: int) -> Result<Seq<u8>, ArchiveNameError>
    decreases bs.len() - i,
{
    if i < 0 || i >= bs.len() {
        Ok(Seq::empty())
    } else if bs[i] == 37 {
        if i + 2 >= bs.len() {
            Err(ArchiveNameError::TruncatedEscape)
        } else {
            match parse_hex(bs.subrange(i + 1, i + 3), 255) {
                Some(v) => match unescape_from(bs, i + 3) {
                    Ok(rest) => Ok(seq![v as u8] + rest),
                    Err(e) => Err(e),
                },
                None => Err(ArchiveNameError::InvalidEscape),
            }
        }
    } else {
        match unescape_from(bs, i + 1) {
            Ok(rest) => Ok(seq![bs[i]] + rest),
            Err(e) => Err(e),
        }
    }
}

/// Decodes a file name made by `escape_archive_name` back into the archived name; the
/// decoded bytes become text as `String::from_utf8_lossy` makes it.
pub fn unescape_archive_name(name: &str) -> (r: Result<String, ArchiveNameError>)
    ensures
        match unescape_from(vstd::utf8::encode_utf8(name@), 0) {
            Ok(bytes) => r matches Ok(s) && s@ == utf8_lossy(bytes) && (vstd::utf8::valid_utf8(bytes)
                ==> s@ == vstd::utf8::decode_utf8(bytes)),
            Err(e) => r == Err::<String, ArchiveNameError>(e),
        },
{
    let bytes = name.as_bytes();
    let n = bytes.len();
    let mut out: Vec<u8> = Vec::new();
    let mut i: usize = 0;
    while i < n
        invariant
            n == bytes@.len(),
            bytes@ == vstd::utf8::encode_utf8(name@),
            i <= n,
            unescape_from(bytes@, 0) == (match unescape_from(bytes@, i as int) {
                Ok(rest) => Ok(out@ + rest),
                Err(e) => Err(e),
            }),
        decreases n - i,
    {
        if bytes[i] == 37 {
            if n - i <= 2 {
                return Err(ArchiveNameError::TruncatedEscape);
            }
            let hex = vstd::slice::slice_subrange(bytes, i + 1, i + 3);
            match parse_u8_hex(hex) {
                Some(v) => {
                    let ghost before = out@;
                    out.push(v);
                    proof {
                        match unescape_from(bytes@, i + 3) {
                            Ok(rest) => {
                                assert(before + (seq![v] + rest) =~= out@ + rest);
                            },
                            Err(e) => {},
                        }
                    }
                    i = i + 3;
                },
                None => {
                    return Err(ArchiveNameError::InvalidEscape);
                },
            }
        } else {
            let ghost before = out@;
            out.push(bytes[i]);
            proof {
                match unescape_from(bytes@, i + 1) {
                    Ok(rest) => {
                        assert(before + (seq![bytes@[i as int]] + rest) =~= out@ + rest);
                    },
                    Err(e) => {},
                }
            }
            i = i + 1;
        }
    }
    assert(out@ + Seq::<u8>::empty() =~= out@);
    Ok(lossy_string(out.as_slice()))
}

/// `unescape_from` reads only the bytes from its position on.
proof fn lemma_unescape_shift(bs: Seq<u8>, i: int)
    requires
        0 <= i <= bs.len(),
    ensures
        unescape_from(bs, i) == unescape_from(bs.skip(i), 0),
    decreases bs.len() - i,
{
    let t = bs.skip(i);
    if i < bs.len() {
        if bs[i] == 37 {
            if i + 2 < bs.len() {
                assert(bs.subrange(i + 1, i + 3) =~= t.subrange(1, 3));
                lemma_unescape_shift(bs, i + 3);
                lemma_unescape_shift(t, 3);
                assert(t.skip(3) =~= bs.skip(i + 3));
            }
        } else {
            lemma_unescape_shift(bs, i + 1);
            lemma_unescape_shift(t, 1);
            assert(t.skip(1) =~= bs.skip(i + 1));
        }
    }
}

proof fn lemma_escape_bytes_front(x: u8, rest: Seq<u8>)
    ensures
        escape_bytes(seq![x] + rest) == escape_byte(x) + escape_bytes(rest),
    decreases rest.len(),
{
    if rest.len() == 0 {
        assert((seq![x] + rest).drop_last() =~= Seq::<u8>::empty());
        assert((seq![x] + rest).last() == x);
        assert(escape_bytes(Seq::<u8>::empty()) == Seq::<u8>::empty());
        assert(escape_bytes(seq![x] + rest) == escape_bytes(Seq::<u8>::empty()) + escape_byte(x));
        assert(escape_bytes(seq![x] + rest) =~= escape_byte(x));
        assert(escape_byte(x) + escape_bytes(rest) =~= escape_byte(x));
    } else {
        lemma_escape_bytes_front(x, rest.drop_last());
        assert((seq![x] + rest).drop_last() =~= seq![x] + rest.drop_last());
        assert((seq![x] + rest).last() == rest.last());
        assert(escape_byte(x) + escape_bytes(rest.drop_last()) + escape_byte(rest.last()) =~= escape_byte(x) + (
        escape_bytes(rest.drop_last()) + escape_byte(rest.last())));
    }
}

proof fn lemma_hex_pair_value(x: u8)
    ensures
        parse_hex(seq![hex_upper(x / 16), hex_upper(x % 16)], 255) == Some(x as int),
{
    let h = seq![hex_upper(x / 16), hex_upper(x % 16)];
    let hi = x / 16;
    let lo = x % 16;
    assert(crate::numtext::hex_digit_value(hex_upper(hi)) == Some(hi as int));
    assert(crate::numtext::hex_digit_value(hex_upper(lo)) == Some(lo as int));
    assert(h.drop_last() =~= seq![hex_upper(hi)]);
    assert(h.drop_last().drop_last() =~= Seq::<u8>::empty());
    assert(crate::numtext::hex_digits_value(Seq::<u8>::empty()) == 0);
    assert(crate::numtext::hex_digits_value(seq![hex_upper(hi)]) == hi as int);
    assert(crate::numtext::hex_digits_value(h) == hi as int * 16 + lo as int);
    assert(crate::numtext::all_hex_digits(h));
    assert(crate::numtext::split_sign(h, false) == (false, h));
}

/// Unescaping the escaped bytes of any byte sequence gives the sequence back.
#[verifier::spinoff_prover]
#[verifier::rlimit(30)]
proof fn lemma_unescape_escape_bytes(bs: Seq<u8>)
    ensures
        unescape_from(escape_bytes(bs), 0) == Ok::<Seq<u8>, ArchiveNameError>(bs),
    decreases bs.len(),
{
    if bs.len() == 0 {
        assert(bs =~= Seq::<u8>::empty());
        assert(escape_bytes(bs) == Seq::<u8>::empty());
    } else {
        let x = bs[0];
        let rest = bs.drop_first();
        assert(bs =~= seq![x] + rest);
        assert(escape_bytes(bs) == escape_bytes(seq![x] + rest));
        lemma_escape_bytes_front(x, rest);
        lemma_unescape_escape_bytes(rest);
        let e = escape_byte(x) + escape_bytes(rest);
        if is_name_safe_byte(x) {
            lemma_unescape_shift(e, 1);
            assert(e[0] == x);
            assert(e.skip(1) =~= escape_bytes(rest));
            assert(unescape_from(e, 1) == Ok::<Seq<u8>, ArchiveNameError>(rest));
            assert(unescape_from(e, 0) == Ok::<Seq<u8>, ArchiveNameError>(seq![x] + rest));
        } else {
            lemma_unescape_shift(e, 3);
            assert(e[0] == 37);
            assert(e.len() >= 3);
            assert(e.skip(3) =~= escape_bytes(rest));
            assert(e.subrange(1, 3) =~= seq![hex_upper(x / 16), hex_upper(x % 16)]);
            lemma_hex_pair_value(x);
            assert(unescape_from(e, 3) == Ok::<Seq<u8>, ArchiveNameError>(rest));
            assert(((x as int) as u8) == x);
            assert(unescape_from(e, 0) == Ok::<Seq<u8>, ArchiveNameError>(seq![x] + rest));
        }
    }
}

/// Unescaping the escaped form of a non-empty name gives back the name's bytes, which,
/// being valid UTF-8, decode to the name. (The empty name escapes to `unnamed`.)
pub proof fn lemma_unescape_escaped_name(name: Seq<char>)
    requires
        name.len() > 0,
    ensures
        unescape_from(vstd::utf8::encode_utf8(escaped_name(name)), 0) == Ok::<Seq<u8>, ArchiveNameError>(
            vstd::utf8::encode_utf8(name),
        ),
        vstd::utf8::valid_utf8(vstd::utf8::encode_utf8(name)),
        vstd::utf8::decode_utf8(vstd::utf8::encode_utf8(name)) == name,
{
    let bs = vstd::utf8::encode_utf8(name);
    vstd::utf8::encode_utf8_valid_utf8(name);
    vstd::utf8::encode_utf8_decode_utf8(name);
    assert(bs.len() > 0) by {
        vstd::utf8::encode_utf8_first_scalar(name);
    }
    let e = escape_bytes(bs);
    assert(e.len() > 0) by {
        lemma_escape_bytes_front(bs[0], bs.drop_first());
        assert(bs =~= seq![bs[0]] + bs.drop_first());
    }
    lemma_escape_ascii(bs);
    let chars = ascii_chars(e);
    assert(vstd::utf8::is_ascii_chars(chars)) by {
        assert forall|i: int| 0 <= i < chars.len() implies '\0' <= #[trigger] chars[i] <= '\u{7f}' by {
            assert(e[i] < 128);
        }
    }
    vstd::utf8::is_ascii_chars_encode_utf8(chars);
    assert(vstd::utf8::encode_utf8(chars) =~= e);
    lemma_unescape_escape_bytes(bs);
}


/// A byte after ASCII lowercasing.
pub open spec fn lower_byte(b: u8) -> u8 {
    if 65 <= b <= 90 {
        (b + 32) as u8
    } else {
        b
    }
}

/// Whether the pattern from position `i` on matches the text from position `j` on:
/// `*` matches any run of bytes, `?` any one byte, and other bytes match themselves
/// ignoring ASCII case.
pub open spec fn wildcard_at(p: Seq<u8>, t: Seq<u8>, i: int, j: int) -> bool
    decreases p.len() - i, t.len() - j,
{
    if i < 0 || j < 0 {
        false
    } else if i >= p.len() {
        j >= t.len()
    } else if p[i] == 42 {
        wildcard_at(p, t, i + 1, j) || (j < t.len() && wildcard_at(p, t, i, j + 1))
    } else if p[i] == 63 {
        j < t.len() && wildcard_at(p, t, i + 1, j + 1)
    } else {
        j < t.len() && lower_byte(p[i]) == lower_byte(t[j]) && wildcard_at(p, t, i + 1, j + 1)
    }
}

/// Whether a file name matches a wildcard pattern, byte by byte.
pub open spec fn wildcard_matches(pattern: Seq<char>, text: Seq<char>) -> bool {
    wildcard_at(vstd::utf8::encode_utf8(pattern), vstd::utf8::encode_utf8(text), 0, 0)
}

fn lower_byte_exec(b: u8) -> (r: u8)
    ensures
        r == lower_byte(b),
{
    if 65 <= b && b <= 90 {
        b + 32
    } else {
        b
    }
}

/// Matches a file name against a pattern with `*` and `?` wildcards, ignoring ASCII case.
pub fn wildcard_match(pattern: &str, text: &str) -> (r: bool)
    ensures
        r == wildcard_matches(pattern@, text@),
{
    let p = pattern.as_bytes();
    let t = text.as_bytes();
    let n = p.len();
    let m = t.len();
    let mut prev: Vec<bool> = Vec::new();
    let mut k: usize = 0;
    while k < m
        invariant
            m == t@.len(),
            k <= m,
            prev@.len() == k,
            forall|x: int| 0 <= x < k ==> !(#[trigger] prev@[x]),
        decreases m - k,
    {
        prev.push(false);
        k = k + 1;
    }
    let mut prev_end = true;
    assert forall|x: int| 0 <= x < m implies #[trigger] prev@[x] == wildcard_at(p@, t@, n as int, x) by {}
    let mut i: usize = n;
    while i > 0
        invariant
            n == p@.len(),
            m == t@.len(),
            i <= n,
            prev@.len() == m,
            forall|x: int| 0 <= x < m ==> #[trigger] prev@[x] == wildcard_at(p@, t@, i as int, x),
            prev_end == wildcard_at(p@, t@, i as int, m as int),
        decreases i,
    {
        let row = i - 1;
        let c = p[row];
        let cur_end = if c == 42 {
            prev_end
        } else {
            false
        };
        let mut cur: Vec<bool> = Vec::new();
        let mut k: usize = 0;
        while k < m
            invariant
                m == t@.len(),
                k <= m,
                cur@.len() == k,
            decreases m - k,
        {
            cur.push(false);
            k = k + 1;
        }
        let mut j: usize = m;
        while j > 0
            invariant
                n == p@.len(),
                m == t@.len(),
                row < n,
                c == p@[row as int],
                j <= m,
                prev@.len() == m,
                cur@.len() == m,
                forall|x: int| 0 <= x < m ==> #[trigger] prev@[x] == wildcard_at(p@, t@, row + 1, x),
                prev_end == wildcard_at(p@, t@, row + 1, m as int),
                cur_end == wildcard_at(p@, t@, row as int, m as int),
                forall|x: int| j <= x < m ==> #[trigger] cur@[x] == wildcard_at(p@, t@, row as int, x),
            decreases j,
        {
            let x = j - 1;
            let next_cur = if x + 1 == m {
                cur_end
            } else {
                cur[x + 1]
            };
            let next_prev = if x + 1 == m {
                prev_end
            } else {
                prev[x + 1]
            };
            let v = if c == 42 {
                prev[x] || next_cur
            } else if c == 63 {
                next_prev
            } else {
                lower_byte_exec(c) == lower_byte_exec(t[x]) && next_prev
            };
            cur.set(x, v);
            j = x;
        }
        prev = cur;
        prev_end = cur_end;
        i = row;
    }
    if m == 0 {
        prev_end
    } else {
        prev[0]
    }
}

/// Bytes after ASCII lowercasing.
pub open spec fn lower_bytes(s: Seq<u8>) -> Seq<u8> {
    Seq::new(s.len(), |k: int| lower_byte(s[k]))
}

/// Wildcard matching is blind to ASCII case on both sides: lowercasing the pattern and
/// the text changes no answer.
pub proof fn lemma_wildcard_case_blind(p: Seq<u8>, t: Seq<u8>, i: int, j: int)
    ensures
        wildcard_at(p, t, i, j) == wildcard_at(lower_bytes(p), lower_bytes(t), i, j),
    decreases p.len() - i, t.len() - j,
{
    if 0 <= i < p.len() && 0 <= j {
        lemma_wildcard_case_blind(p, t, i + 1, j);
        if j < t.len() {
            lemma_wildcard_case_blind(p, t, i, j + 1);
            lemma_wildcard_case_blind(p, t, i + 1, j + 1);
        }
    }
}

/// Every pattern matches itself from any position on: a `*` takes its own byte, a `?`
/// its own byte, and any other byte equals itself.
pub proof fn lemma_wildcard_matches_itself_from(s: Seq<u8>, i: int)
    requires
        0 <= i <= s.len(),
    ensures
        wildcard_at(s, s, i, i),
    decreases s.len() - i,
{
    if i < s.len() {
        lemma_wildcard_matches_itself_from(s, i + 1);
        if s[i] == 42 {
            assert(wildcard_at(s, s, i, i + 1));
        }
    }
}

/// Every file name matches itself as a pattern.
pub proof fn lemma_wildcard_matches_itself(s: Seq<char>)
    ensures
        wildcard_matches(s, s),
{
    lemma_wildcard_matches_itself_from(vstd::utf8::encode_utf8(s), 0);
}

/// A pattern without `*` or `?` matches exactly the texts of its length that equal it
/// byte for byte after ASCII lowercasing.
pub proof fn lemma_wildcard_literal(p: Seq<u8>, t: Seq<u8>, i: int)
    requires
        0 <= i <= p.len(),
        i <= t.len(),
        forall|k: int| 0 <= k < p.len() ==> #[trigger] p[k] != 42 && p[k] != 63,
    ensures
        wildcard_at(p, t, i, i) == (p.len() == t.len() && forall|k: int|
            i <= k < p.len() ==> lower_byte(#[trigger] p[k]) == lower_byte(t[k])),
    decreases p.len() - i,
{
    if i < p.len() {
        if i < t.len() {
            lemma_wildcard_literal(p, t, i + 1);
            if wildcard_at(p, t, i, i) {
                assert forall|k: int| i <= k < p.len() implies lower_byte(#[trigger] p[k]) == lower_byte(t[k]) by {
                    if k > i {
                        assert(i + 1 <= k);
                    }
                }
            }
        }
    }
}

/// A lone `*` matches every text.
pub proof fn lemma_wildcard_star_matches_all(t: Seq<u8>, j: int)
    requires
        0 <= j <= t.len(),
    ensures
        wildcard_at(seq![42u8], t, 0, j),
    decreases t.len() - j,
{
    let p = seq![42u8];
    assert(p.len() == 1 && p[0] == 42);
    assert(wildcard_at(p, t, 1, j) == (j >= t.len()));
    if j < t.len() {
        lemma_wildcard_star_matches_all(t, j + 1);
    }
}

/// A lone `?` matches exactly the one-byte texts.
pub proof fn lemma_wildcard_question_matches_one(t: Seq<u8>)
    ensures
        wildcard_at(seq![63u8], t, 0, 0) == (t.len() == 1),
{
    let p = seq![63u8];
    assert(p.len() == 1 && p[0] == 63);
    assert(wildcard_at(p, t, 1, 1) == (1 >= t.len()));
}


} // verus!
