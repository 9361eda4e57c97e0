//! File-name metadata and table order of unpacked binary archive payloads.
//!
//! Unpacking a binary archive writes each record to a file whose name keeps
//! what packing needs to rebuild the same table: the file id, a duplicate
//! ordinal (`__2`), an explicit table index (`__index93`) and a compression
//! override (`__raw`, `__zlib`).
use vstd::prelude::*;
use std::collections::BTreeSet;

use crate::binary::{BinaryCompression, BinaryNosArchiveWriteEntry, BinaryWriteEntryView};
use crate::bytes::bytes_to_vec;
use crate::numtext::{int_text, nat_digits, push_decimal_i64, push_decimal_u64};
use crate::textenc::{
    all_ascii, ascii_chars, lemma_concat_ascii, lemma_int_text_ascii, lemma_nat_digits_ascii,
    lossy_string,
};
use crate::util::count_of;
use vstd::string::StringExecFns;
use crate::chartext::{
    all_digit_chars, char_digits_value, digit_char, digit_chars, digit_run_value, eq_ascii,
    eq_ignore_ascii_case, is_digit_char, lower_code, str_chars, chars_lt, text_lt,
    lemma_text_lt_irreflexive, lemma_text_lt_total, lemma_text_lt_transitive,
};

verus! {

/// Metadata parsed from an unpacked binary payload file name.
#[derive(Debug, Clone, Copy, PartialEq, Eq, Structural)]
pub struct BinaryPayloadFilename {
    /// Numeric archive file id prefix.
    pub file_id: i32,
    /// Duplicate ordinal from a `__N` suffix.
    pub duplicate_ordinal: Option<usize>,
    /// Explicit archive table index from an `__indexN` suffix.
    pub explicit_index: Option<usize>,
    /// Per-entry compression override.
    pub compression: Option<BinaryCompression>,
}

/// The stem of a file name, as `Path::file_stem` takes it: the part before the last
/// `.`, unless the name has no `.`, its only `.` leads, or it is `..`.
pub open spec fn file_stem(name: Seq<char>) -> Seq<char> {
    let d = last_dot(name, name.len() as int);
    if d <= 0 {
        name
    } else {
        name.take(d)
    }
}

/// The index of the last `.` before position `i`, or `-1`.
pub open spec fn last_dot(s: Seq<char>, i: int) -> int
    decreases i,
{
    if i <= 0 {
        -1
    } else if s[i - 1] as u32 == 46 {
        i - 1
    } else {
        last_dot(s, i - 1)
    }
}

/// The number of leading decimal digit characters.
pub open spec fn digit_prefix_len(s: Seq<char>, i: int) -> int
    decreases s.len() - i,
{
    if i >= s.len() || !is_digit_char(s[i]) {
        i
    } else {
        digit_prefix_len(s, i + 1)
    }
}

/// Whether a `__` separator starts at `i`.
pub open spec fn sep_at(s: Seq<char>, i: int) -> bool {
    &&& 0 <= i
    &&& i + 1 < s.len()
    &&& s[i] as u32 == 95
    &&& s[i + 1] as u32 == 95
}

/// The start of the first `__` separator at or after `i`, or the length.
pub open spec fn next_sep(s: Seq<char>, i: int) -> int
    decreases s.len() - i,
{
    if i + 1 >= s.len() {
        s.len() as int
    } else if sep_at(s, i) {
        i
    } else {
        next_sep(s, i + 1)
    }
}

/// The ASCII bytes of `raw`.
pub open spec fn raw_word() -> Seq<u8> {
    seq![114u8, 97u8, 119u8]
}

/// The ASCII bytes of `zlib`.
pub open spec fn zlib_word() -> Seq<u8> {
    seq![122u8, 108u8, 105u8, 98u8]
}

/// The ASCII bytes of `index`.
pub open spec fn index_word() -> Seq<u8> {
    seq![105u8, 110u8, 100u8, 101u8, 120u8]
}

/// What one `__`-separated token adds to the metadata: the first all-digit token
/// sets the duplicate ordinal when it reads as a positive `usize`; `raw` or `zlib`
/// (any ASCII case) sets the compression once; `index` and digits set the explicit
/// index once when the digits read as a `usize`. Any other token is ignored.
pub open spec fn apply_token(f: BinaryPayloadFilename, t: Seq<char>) -> BinaryPayloadFilename {
    if f.duplicate_ordinal is None && all_digit_chars(t) {
        let v = char_digits_value(t);
        if t.len() > 0 && 0 < v <= usize::MAX {
            BinaryPayloadFilename { duplicate_ordinal: Some(v as usize), ..f }
        } else {
            f
        }
    } else if f.compression is None && eq_ignore_ascii_case(t, raw_word()) {
        BinaryPayloadFilename { compression: Some(BinaryCompression::Raw), ..f }
    } else if f.compression is None && eq_ignore_ascii_case(t, zlib_word()) {
        BinaryPayloadFilename { compression: Some(BinaryCompression::Zlib), ..f }
    } else if f.explicit_index is None && t.len() > 5 && eq_ascii(t.take(5), index_word())
        && all_digit_chars(t.skip(5)) && char_digits_value(t.skip(5)) <= usize::MAX {
        BinaryPayloadFilename { explicit_index: Some(char_digits_value(t.skip(5)) as usize), ..f }
    } else {
        f
    }
}

/// The metadata after the tokens of `s` from position `start` on.
pub open spec fn apply_tokens(f: BinaryPayloadFilename, s: Seq<char>, start: int) -> BinaryPayloadFilename
    decreases s.len() - start,
{
    if start < 0 || start > s.len() {
        f
    } else {
        let j = next_sep(s, start);
        let g = apply_token(f, s.subrange(start, if j <= s.len() { j } else { s.len() as int }));
        if start <= j && j + 2 <= s.len() {
            apply_tokens(g, s, j + 2)
        } else {
            g
        }
    }
}

/// What `parse_binary_payload_filename` makes of a file name: `None` unless the stem
/// starts with digits that read as an `i32`; the suffix tokens count only after a
/// `__` right behind the digits.
pub open spec fn parse_payload_name(name: Seq<char>) -> Option<BinaryPayloadFilename> {
    let stem = file_stem(name);
    let n = digit_prefix_len(stem, 0);
    let digits = stem.take(n);
    if n == 0 || char_digits_value(digits) > i32::MAX {
        None
    } else {
        let base = BinaryPayloadFilename {
            file_id: char_digits_value(digits) as i32,
            duplicate_ordinal: None,
            explicit_index: None,
            compression: None,
        };
        let rest = stem.skip(n);
        if rest.len() >= 2 && rest[0] as u32 == 95 && rest[1] as u32 == 95 {
            Some(apply_tokens(base, rest, 2))
        } else {
            Some(base)
        }
    }
}

proof fn lemma_next_sep_bounds(s: Seq<char>, i: int)
    requires
        0 <= i,
    ensures
        i <= next_sep(s, i) || (i >= s.len() && next_sep(s, i) == s.len()),
        next_sep(s, i) <= s.len(),
        next_sep(s, i) < s.len() ==> sep_at(s, next_sep(s, i)),
        forall|k: int| i <= k < next_sep(s, i) ==> !sep_at(s, k),
    decreases s.len() - i,
{
    if i + 1 < s.len() && !sep_at(s, i) {
        lemma_next_sep_bounds(s, i + 1);
    }
}

proof fn lemma_last_dot_bounds(s: Seq<char>, i: int)
    requires
        i <= s.len(),
    ensures
        -1 <= last_dot(s, i) < i || (i <= 0 && last_dot(s, i) == -1),
    decreases i,
{
    if i > 0 && s[i - 1] as u32 != 46 {
        lemma_last_dot_bounds(s, i - 1);
    }
}

proof fn lemma_digit_prefix(s: Seq<char>, i: int)
    requires
        0 <= i <= s.len(),
        all_digit_chars(s.subrange(0, i)),
    ensures
        i <= digit_prefix_len(s, i) <= s.len(),
        all_digit_chars(s.take(digit_prefix_len(s, i))),
        digit_prefix_len(s, i) < s.len() ==> !is_digit_char(s[digit_prefix_len(s, i)]),
    decreases s.len() - i,
{
    if i < s.len() && is_digit_char(s[i]) {
        assert(all_digit_chars(s.subrange(0, i + 1))) by {
            assert forall|k: int| 0 <= k < i + 1 implies is_digit_char(
                #[trigger] s.subrange(0, i + 1)[k],
            ) by {
                if k < i {
                    assert(s.subrange(0, i + 1)[k] == s.subrange(0, i)[k]);
                }
            }
        }
        lemma_digit_prefix(s, i + 1);
    } else {
        assert(s.take(i) =~= s.subrange(0, i));
    }
}

/// The stem of a file name.
fn stem_chars(name: &[char]) -> (r: Vec<char>)
    ensures
        r@ == file_stem(name@),
{
    let mut i: usize = name.len();
    while i > 0 && name[i - 1] as u32 != 46
        invariant
            i <= name@.len(),
            last_dot(name@, name@.len() as int) == last_dot(name@, i as int),
        decreases i,
    {
        i = i - 1;
    }
    proof {
        lemma_last_dot_bounds(name@, name@.len() as int);
    }
    let mut out: Vec<char> = Vec::new();
    let end = if i <= 1 {
        name.len()
    } else {
        i - 1
    };
    let mut k: usize = 0;
    while k < end
        invariant
            end <= name@.len(),
            k <= end,
            out@ == name@.subrange(0, k as int),
        decreases end - k,
    {
        out.push(name[k]);
        assert(out@ =~= name@.subrange(0, k + 1));
        k = k + 1;
    }
    assert(out@ =~= file_stem(name@));
    out
}

/// The metadata after one token.
fn apply_token_exec(f: BinaryPayloadFilename, t: &[char]) -> (r: BinaryPayloadFilename)
    ensures
        r == apply_token(f, t@),
{
    let digits = digit_chars(t);
    if f.duplicate_ordinal.is_none() && digits {
        if t.len() > 0 {
            match digit_run_value(t, usize::MAX as u64) {
                Some(v) => {
                    if v > 0 {
                        return BinaryPayloadFilename { duplicate_ordinal: Some(v as usize), ..f };
                    }
                },
                None => {},
            }
        }
        return f;
    }
    if f.compression.is_none() && word_ignore_case(t, 1) {
        return BinaryPayloadFilename { compression: Some(BinaryCompression::Raw), ..f };
    }
    if f.compression.is_none() && word_ignore_case(t, 2) {
        return BinaryPayloadFilename { compression: Some(BinaryCompression::Zlib), ..f };
    }
    if f.explicit_index.is_none() && t.len() > 5 && t[0] as u32 == 105 && t[1] as u32 == 110
        && t[2] as u32 == 100 && t[3] as u32 == 101 && t[4] as u32 == 120 {
        let tail = vstd::slice::slice_subrange(t, 5, t.len());
        assert(tail@ =~= t@.skip(5));
        assert(eq_ascii(t@.take(5), index_word()));
        if digit_chars(tail) {
            match digit_run_value(tail, usize::MAX as u64) {
                Some(v) => {
                    return BinaryPayloadFilename { explicit_index: Some(v as usize), ..f };
                },
                None => {},
            }
        }
        return f;
    }
    proof {
        if t@.len() > 5 && eq_ascii(t@.take(5), index_word()) {
            assert(t@.take(5)[0] as u32 == 105);
            assert(t@.take(5)[1] as u32 == 110);
            assert(t@.take(5)[2] as u32 == 100);
            assert(t@.take(5)[3] as u32 == 101);
            assert(t@.take(5)[4] as u32 == 120);
        }
    }
    f
}

/// Whether `t` is `raw` (`which == 1`) or `zlib` (`which == 2`), ignoring ASCII case.
fn word_ignore_case(t: &[char], which: u8) -> (r: bool)
    requires
        which == 1 || which == 2,
    ensures
        r == eq_ignore_ascii_case(t@, if which == 1 { raw_word() } else { zlib_word() }),
{
    let ghost word = if which == 1 {
        raw_word()
    } else {
        zlib_word()
    };
    let len: usize = if which == 1 {
        3
    } else {
        4
    };
    if t.len() != len {
        return false;
    }
    let mut i: usize = 0;
    while i < len
        invariant
            len == word.len(),
            t@.len() == len,
            word == (if which == 1 { raw_word() } else { zlib_word() }),
            i <= len,
            forall|k: int| 0 <= k < i ==> lower_code(#[trigger] t@[k]) == word[k] as u32,
        decreases len - i,
    {
        let code = t[i] as u32;
        let lower: u32 = if 65 <= code && code <= 90 {
            code + 32
        } else {
            code
        };
        let expected: u32 = if which == 1 {
            if i == 0 {
                114
            } else if i == 1 {
                97
            } else {
                119
            }
        } else {
            if i == 0 {
                122
            } else if i == 1 {
                108
            } else if i == 2 {
                105
            } else {
                98
            }
        };
        assert(expected == word[i as int] as u32);
        if lower != expected {
            return false;
        }
        i = i + 1;
    }
    true
}

/// Parses the metadata of an unpacked binary payload from its file name (the last
/// component of its path): the decimal file id that starts the stem, then, after a
/// `__` right behind it, `__`-separated tokens for a duplicate ordinal, an explicit
/// index and a compression override.
pub fn parse_binary_payload_filename(file_name: &str) -> (r: Option<BinaryPayloadFilename>)
    ensures
        r == parse_payload_name(file_name@),
{
    let name = str_chars(file_name);
    let stem = stem_chars(name.as_slice());
    let mut n: usize = 0;
    while n < stem.len() && digit_char(stem[n])
        invariant
            n <= stem@.len(),
            all_digit_chars(stem@.subrange(0, n as int)),
            digit_prefix_len(stem@, 0) == digit_prefix_len(stem@, n as int),
        decreases stem@.len() - n,
    {
        proof {
            assert(stem@.subrange(0, n + 1).drop_last() =~= stem@.subrange(0, n as int));
        }
        n = n + 1;
    }
    proof {
        lemma_digit_prefix(stem@, n as int);
    }
    assert(digit_prefix_len(stem@, 0) == n);
    if n == 0 {
        return None;
    }
    let digits = vstd::slice::slice_subrange(stem.as_slice(), 0, n);
    assert(digits@ =~= stem@.take(n as int));
    let file_id = match digit_run_value(digits, i32::MAX as u64) {
        Some(v) => v as i32,
        None => {
            return None;
        },
    };
    let base = BinaryPayloadFilename {
        file_id,
        duplicate_ordinal: None,
        explicit_index: None,
        compression: None,
    };
    let rest = vstd::slice::slice_subrange(stem.as_slice(), n, stem.len());
    assert(rest@ =~= stem@.skip(n as int));
    if !(rest.len() >= 2 && rest[0] as u32 == 95 && rest[1] as u32 == 95) {
        return Some(base);
    }
    Some(apply_tokens_exec(base, rest))
}

/// The metadata after all tokens of `s` from position 2 on.
fn apply_tokens_exec(base: BinaryPayloadFilename, s: &[char]) -> (r: BinaryPayloadFilename)
    requires
        s@.len() >= 2,
    ensures
        r == apply_tokens(base, s@, 2),
{
    let mut f = base;
    let mut start: usize = 2;
    let mut i: usize = 2;
    loop
        invariant
            2 <= start <= i <= s@.len(),
            next_sep(s@, start as int) == next_sep(s@, i as int),
            apply_tokens(f, s@, start as int) == apply_tokens(base, s@, 2),
        decreases s@.len() - i,
    {
        proof {
            lemma_next_sep_bounds(s@, i as int);
        }
        if i >= s.len() - 1 {
            let token = vstd::slice::slice_subrange(s, start, s.len());
            proof {
                lemma_next_sep_bounds(s@, start as int);
                assert(next_sep(s@, start as int) == s@.len());
            }
            let g = apply_token_exec(f, token);
            return g;
        }
        if s[i] as u32 == 95 && s[i + 1] as u32 == 95 {
            let token = vstd::slice::slice_subrange(s, start, i);
            proof {
                lemma_next_sep_bounds(s@, start as int);
                assert(sep_at(s@, i as int));
                assert(next_sep(s@, i as int) == i);
            }
            let g = apply_token_exec(f, token);
            f = g;
            start = i + 2;
            i = i + 2;
        } else {
            assert(!sep_at(s@, i as int));
            i = i + 1;
        }
    }
}


/// Payload bytes with the metadata that packing reads from the file name.
#[derive(Debug, Clone)]
pub struct BinaryPayloadInput {
    /// Archive file id to write for this entry.
    pub file_id: i32,
    /// Duplicate ordinal, a tie-breaker among equal ids.
    pub duplicate_ordinal: Option<usize>,
    /// Explicit table slot requested by the file name.
    pub explicit_index: Option<usize>,
    /// Compression override for this entry.
    pub compression: Option<BinaryCompression>,
    /// Original file name, the last tie-breaker and the name in messages.
    pub source_name: String,
    /// Payload bytes.
    pub data: Vec<u8>,
}

/// Errors of payload ordering and payload file naming.
#[derive(Debug, Clone, PartialEq, Eq)]
pub enum BinaryPayloadError {
    /// A payload claims a table slot past the end of the table.
    ExplicitIndexOutOfRange { source_name: String, index: usize, entry_count: usize },
    /// Two payloads claim the same table slot.
    DuplicateExplicitIndex { index: usize },
    /// No unused output name could be made for an entry.
    DuplicateOutputName { file_id: i32 },
}

/// The duplicate rank of a payload: its ordinal, or 1 without one.
pub open spec fn duplicate_rank(e: BinaryPayloadInput) -> int {
    match e.duplicate_ordinal {
        Some(v) => v as int,
        None => 1,
    }
}

/// A sort key: file id, duplicate rank, name.
pub type PackKey = (i32, int, Seq<char>);

/// The sort key of a payload.
pub open spec fn pack_key(e: BinaryPayloadInput) -> PackKey {
    (e.file_id, duplicate_rank(e), e.source_name@)
}

/// The sort keys of a list of payloads.
pub open spec fn payload_keys(es: Seq<BinaryPayloadInput>) -> Seq<PackKey> {
    Seq::new(es.len(), |i: int| pack_key(es[i]))
}

/// The slot claims of a list of payloads.
pub open spec fn payload_claims(es: Seq<BinaryPayloadInput>) -> Seq<Option<usize>> {
    Seq::new(es.len(), |i: int| es[i].explicit_index)
}

/// Whether key `a` sorts before key `b`: by file id, then rank, then name.
pub open spec fn key_lt(a: PackKey, b: PackKey) -> bool {
    ||| a.0 < b.0
    ||| a.0 == b.0 && a.1 < b.1
    ||| a.0 == b.0 && a.1 == b.1 && text_lt(a.2, b.2)
}

/// The order of unindexed payloads in the table: by sort key, payloads with equal
/// keys in their input order.
pub open spec fn comes_before(keys: Seq<PackKey>, i: int, j: int) -> bool {
    ||| key_lt(keys[i], keys[j])
    ||| keys[i] == keys[j] && i < j
}

/// Whether claim `i` names a slot that is out of range or claimed before.
pub open spec fn explicit_index_problem(claims: Seq<Option<usize>>, i: int) -> bool {
    claims[i] matches Some(x) && (x >= claims.len() || exists|j: int|
        0 <= j < i && #[trigger] claims[j] == Some(x))
}

/// The first of the first `k` claims that is refused.
pub open spec fn first_problem(claims: Seq<Option<usize>>, k: int) -> Option<int>
    decreases k,
{
    if k <= 0 {
        None
    } else {
        match first_problem(claims, k - 1) {
            Some(i) => Some(i),
            None => if explicit_index_problem(claims, k - 1) {
                Some(k - 1)
            } else {
                None
            },
        }
    }
}

proof fn lemma_first_problem_bound(claims: Seq<Option<usize>>, k: int)
    ensures
        first_problem(claims, k) matches Some(i) ==> 0 <= i < k && explicit_index_problem(claims, i),
    decreases k,
{
    if k > 0 {
        lemma_first_problem_bound(claims, k - 1);
    }
}

proof fn lemma_first_problem_stable(claims: Seq<Option<usize>>, a: int, b: int)
    requires
        0 <= a <= b,
        first_problem(claims, a) is Some,
    ensures
        first_problem(claims, b) == first_problem(claims, a),
    decreases b - a,
{
    if a < b {
        lemma_first_problem_stable(claims, a, b - 1);
    }
}

/// Whether `x` occurs in `perm`.
pub open spec fn placed(perm: Seq<int>, x: int) -> bool {
    exists|s: int| 0 <= s < perm.len() && #[trigger] perm[s] == x
}

/// Whether `perm` lists, slot by slot, which payload fills each table slot: every payload
/// exactly once, each claimed slot by its claimant, and the unclaimed payloads in the
/// order `comes_before`.
pub open spec fn is_pack_order(keys: Seq<PackKey>, claims: Seq<Option<usize>>, perm: Seq<int>) -> bool {
    &&& perm.len() == keys.len()
    &&& claims.len() == keys.len()
    &&& forall|s: int| 0 <= s < perm.len() ==> 0 <= #[trigger] perm[s] < keys.len()
    &&& forall|s: int, t: int| 0 <= s < t < perm.len() ==> #[trigger] perm[s] != #[trigger] perm[t]
    &&& forall|x: int| 0 <= x < keys.len() ==> #[trigger] placed(perm, x)
    &&& forall|s: int|
        0 <= s < perm.len() ==> ((#[trigger] claims[perm[s]]) matches Some(x) ==> x == s)
    &&& forall|s: int, t: int|
        0 <= s < t < perm.len() && claims[perm[s]] is None && claims[perm[t]] is None
            ==> comes_before(keys, #[trigger] perm[s], #[trigger] perm[t])
}

/// The write entry made of a payload.
pub open spec fn payload_entry_view(e: BinaryPayloadInput) -> BinaryWriteEntryView {
    BinaryWriteEntryView { file_id: e.file_id, compression: e.compression, data: e.data@ }
}

/// The number of empty slots.
pub open spec fn count_none(s: Seq<Option<usize>>) -> nat
    decreases s.len(),
{
    if s.len() == 0 {
        0
    } else {
        (if s[0] is None {
            1nat
        } else {
            0nat
        }) + count_none(s.drop_first())
    }
}

proof fn lemma_count_none_update(s: Seq<Option<usize>>, x: int, v: usize)
    requires
        0 <= x < s.len(),
        s[x] is None,
    ensures
        count_none(s.update(x, Some(v))) + 1 == count_none(s),
    decreases s.len(),
{
    if x == 0 {
        assert(s.update(x, Some(v)).drop_first() =~= s.drop_first());
    } else {
        assert(s.update(x, Some(v)).drop_first() =~= s.drop_first().update(x - 1, Some(v)));
        lemma_count_none_update(s.drop_first(), x - 1, v);
    }
}

proof fn lemma_count_none_step(s: Seq<Option<usize>>, i: int)
    requires
        0 <= i < s.len(),
    ensures
        count_none(s.subrange(i, s.len() as int)) == (if s[i] is None {
            1nat
        } else {
            0nat
        }) + count_none(s.subrange(i + 1, s.len() as int)),
{
    assert(s.subrange(i, s.len() as int).drop_first() =~= s.subrange(i + 1, s.len() as int));
}

proof fn lemma_count_none_push_none(s: Seq<Option<usize>>)
    ensures
        count_none(s.push(None)) == count_none(s) + 1,
    decreases s.len(),
{
    if s.len() > 0 {
        assert(s.push(None).drop_first() =~= s.drop_first().push(None));
        lemma_count_none_push_none(s.drop_first());
    } else {
        assert(s.push(None).drop_first() =~= s);
    }
}

/// `comes_before` is a strict total order on positions.
proof fn lemma_comes_before_order(keys: Seq<PackKey>, i: int, j: int, k: int)
    ensures
        !comes_before(keys, i, i),
        comes_before(keys, i, j) ==> !comes_before(keys, j, i),
        i != j ==> comes_before(keys, i, j) || comes_before(keys, j, i),
        comes_before(keys, i, j) && comes_before(keys, j, k) ==> comes_before(keys, i, k),
{
    lemma_text_lt_irreflexive(keys[i].2);
    lemma_text_lt_total(keys[i].2, keys[j].2);
    if text_lt(keys[i].2, keys[j].2) && text_lt(keys[j].2, keys[k].2) {
        lemma_text_lt_transitive(keys[i].2, keys[j].2, keys[k].2);
    }
    if keys[i].0 == keys[j].0 && keys[i].1 == keys[j].1 && keys[i].2 == keys[j].2 {
        assert(keys[i] == keys[j]);
    }
}

/// The key sequence made of id, rank and name columns.
pub open spec fn column_keys(ids: Seq<i32>, ranks: Seq<usize>, names: Seq<Vec<char>>) -> Seq<PackKey> {
    Seq::new(ids.len(), |i: int| (ids[i], ranks[i] as int, names[i]@))
}

/// Whether position `i` comes before position `j`.
fn key_before(ids: &Vec<i32>, ranks: &Vec<usize>, names: &Vec<Vec<char>>, i: usize, j: usize) -> (r: bool)
    requires
        i < ids@.len(),
        j < ids@.len(),
        ranks@.len() == ids@.len(),
        names@.len() == ids@.len(),
    ensures
        r == comes_before(column_keys(ids@, ranks@, names@), i as int, j as int),
{
    let ghost keys = column_keys(ids@, ranks@, names@);
    if ids[i] != ids[j] {
        return ids[i] < ids[j];
    }
    if ranks[i] != ranks[j] {
        return ranks[i] < ranks[j];
    }
    let na = names[i].as_slice();
    let nb = names[j].as_slice();
    if chars_lt(na, nb) {
        return true;
    }
    if chars_lt(nb, na) {
        return false;
    }
    proof {
        lemma_text_lt_total(na@, nb@);
        assert(keys[i as int] == keys[j as int]);
    }
    i < j
}

/// The table slot order of payloads given by key columns and slot claims: `Ok` holds
/// the payload position of every slot, `Err` the first refused claim.
fn pack_slots(ids: &Vec<i32>, ranks: &Vec<usize>, names: &Vec<Vec<char>>, claims: &Vec<Option<usize>>) -> (r: Result<Vec<usize>, usize>)
    requires
        ranks@.len() == ids@.len(),
        names@.len() == ids@.len(),
        claims@.len() == ids@.len(),
    ensures
        r is Ok <==> first_problem(claims@, claims@.len() as int) is None,
        r matches Err(i) ==> first_problem(claims@, claims@.len() as int) == Some(i as int),
        r matches Ok(perm) ==> is_pack_order(column_keys(ids@, ranks@, names@), claims@, perm@.map_values(|x: usize| x as int)),
{
    let n = ids.len();
    let ghost keys = column_keys(ids@, ranks@, names@);
    let ghost cl = claims@;
    let mut slots: Vec<Option<usize>> = Vec::new();
    let mut q: usize = 0;
    while q < n
        invariant
            q <= n,
            slots@.len() == q,
            forall|k: int| 0 <= k < q ==> (#[trigger] slots@[k]) is None,
            count_none(slots@) == q,
        decreases n - q,
    {
        proof {
            lemma_count_none_push_none(slots@);
        }
        slots.push(None);
        q = q + 1;
    }
    let mut sorted: Vec<usize> = Vec::new();
    let mut i: usize = 0;
    while i < n
        invariant
            n == ids@.len(),
            ranks@.len() == n,
            names@.len() == n,
            cl == claims@,
            cl.len() == n,
            keys == column_keys(ids@, ranks@, names@),
            i <= n,
            slots@.len() == n,
            forall|s: int|
                0 <= s < n ==> ((#[trigger] slots@[s]) matches Some(x) ==> x < i
                    && cl[x as int] == Some(s as usize)),
            forall|x: int|
                0 <= x < i ==> ((#[trigger] cl[x]) matches Some(s) ==> s < n
                    && slots@[s as int] == Some(x as usize)),
            first_problem(cl, i as int) is None,
            forall|p: int|
                0 <= p < sorted@.len() ==> #[trigger] sorted@[p] < i && cl[sorted@[p] as int] is None,
            forall|x: int| 0 <= x < i && (#[trigger] cl[x]) is None ==> sorted@.contains(x as usize),
            forall|p: int, q2: int|
                0 <= p < q2 < sorted@.len() ==> comes_before(keys, #[trigger] sorted@[p] as int, #[trigger] sorted@[q2] as int),
            count_none(slots@) + i == n + sorted@.len(),
        decreases n - i,
    {
        match claims[i] {
            Some(s) => {
                if s >= n {
                    assert(explicit_index_problem(cl, i as int));
                    proof {
                        lemma_first_problem_stable(cl, i + 1, n as int);
                    }
                    return Err(i);
                }
                match slots[s] {
                    Some(x) => {
                        assert(cl[x as int] == Some(s));
                        assert(explicit_index_problem(cl, i as int));
                        proof {
                            lemma_first_problem_stable(cl, i + 1, n as int);
                        }
                        return Err(i);
                    },
                    None => {
                        assert(!explicit_index_problem(cl, i as int)) by {
                            if exists|j: int| 0 <= j < i && #[trigger] cl[j] == Some(s) {
                                let j = choose|j: int| 0 <= j < i && #[trigger] cl[j] == Some(s);
                                assert(slots@[s as int] == Some(j as usize));
                            }
                        }
                        proof {
                            lemma_count_none_update(slots@, s as int, i);
                        }
                        slots.set(s, Some(i));
                    },
                }
            },
            None => {
                assert(!explicit_index_problem(cl, i as int));
                let mut p: usize = 0;
                while p < sorted.len() && !key_before(ids, ranks, names, i, sorted[p])
                    invariant
                        n == ids@.len(),
                        ranks@.len() == n,
                        names@.len() == n,
                        keys == column_keys(ids@, ranks@, names@),
                        i < n,
                        p <= sorted@.len(),
                        forall|t: int| 0 <= t < sorted@.len() ==> #[trigger] sorted@[t] < i,
                        forall|t: int|
                            0 <= t < p ==> !comes_before(keys, i as int, #[trigger] sorted@[t] as int),
                    decreases sorted@.len() - p,
                {
                    p = p + 1;
                }
                let ghost old_sorted = sorted@;
                sorted.insert(p, i);
                proof {
                    assert(sorted@ == old_sorted.insert(p as int, i));
                    assert forall|a: int, b: int|
                        0 <= a < b < sorted@.len() implies comes_before(
                            keys,
                            #[trigger] sorted@[a] as int,
                            #[trigger] sorted@[b] as int,
                        ) by {
                        if a < p && b == p {
                            lemma_comes_before_order(keys, i as int, old_sorted[a] as int, i as int);
                        } else if a == p && b > p {
                            if b == p + 1 {
                                lemma_comes_before_order(keys, i as int, old_sorted[p as int] as int, i as int);
                            } else {
                                lemma_comes_before_order(
                                    keys,
                                    i as int,
                                    old_sorted[p as int] as int,
                                    old_sorted[b - 1] as int,
                                );
                            }
                        } else if a < p && b > p {
                            assert(comes_before(keys, old_sorted[a] as int, old_sorted[b - 1] as int));
                        } else if a > p {
                            assert(comes_before(keys, old_sorted[a - 1] as int, old_sorted[b - 1] as int));
                        } else {
                            assert(comes_before(keys, old_sorted[a] as int, old_sorted[b] as int));
                        }
                    }
                    assert forall|x: int|
                        0 <= x < i + 1 && (#[trigger] cl[x]) is None implies sorted@.contains(x as usize) by {
                        if x < i {
                            let t = choose|t: int| 0 <= t < old_sorted.len() && old_sorted[t] == x as usize;
                            if t < p {
                                assert(sorted@[t] == x as usize);
                            } else {
                                assert(sorted@[t + 1] == x as usize);
                            }
                        } else {
                            assert(sorted@[p as int] == i);
                        }
                    }
                }
            },
        }
        proof {
            assert(first_problem(cl, i + 1) is None);
        }
        i = i + 1;
    }
    assert(sorted@.len() == count_none(slots@));
    let ghost mut which: Seq<int> = Seq::empty();
    let ghost mut place: Seq<int> = Seq::new(sorted@.len(), |w: int| 0);
    let mut perm: Vec<usize> = Vec::new();
    let mut k: usize = 0;
    let mut s: usize = 0;
    let total = sorted.len();
    assert(slots@.subrange(0, n as int) =~= slots@);
    while s < n
        invariant
            total == sorted@.len(),
            n == ids@.len(),
            keys.len() == n,
            cl.len() == n,
            slots@.len() == n,
            forall|t: int|
                0 <= t < n ==> ((#[trigger] slots@[t]) matches Some(x) ==> x < n
                    && cl[x as int] == Some(t as usize)),
            forall|x: int|
                0 <= x < n ==> ((#[trigger] cl[x]) matches Some(t) ==> t < n
                    && slots@[t as int] == Some(x as usize)),
            forall|p: int|
                0 <= p < sorted@.len() ==> #[trigger] sorted@[p] < n && cl[sorted@[p] as int] is None,
            forall|x: int| 0 <= x < n && (#[trigger] cl[x]) is None ==> sorted@.contains(x as usize),
            forall|p: int, q2: int|
                0 <= p < q2 < sorted@.len() ==> comes_before(keys, #[trigger] sorted@[p] as int, #[trigger] sorted@[q2] as int),
            s <= n,
            k <= sorted@.len(),
            count_none(slots@.subrange(s as int, n as int)) + k == sorted@.len(),
            perm@.len() == s,
            which.len() == s,
            place.len() == sorted@.len(),
            forall|t: int| 0 <= t < s ==> #[trigger] perm@[t] < n,
            forall|t: int|
                0 <= t < s ==> ((#[trigger] cl[perm@[t] as int]) matches Some(x) ==> x == t),
            forall|t: int|
                0 <= t < s && cl[perm@[t] as int] is None ==> 0 <= #[trigger] which[t] < k
                    && perm@[t] == sorted@[which[t]],
            forall|t: int|
                0 <= t < s && cl[perm@[t] as int] is Some ==> slots@[t] == Some(#[trigger] perm@[t]),
            forall|t: int| 0 <= t < s ==> (#[trigger] slots@[t]) is Some ==> cl[perm@[t] as int] is Some,
            forall|t1: int, t2: int|
                0 <= t1 < t2 < s && cl[perm@[t1] as int] is None && cl[perm@[t2] as int] is None
                    ==> #[trigger] which[t1] < #[trigger] which[t2],
            forall|w: int| 0 <= w < k ==> 0 <= #[trigger] place[w] < s && perm@[place[w]] == sorted@[w],
        decreases n - s,
    {
        proof {
            lemma_count_none_step(slots@, s as int);
        }
        let x: usize = match slots[s] {
            Some(x) => x,
            None => {
                assert(count_none(slots@.subrange(s as int, n as int)) >= 1);
                assert(k < sorted@.len());
                let x = sorted[k];
                proof {
                    which = which.push(k as int);
                    place = place.update(k as int, s as int);
                }
                k = k + 1;
                x
            },
        };
        proof {
            if slots@[s as int] is Some {
                which = which.push(0);
            }
        }
        perm.push(x);
        s = s + 1;
    }
    let ghost pi = perm@.map_values(|x: usize| x as int);
    proof {
        assert(k == sorted@.len());
        assert forall|a: int, b: int| 0 <= a < b < pi.len() implies #[trigger] pi[a] != #[trigger] pi[b] by {
            if cl[pi[a]] is None && cl[pi[b]] is None {
                assert(which[a] < which[b]);
                assert(comes_before(keys, sorted@[which[a]] as int, sorted@[which[b]] as int));
                lemma_comes_before_order(keys, sorted@[which[a]] as int, sorted@[which[b]] as int, 0);
            }
        }
        assert forall|x: int| 0 <= x < n implies #[trigger] placed(pi, x) by {
            match cl[x] {
                Some(t) => {
                    assert(slots@[t as int] == Some(x as usize));
                    assert(cl[pi[t as int]] is Some);
                    assert(pi[t as int] == x);
                },
                None => {
                    let w = choose|w: int| 0 <= w < sorted@.len() && sorted@[w] == x as usize;
                    assert(pi[place[w]] == x);
                },
            }
        }
        assert forall|a: int, b: int|
            0 <= a < b < pi.len() && cl[pi[a]] is None
                && cl[pi[b]] is None implies comes_before(keys, #[trigger] pi[a], #[trigger] pi[b]) by {
            assert(which[a] < which[b]);
            assert(comes_before(keys, sorted@[which[a]] as int, sorted@[which[b]] as int));
        }
        assert forall|t: int| 0 <= t < pi.len() implies ((#[trigger] cl[pi[t]]) matches Some(x) ==> x == t) by {
            assert(pi[t] == perm@[t] as int);
        }
        assert(is_pack_order(keys, cl, pi));
    }
    Ok(perm)
}

/// Orders payloads into the table slots the writer fills: each payload with an explicit
/// index in its slot, the others, sorted by file id, duplicate rank and source name
/// (ties in input order), in the remaining slots from the first on. Refuses the first
/// payload (in input order) whose index is out of range or claimed before.
pub fn order_binary_payload_entries(entries: Vec<BinaryPayloadInput>) -> (r: Result<
    Vec<BinaryNosArchiveWriteEntry>,
    BinaryPayloadError,
>)
    ensures
        r is Ok <==> first_problem(payload_claims(entries@), entries@.len() as int) is None,
        r matches Ok(out) ==> exists|perm: Seq<int>|
            #![trigger is_pack_order(payload_keys(entries@), payload_claims(entries@), perm)]
            is_pack_order(payload_keys(entries@), payload_claims(entries@), perm) && out@.len()
                == entries@.len() && forall|s: int|
                0 <= s < out@.len() ==> (#[trigger] out@[s])@ == payload_entry_view(
                    entries@[perm[s]],
                ),
        r matches Err(e) ==> first_problem(payload_claims(entries@), entries@.len() as int) matches Some(i) && (
        match e {
            BinaryPayloadError::ExplicitIndexOutOfRange { source_name, index, entry_count } => {
                &&& entries@[i].explicit_index == Some(index)
                &&& index >= entries@.len()
                &&& entry_count == entries@.len()
                &&& source_name@ == entries@[i].source_name@
            },
            BinaryPayloadError::DuplicateExplicitIndex { index } => {
                &&& entries@[i].explicit_index == Some(index)
                &&& index < entries@.len()
            },
            _ => false,
        }),
{
    let n = entries.len();
    let ghost es = entries@;
    let mut ids: Vec<i32> = Vec::new();
    let mut ranks: Vec<usize> = Vec::new();
    let mut names: Vec<Vec<char>> = Vec::new();
    let mut claims: Vec<Option<usize>> = Vec::new();
    let mut q: usize = 0;
    while q < n
        invariant
            n == es.len(),
            es == entries@,
            q <= n,
            ids@.len() == q,
            ranks@.len() == q,
            names@.len() == q,
            claims@.len() == q,
            forall|k: int| 0 <= k < q ==> #[trigger] ids@[k] == es[k].file_id,
            forall|k: int| 0 <= k < q ==> #[trigger] ranks@[k] as int == duplicate_rank(es[k]),
            forall|k: int| 0 <= k < q ==> (#[trigger] names@[k])@ == es[k].source_name@,
            forall|k: int| 0 <= k < q ==> #[trigger] claims@[k] == es[k].explicit_index,
        decreases n - q,
    {
        let e = &entries[q];
        ids.push(e.file_id);
        ranks.push(
            match e.duplicate_ordinal {
                Some(v) => v,
                None => 1,
            },
        );
        names.push(str_chars(e.source_name.as_str()));
        claims.push(e.explicit_index);
        q = q + 1;
    }
    assert(column_keys(ids@, ranks@, names@) =~= payload_keys(es));
    assert(claims@ =~= payload_claims(es));
    match pack_slots(&ids, &ranks, &names, &claims) {
        Err(i) => {
            proof {
                lemma_first_problem_bound(claims@, n as int);
            }
            match entries[i].explicit_index {
                Some(index) => {
                    if index >= n {
                        Err(
                            BinaryPayloadError::ExplicitIndexOutOfRange {
                                source_name: entries[i].source_name.clone(),
                                index,
                                entry_count: n,
                            },
                        )
                    } else {
                        Err(BinaryPayloadError::DuplicateExplicitIndex { index })
                    }
                },
                None => {
                    assert(false);
                    Err(BinaryPayloadError::DuplicateExplicitIndex { index: 0 })
                },
            }
        },
        Ok(perm) => {
            let ghost pi = perm@.map_values(|x: usize| x as int);
            let mut out: Vec<BinaryNosArchiveWriteEntry> = Vec::new();
            let mut s: usize = 0;
            while s < n
                invariant
                    n == es.len(),
                    es == entries@,
                    perm@.len() == n,
                    pi == perm@.map_values(|x: usize| x as int),
                    forall|t: int| 0 <= t < n ==> 0 <= #[trigger] pi[t] < n,
                    s <= n,
                    out@.len() == s,
                    forall|t: int| 0 <= t < s ==> (#[trigger] out@[t])@ == payload_entry_view(es[pi[t]]),
                decreases n - s,
            {
                let x = perm[s];
                assert(pi[s as int] == x as int);
                let e = &entries[x];
                out.push(
                    BinaryNosArchiveWriteEntry {
                        file_id: e.file_id,
                        compression: e.compression,
                        data: bytes_to_vec(e.data.as_slice()),
                    },
                );
                s = s + 1;
            }
            assert(is_pack_order(payload_keys(es), payload_claims(es), pi));
            Ok(out)
        },
    }
}


/// How often the id at position `i` occurs among the first `i + 1` ids: the duplicate
/// ordinal that unpacking writes for that row.
pub open spec fn occurrence(ids: Seq<i32>, i: int) -> int {
    count_of(ids.take(i + 1), ids[i]) as int
}

/// The sort keys of unpacked rows: id and occurrence, with no name.
pub open spec fn occurrence_keys(ids: Seq<i32>) -> Seq<PackKey> {
    Seq::new(ids.len(), |i: int| (ids[i], occurrence(ids, i), Seq::<char>::empty()))
}

/// The slot claims of rows `0..n` when exactly the rows in `e` keep their index.
pub open spec fn claims_of(n: nat, e: Set<usize>) -> Seq<Option<usize>> {
    Seq::new(n, |i: int| if e.contains(i as usize) { Some(i as usize) } else { None })
}

/// The first slot at or after `i` that a payload other than its own row fills.
pub open spec fn first_displaced(perm: Seq<int>, i: int) -> Option<int>
    decreases perm.len() - i,
{
    if i < 0 || i >= perm.len() {
        None
    } else if perm[i] != i {
        Some(i)
    } else {
        first_displaced(perm, i + 1)
    }
}

/// Whether packing the rows of `ids`, with the rows in `e` at their own index, fills
/// the first displaced slot with row `m`.
pub open spec fn displaced_row(ids: Seq<i32>, e: Set<usize>, m: usize) -> bool {
    exists|perm: Seq<int>|
        #![trigger is_pack_order(occurrence_keys(ids), claims_of(ids.len(), e), perm)]
        is_pack_order(occurrence_keys(ids), claims_of(ids.len(), e), perm) && (first_displaced(
            perm,
            0,
        ) matches Some(p) && perm[p] == m as int)
}

/// The slot order that leaves every row in place.
pub open spec fn identity_order(n: nat) -> Seq<int> {
    Seq::new(n, |i: int| i)
}

/// The number of set flags.
pub open spec fn count_true(s: Seq<bool>) -> nat
    decreases s.len(),
{
    if s.len() == 0 {
        0
    } else {
        (if s[0] {
            1nat
        } else {
            0nat
        }) + count_true(s.drop_first())
    }
}

proof fn lemma_count_true_set(s: Seq<bool>, x: int)
    requires
        0 <= x < s.len(),
        !s[x],
    ensures
        count_true(s.update(x, true)) == count_true(s) + 1,
        count_true(s) < s.len(),
    decreases s.len(),
{
    if x == 0 {
        assert(s.update(x, true).drop_first() =~= s.drop_first());
        lemma_count_true_le(s.drop_first());
    } else {
        assert(s.update(x, true).drop_first() =~= s.drop_first().update(x - 1, true));
        lemma_count_true_set(s.drop_first(), x - 1);
    }
}

proof fn lemma_count_true_push_false(s: Seq<bool>)
    ensures
        count_true(s.push(false)) == count_true(s),
    decreases s.len(),
{
    if s.len() > 0 {
        assert(s.push(false).drop_first() =~= s.drop_first().push(false));
        lemma_count_true_push_false(s.drop_first());
    } else {
        assert(s.push(false).drop_first() =~= s);
    }
}

proof fn lemma_count_true_le(s: Seq<bool>)
    ensures
        count_true(s) <= s.len(),
    decreases s.len(),
{
    if s.len() > 0 {
        lemma_count_true_le(s.drop_first());
    }
}

proof fn lemma_first_problem_none(claims: Seq<Option<usize>>, k: int)
    requires
        0 <= k <= claims.len(),
        forall|i: int| 0 <= i < k ==> !#[trigger] explicit_index_problem(claims, i),
    ensures
        first_problem(claims, k) is None,
    decreases k,
{
    if k > 0 {
        lemma_first_problem_none(claims, k - 1);
    }
}

/// `usize` keys obey the order laws that `BTreeSet` relies on.
proof fn lemma_usize_keys_ordered()
    ensures
        vstd::laws_cmp::obeys_cmp::<usize>(),
{
    broadcast use vstd::laws_cmp::group_laws_cmp;

}

/// Finds the table rows whose index unpacking must keep in the file name (`__indexN`)
/// so that packing the files puts every row back in its slot: starting with none,
/// it packs the rows as they would be named and keeps the row that lands in the first
/// displaced slot, until no slot is displaced.
pub fn explicit_indexes_for_binary_ids(ids: &[i32]) -> (r: BTreeSet<usize>)
    ensures
        exists|chain: Seq<usize>|
            #![trigger chain.to_set()]
            r@ == chain.to_set() && forall|j: int|
                0 <= j < chain.len() ==> displaced_row(ids@, chain.take(j).to_set(), #[trigger] chain[j]),
        is_pack_order(occurrence_keys(ids@), claims_of(ids@.len(), r@), identity_order(ids@.len())),
{
    let n = ids.len();
    let ghost keys = occurrence_keys(ids@);
    let mut id_col: Vec<i32> = Vec::new();
    let mut occ: Vec<usize> = Vec::new();
    let mut names: Vec<Vec<char>> = Vec::new();
    let mut flags: Vec<bool> = Vec::new();
    let mut i: usize = 0;
    while i < n
        invariant
            n == ids@.len(),
            i <= n,
            id_col@.len() == i,
            occ@.len() == i,
            names@.len() == i,
            flags@.len() == i,
            forall|k: int| 0 <= k < i ==> #[trigger] id_col@[k] == ids@[k],
            forall|k: int| 0 <= k < i ==> #[trigger] occ@[k] as int == occurrence(ids@, k),
            forall|k: int| 0 <= k < i ==> (#[trigger] names@[k])@ == Seq::<char>::empty(),
            forall|k: int| 0 <= k < i ==> !#[trigger] flags@[k],
            count_true(flags@) == 0,
        decreases n - i,
    {
        let mut c: usize = 0;
        let mut j: usize = 0;
        while j <= i
            invariant
                n == ids@.len(),
                i < n,
                j <= i + 1,
                c == count_of(ids@.take(j as int), ids@[i as int]),
                c <= j,
            decreases i + 1 - j,
        {
            assert(ids@.take(j + 1).drop_last() =~= ids@.take(j as int));
            if ids[j] == ids[i] {
                c = c + 1;
            }
            j = j + 1;
        }
        id_col.push(ids[i]);
        occ.push(c);
        names.push(Vec::new());
        proof {
            lemma_count_true_push_false(flags@);
        }
        flags.push(false);
        i = i + 1;
    }
    assert(column_keys(id_col@, occ@, names@) =~= keys);
    let ghost mut chain: Seq<usize> = Seq::empty();
    let mut count: usize = 0;
    loop
        invariant
            n == ids@.len(),
            keys == occurrence_keys(ids@),
            column_keys(id_col@, occ@, names@) == keys,
            id_col@.len() == n,
            occ@.len() == n,
            names@.len() == n,
            flags@.len() == n,
            count_true(flags@) == count,
            count <= n,
            forall|x: int| 0 <= x < n ==> (#[trigger] flags@[x] <==> chain.contains(x as usize)),
            forall|j: int| 0 <= j < chain.len() ==> #[trigger] chain[j] < n,
            forall|j: int|
                0 <= j < chain.len() ==> displaced_row(ids@, chain.take(j).to_set(), #[trigger] chain[j]),
        decreases n - count,
    {
        let ghost e = chain.to_set();
        let mut claims: Vec<Option<usize>> = Vec::new();
        let mut k: usize = 0;
        while k < n
            invariant
                n == ids@.len(),
                flags@.len() == n,
                k <= n,
                claims@.len() == k,
                forall|x: int| 0 <= x < n ==> (#[trigger] flags@[x] <==> chain.contains(x as usize)),
                e == chain.to_set(),
                forall|t: int| 0 <= t < k ==> #[trigger] claims@[t] == claims_of(n as nat, e)[t],
            decreases n - k,
        {
            if flags[k] {
                claims.push(Some(k));
            } else {
                claims.push(None);
            }
            k = k + 1;
        }
        assert(claims@ =~= claims_of(n as nat, e));
        proof {
            assert forall|t: int| 0 <= t < n implies !#[trigger] explicit_index_problem(claims@, t) by {
                if claims@[t] is Some {
                    assert forall|j: int| 0 <= j < t implies #[trigger] claims@[j] != Some(t as usize) by {}
                }
            }
            lemma_first_problem_none(claims@, n as int);
        }
        let perm = match pack_slots(&id_col, &occ, &names, &claims) {
            Ok(perm) => perm,
            Err(_) => {
                assert(false);
                Vec::new()
            },
        };
        let ghost pi = perm@.map_values(|x: usize| x as int);
        assert(is_pack_order(keys, claims@, pi));
        let mut p: usize = 0;
        while p < n && perm[p] == p
            invariant
                n == ids@.len(),
                perm@.len() == n,
                pi == perm@.map_values(|x: usize| x as int),
                p <= n,
                first_displaced(pi, 0) == first_displaced(pi, p as int),
                forall|t: int| 0 <= t < p ==> #[trigger] pi[t] == t,
            decreases n - p,
        {
            p = p + 1;
        }
        if p == n {
            assert(pi =~= identity_order(n as nat));
            let mut set: BTreeSet<usize> = BTreeSet::new();
            let mut x: usize = 0;
            while x < n
                invariant
                    n == ids@.len(),
                    flags@.len() == n,
                    x <= n,
                    forall|y: int| 0 <= y < n ==> (#[trigger] flags@[y] <==> chain.contains(y as usize)),
                    forall|j: int| 0 <= j < chain.len() ==> #[trigger] chain[j] < n,
                    set@ == Set::new(|y: usize| y < x && chain.contains(y)),
                decreases n - x,
            {
                proof {
                    lemma_usize_keys_ordered();
                }
                if flags[x] {
                    set.insert(x);
                }
                assert(set@ =~= Set::new(|y: usize| y < x + 1 && chain.contains(y)));
                x = x + 1;
            }
            assert(set@ =~= chain.to_set());
            assert(set@ == e);
            return set;
        }
        let m = perm[p];
        proof {
            assert(pi[p as int] == m as int);
            assert(first_displaced(pi, p as int) == Some(p as int));
            if flags@[m as int] {
                assert(claims@[m as int] == Some(m));
                assert(claims@[pi[p as int]] == Some(m));
            }
            lemma_count_true_set(flags@, m as int);
            assert(displaced_row(ids@, e, m));
            let new_chain = chain.push(m);
            assert forall|j: int| 0 <= j < chain.len() implies #[trigger] new_chain.take(j) == chain.take(j) by {
                assert(new_chain.take(j) =~= chain.take(j));
            }
            assert(new_chain.take(chain.len() as int) =~= chain);
            chain = new_chain;
        }
        flags.set(m, true);
        proof {
            assert forall|x: int| 0 <= x < n implies (#[trigger] flags@[x] <==> chain.contains(x as usize)) by {
                if x == m as int {
                    assert(chain[chain.len() - 1] == m);
                } else {
                    assert(chain.drop_last().push(m) =~= chain);
                }
            }
        }
        count = count + 1;
    }
}


/// The file-name token of a compression override.
pub open spec fn compression_token(c: BinaryCompression) -> Seq<u8> {
    match c {
        BinaryCompression::Raw => raw_word(),
        BinaryCompression::Zlib => zlib_word(),
    }
}

/// The `__N` part of a payload file name.
pub open spec fn dup_part(duplicate_ordinal: Option<usize>) -> Seq<u8> {
    match duplicate_ordinal {
        Some(d) => seq![95u8, 95u8] + nat_digits(d as nat),
        None => Seq::empty(),
    }
}

/// The `__indexN` part of a payload file name.
pub open spec fn index_part(explicit_index: Option<usize>) -> Seq<u8> {
    match explicit_index {
        Some(x) => seq![95u8, 95u8] + index_word() + nat_digits(x as nat),
        None => Seq::empty(),
    }
}

/// The `__raw` or `__zlib` part of a payload file name.
pub open spec fn compression_part(compression: Option<BinaryCompression>) -> Seq<u8> {
    match compression {
        Some(c) => seq![95u8, 95u8] + compression_token(c),
        None => Seq::empty(),
    }
}

/// The bytes of an unpacked payload file name: the id, then `__N` for a duplicate
/// ordinal, `__indexN` for an explicit index, `__raw` or `__zlib`, and `.bin`.
pub open spec fn payload_name_bytes(
    file_id: i32,
    duplicate_ordinal: Option<usize>,
    explicit_index: Option<usize>,
    compression: Option<BinaryCompression>,
) -> Seq<u8> {
    int_text(file_id as int) + dup_part(duplicate_ordinal) + index_part(explicit_index)
        + compression_part(compression) + seq![46u8, 98u8, 105u8, 110u8]
}

fn push_dup_part(out: &mut Vec<u8>, duplicate_ordinal: Option<usize>)
    ensures
        final(out)@ == old(out)@ + dup_part(duplicate_ordinal),
        all_ascii(dup_part(duplicate_ordinal)),
{
    match duplicate_ordinal {
        Some(d) => {
            out.push(95u8);
            out.push(95u8);
            push_decimal_u64(out, d as u64);
            proof {
                lemma_nat_digits_ascii(d as nat);
                lemma_concat_ascii(seq![95u8, 95u8], nat_digits(d as nat));
            }
            assert(out@ =~= old(out)@ + dup_part(duplicate_ordinal));
        },
        None => {
            assert(out@ =~= old(out)@ + dup_part(duplicate_ordinal));
        },
    }
}

fn push_index_part(out: &mut Vec<u8>, explicit_index: Option<usize>)
    ensures
        final(out)@ == old(out)@ + index_part(explicit_index),
        all_ascii(index_part(explicit_index)),
{
    match explicit_index {
        Some(x) => {
            out.push(95u8);
            out.push(95u8);
            out.push(105u8);
            out.push(110u8);
            out.push(100u8);
            out.push(101u8);
            out.push(120u8);
            push_decimal_u64(out, x as u64);
            proof {
                lemma_nat_digits_ascii(x as nat);
                lemma_concat_ascii(seq![95u8, 95u8] + index_word(), nat_digits(x as nat));
            }
            assert(out@ =~= old(out)@ + index_part(explicit_index));
        },
        None => {
            assert(out@ =~= old(out)@ + index_part(explicit_index));
        },
    }
}

fn push_compression_part(out: &mut Vec<u8>, compression: Option<BinaryCompression>)
    ensures
        final(out)@ == old(out)@ + compression_part(compression),
        all_ascii(compression_part(compression)),
{
    match compression {
        Some(BinaryCompression::Raw) => {
            out.push(95u8);
            out.push(95u8);
            out.push(114u8);
            out.push(97u8);
            out.push(119u8);
        },
        Some(BinaryCompression::Zlib) => {
            out.push(95u8);
            out.push(95u8);
            out.push(122u8);
            out.push(108u8);
            out.push(105u8);
            out.push(98u8);
        },
        None => {},
    }
    assert(out@ =~= old(out)@ + compression_part(compression));
}

/// The text of an unpacked payload file name.
pub open spec fn payload_name(
    file_id: i32,
    duplicate_ordinal: Option<usize>,
    explicit_index: Option<usize>,
    compression: Option<BinaryCompression>,
) -> Seq<char> {
    ascii_chars(payload_name_bytes(file_id, duplicate_ordinal, explicit_index, compression))
}

/// Whether a name is among the used names.
pub open spec fn name_used(used: Seq<String>, name: Seq<char>) -> bool {
    exists|k: int| 0 <= k < used.len() && (#[trigger] used[k])@ == name
}

/// The name that `binary_payload_output_name` tries first: the duplicate ordinal is
/// written only for a later duplicate without an explicit index.
pub open spec fn primary_payload_name(
    file_id: i32,
    duplicate_ordinal: usize,
    explicit_index: Option<usize>,
    compression: Option<BinaryCompression>,
) -> Seq<char> {
    payload_name(
        file_id,
        if explicit_index is None && duplicate_ordinal > 1 {
            Some(duplicate_ordinal)
        } else {
            None
        },
        explicit_index,
        compression,
    )
}

/// Formats one payload file name from its metadata.
fn payload_name_string(
    file_id: i32,
    duplicate_ordinal: Option<usize>,
    explicit_index: Option<usize>,
    compression: Option<BinaryCompression>,
) -> (r: String)
    ensures
        r@ == payload_name(file_id, duplicate_ordinal, explicit_index, compression),
{
    let mut out: Vec<u8> = Vec::new();
    push_decimal_i64(&mut out, file_id as i64);
    let ghost a = out@;
    push_dup_part(&mut out, duplicate_ordinal);
    let ghost b = out@;
    push_index_part(&mut out, explicit_index);
    let ghost c = out@;
    push_compression_part(&mut out, compression);
    let ghost d = out@;
    out.push(46u8);
    out.push(98u8);
    out.push(105u8);
    out.push(110u8);
    proof {
        assert(a =~= int_text(file_id as int));
        assert(out@ =~= payload_name_bytes(file_id, duplicate_ordinal, explicit_index, compression));
        lemma_int_text_ascii(file_id as int);
        lemma_concat_ascii(a, dup_part(duplicate_ordinal));
        lemma_concat_ascii(b, index_part(explicit_index));
        lemma_concat_ascii(c, compression_part(compression));
        lemma_concat_ascii(d, seq![46u8, 98u8, 105u8, 110u8]);
    }
    lossy_string(out.as_slice())
}

/// Whether `name` is among `used`.
fn contains_name(used: &Vec<String>, name: &String) -> (r: bool)
    ensures
        r == name_used(used@, name@),
{
    let mut k: usize = 0;
    while k < used.len()
        invariant
            k <= used@.len(),
            forall|t: int| 0 <= t < k ==> (#[trigger] used@[t])@ != name@,
        decreases used@.len() - k,
    {
        if used[k] == *name {
            return true;
        }
        k = k + 1;
    }
    false
}

/// Makes a unique unpacked payload file name for one archive entry and records it in
/// `used_names`: the primary name, or for an entry with an explicit index whose primary
/// name is taken, the name that also carries the duplicate ordinal. Refuses when both
/// are taken.
pub fn binary_payload_output_name(
    file_id: i32,
    duplicate_ordinal: usize,
    explicit_index: Option<usize>,
    compression: Option<BinaryCompression>,
    used_names: &mut Vec<String>,
) -> (r: Result<String, BinaryPayloadError>)
    ensures
        !name_used(old(used_names)@, primary_payload_name(file_id, duplicate_ordinal, explicit_index, compression)) ==> {
            r matches Ok(name) && name@ == primary_payload_name(file_id, duplicate_ordinal, explicit_index, compression)
                && final(used_names)@ == old(used_names)@.push(name)
        },
        name_used(old(used_names)@, primary_payload_name(file_id, duplicate_ordinal, explicit_index, compression)) ==> (
        if explicit_index is Some && !name_used(old(used_names)@, payload_name(file_id, Some(duplicate_ordinal), explicit_index, compression)) {
            r matches Ok(name) && name@ == payload_name(file_id, Some(duplicate_ordinal), explicit_index, compression)
                && final(used_names)@ == old(used_names)@.push(name)
        } else {
            &&& r == Err::<String, BinaryPayloadError>(BinaryPayloadError::DuplicateOutputName { file_id })
            &&& final(used_names)@ == old(used_names)@
        }),
{
    let dup = if explicit_index.is_none() && duplicate_ordinal > 1 {
        Some(duplicate_ordinal)
    } else {
        None
    };
    let primary = payload_name_string(file_id, dup, explicit_index, compression);
    if !contains_name(used_names, &primary) {
        used_names.push(primary.clone());
        return Ok(primary);
    }
    match explicit_index {
        Some(index) => {
            let fallback = payload_name_string(file_id, Some(duplicate_ordinal), Some(index), compression);
            if !contains_name(used_names, &fallback) {
                used_names.push(fallback.clone());
                return Ok(fallback);
            }
        },
        None => {},
    }
    Err(BinaryPayloadError::DuplicateOutputName { file_id })
}

/// The message of a payload error, as ASCII bytes after the source name.
pub open spec fn payload_error_tail(e: BinaryPayloadError) -> Seq<u8> {
    match e {
        BinaryPayloadError::ExplicitIndexOutOfRange { source_name, index, entry_count } => explicit_claims_text()
            + nat_digits(index as nat) + chunk_has_text() + nat_digits(entry_count as nat)
            + entries_text(),
        BinaryPayloadError::DuplicateExplicitIndex { index } => multiple_claim_text() + nat_digits(
            index as nat,
        ),
        BinaryPayloadError::DuplicateOutputName { file_id } => duplicate_name_text() + int_text(
            file_id as int,
        ),
    }
}

/// ` claims explicit index `
pub open spec fn explicit_claims_text() -> Seq<u8> {
    seq![32u8, 99, 108, 97, 105, 109, 115, 32, 101, 120, 112, 108, 105, 99, 105, 116, 32, 105, 110, 100, 101, 120, 32]
}

/// `, but this output chunk has `
pub open spec fn chunk_has_text() -> Seq<u8> {
    seq![44u8, 32, 98, 117, 116, 32, 116, 104, 105, 115, 32, 111, 117, 116, 112, 117, 116, 32, 99, 104, 117, 110, 107, 32, 104, 97, 115, 32]
}

/// ` entries`
pub open spec fn entries_text() -> Seq<u8> {
    seq![32u8, 101, 110, 116, 114, 105, 101, 115]
}

/// `multiple payload files claim explicit index `
pub open spec fn multiple_claim_text() -> Seq<u8> {
    seq![109u8, 117, 108, 116, 105, 112, 108, 101, 32, 112, 97, 121, 108, 111, 97, 100, 32, 102, 105, 108, 101, 115, 32, 99, 108, 97, 105, 109, 32, 101, 120, 112, 108, 105, 99, 105, 116, 32, 105, 110, 100, 101, 120, 32]
}

/// `generated duplicate output filename for file id `
pub open spec fn duplicate_name_text() -> Seq<u8> {
    seq![103u8, 101, 110, 101, 114, 97, 116, 101, 100, 32, 100, 117, 112, 108, 105, 99, 97, 116, 101, 32, 111, 117, 116, 112, 117, 116, 32, 102, 105, 108, 101, 110, 97, 109, 101, 32, 102, 111, 114, 32, 102, 105, 108, 101, 32, 105, 100, 32]
}

/// Appends ASCII bytes given as a literal list.
fn push_all(out: &mut Vec<u8>, bytes: &[u8])
    ensures
        final(out)@ == old(out)@ + bytes@,
{
    let mut i: usize = 0;
    while i < bytes.len()
        invariant
            i <= bytes@.len(),
            out@ == old(out)@ + bytes@.subrange(0, i as int),
        decreases bytes@.len() - i,
    {
        out.push(bytes[i]);
        assert(out@ =~= old(out)@ + bytes@.subrange(0, i + 1));
        i = i + 1;
    }
    assert(bytes@.subrange(0, i as int) =~= bytes@);
}

proof fn lemma_literal_ascii(s: Seq<u8>)
    requires
        forall|i: int| 0 <= i < s.len() ==> s[i] < 128,
    ensures
        all_ascii(s),
{
}

impl BinaryPayloadError {
    /// The error's message: the source name first for an out-of-range index.
    pub fn message(&self) -> (r: String)
        ensures
            r@ == (match self {
                BinaryPayloadError::ExplicitIndexOutOfRange { source_name, .. } => source_name@,
                _ => Seq::<char>::empty(),
            }) + ascii_chars(payload_error_tail(*self)),
    {
        let mut tail: Vec<u8> = Vec::new();
        let mut head = String::new();
        match self {
            BinaryPayloadError::ExplicitIndexOutOfRange { source_name, index, entry_count } => {
                head = source_name.clone();
                push_all(&mut tail, &[32u8, 99, 108, 97, 105, 109, 115, 32, 101, 120, 112, 108, 105, 99, 105, 116, 32, 105, 110, 100, 101, 120, 32]);
                push_decimal_u64(&mut tail, *index as u64);
                push_all(&mut tail, &[44u8, 32, 98, 117, 116, 32, 116, 104, 105, 115, 32, 111, 117, 116, 112, 117, 116, 32, 99, 104, 117, 110, 107, 32, 104, 97, 115, 32]);
                push_decimal_u64(&mut tail, *entry_count as u64);
                push_all(&mut tail, &[32u8, 101, 110, 116, 114, 105, 101, 115]);
                proof {
                    assert(tail@ =~= payload_error_tail(*self));
                    lemma_nat_digits_ascii(*index as nat);
                    lemma_nat_digits_ascii(*entry_count as nat);
                    lemma_literal_ascii(explicit_claims_text());
                    lemma_literal_ascii(chunk_has_text());
                    lemma_literal_ascii(entries_text());
                    lemma_concat_ascii(explicit_claims_text(), nat_digits(*index as nat));
                    lemma_concat_ascii(explicit_claims_text() + nat_digits(*index as nat), chunk_has_text());
                    lemma_concat_ascii(explicit_claims_text() + nat_digits(*index as nat) + chunk_has_text(), nat_digits(*entry_count as nat));
                    lemma_concat_ascii(explicit_claims_text() + nat_digits(*index as nat) + chunk_has_text() + nat_digits(*entry_count as nat), entries_text());
                }
            },
            BinaryPayloadError::DuplicateExplicitIndex { index } => {
                push_all(&mut tail, &[109u8, 117, 108, 116, 105, 112, 108, 101, 32, 112, 97, 121, 108, 111, 97, 100, 32, 102, 105, 108, 101, 115, 32, 99, 108, 97, 105, 109, 32, 101, 120, 112, 108, 105, 99, 105, 116, 32, 105, 110, 100, 101, 120, 32]);
                push_decimal_u64(&mut tail, *index as u64);
                proof {
                    assert(tail@ =~= payload_error_tail(*self));
                    lemma_nat_digits_ascii(*index as nat);
                    lemma_literal_ascii(multiple_claim_text());
                    lemma_concat_ascii(multiple_claim_text(), nat_digits(*index as nat));
                }
            },
            BinaryPayloadError::DuplicateOutputName { file_id } => {
                push_all(&mut tail, &[103u8, 101, 110, 101, 114, 97, 116, 101, 100, 32, 100, 117, 112, 108, 105, 99, 97, 116, 101, 32, 111, 117, 116, 112, 117, 116, 32, 102, 105, 108, 101, 110, 97, 109, 101, 32, 102, 111, 114, 32, 102, 105, 108, 101, 32, 105, 100, 32]);
                push_decimal_i64(&mut tail, *file_id as i64);
                proof {
                    assert(tail@ =~= payload_error_tail(*self));
                    lemma_int_text_ascii(*file_id as int);
                    lemma_literal_ascii(duplicate_name_text());
                    lemma_concat_ascii(duplicate_name_text(), int_text(*file_id as int));
                }
            },
        }
        let text = lossy_string(tail.as_slice());
        head.append(text.as_str());
        head
    }
}

/// Names the payload files of an archive family's entries as they are unpacked, entry
/// by entry across the family's chunks: it remembers the ids seen so far, for duplicate
/// ordinals, and the names given so far, for uniqueness.
pub struct BinaryUnpackNamer {
    ids: Vec<i32>,
    used_names: Vec<String>,
}

impl BinaryUnpackNamer {
    /// The ids named so far, in order.
    pub closed spec fn seen_ids(&self) -> Seq<i32> {
        self.ids@
    }

    /// The names given so far.
    pub closed spec fn given_names(&self) -> Seq<String> {
        self.used_names@
    }

    /// A namer that has named nothing.
    pub fn new() -> (r: Self)
        ensures
            r.seen_ids() == Seq::<i32>::empty(),
            r.given_names() == Seq::<String>::empty(),
    {
        BinaryUnpackNamer { ids: Vec::new(), used_names: Vec::new() }
    }

    /// Names entry `entry_index` of a chunk, with id `file_id` and stored compression
    /// `compression`: its duplicate ordinal counts this id's entries so far, its explicit
    /// index is kept when the chunk's explicit indexes hold it, and its compression token
    /// is kept when it differs from the chunk's default.
    pub fn next_name(
        &mut self,
        file_id: i32,
        entry_index: usize,
        explicit_indexes: &BTreeSet<usize>,
        compression: BinaryCompression,
        default_compression: BinaryCompression,
    ) -> (r: Result<String, BinaryPayloadError>)
        requires
            old(self).seen_ids().len() < usize::MAX,
        ensures
            final(self).seen_ids() == old(self).seen_ids().push(file_id),
            ({
                let ordinal = (count_of(old(self).seen_ids(), file_id) + 1) as usize;
                let explicit = if explicit_indexes@.contains(entry_index) {
                    Some(entry_index)
                } else {
                    None
                };
                let comp = if compression != default_compression {
                    Some(compression)
                } else {
                    None
                };
                let used = old(self).given_names();
                let primary = primary_payload_name(file_id, ordinal, explicit, comp);
                if !name_used(used, primary) {
                    r matches Ok(name) && name@ == primary && final(self).given_names() == used.push(name)
                } else if explicit is Some && !name_used(used, payload_name(file_id, Some(ordinal), explicit, comp)) {
                    r matches Ok(name) && name@ == payload_name(file_id, Some(ordinal), explicit, comp)
                        && final(self).given_names() == used.push(name)
                } else {
                    &&& r == Err::<String, BinaryPayloadError>(BinaryPayloadError::DuplicateOutputName { file_id })
                    &&& final(self).given_names() == used
                }
            }),
    {
        let mut count: usize = 0;
        let mut k: usize = 0;
        let n = self.ids.len();
        proof {
            crate::util::lemma_count_of_len(self.ids@, file_id);
        }
        while k < n
            invariant
                k <= n,
                n == self.ids@.len(),
                count == count_of(self.ids@.take(k as int), file_id),
                count <= k,
            decreases n - k,
        {
            assert(self.ids@.take(k + 1).drop_last() =~= self.ids@.take(k as int));
            if self.ids[k] == file_id {
                count = count + 1;
            }
            k = k + 1;
        }
        assert(self.ids@.take(n as int) =~= self.ids@);
        let ordinal = count + 1;
        proof {
            lemma_usize_keys_ordered();
            broadcast use vstd::std_specs::btree::axiom_set_contains_deref_key;
        }
        let explicit = if explicit_indexes.contains(&entry_index) {
            Some(entry_index)
        } else {
            None
        };
        let comp = if compression != default_compression {
            Some(compression)
        } else {
            None
        };
        self.ids.push(file_id);
        binary_payload_output_name(file_id, ordinal, explicit, comp, &mut self.used_names)
    }
}

} // verus!
