//! Duplicate-id reports and the checksum printed by archive inspection.
use vstd::prelude::*;

use crate::numtext::{int_text, nat_digits, push_decimal_i64, push_decimal_u64};
use crate::textenc::{
    all_ascii, ascii_chars, lemma_concat_ascii, lemma_nat_digits_ascii, lossy_string,
};

verus! {

/// How many times `v` occurs in `s`.
pub open spec fn count_of(s: Seq<i32>, v: i32) -> nat
    decreases s.len(),
{
    if s.len() == 0 {
        0
    } else {
        count_of(s.drop_last(), v) + if s.last() == v {
            1nat
        } else {
            0nat
        }
    }
}

/// A value occurs no more often than the sequence is long.
pub proof fn lemma_count_of_len(s: Seq<i32>, v: i32)
    ensures
        count_of(s, v) <= s.len(),
    decreases s.len(),
{
    if s.len() > 0 {
        lemma_count_of_len(s.drop_last(), v);
    }
}

/// Whether the ids of a list of pairs strictly increase.
pub open spec fn strictly_increasing_ids(r: Seq<(i32, usize)>) -> bool {
    forall|i: int, j: int| 0 <= i < j < r.len() ==> (#[trigger] r[i]).0 < (#[trigger] r[j]).0
}

/// The pairs of `s` whose count exceeds one, in order.
pub open spec fn repeated(s: Seq<(i32, usize)>) -> Seq<(i32, usize)>
    decreases s.len(),
{
    if s.len() == 0 {
        Seq::empty()
    } else if s.last().1 > 1 {
        repeated(s.drop_last()).push(s.last())
    } else {
        repeated(s.drop_last())
    }
}

/// What `repeated` keeps: pairs of `s`, in increasing order, exactly those
/// with a count above one.
proof fn lemma_repeated(s: Seq<(i32, usize)>)
    requires
        strictly_increasing_ids(s),
    ensures
        strictly_increasing_ids(repeated(s)),
        forall|j: int|
            0 <= j < repeated(s).len() ==> (#[trigger] repeated(s)[j]).1 > 1 && exists|m: int|
                0 <= m < s.len() && s[m] == repeated(s)[j],
        forall|m: int|
            0 <= m < s.len() && (#[trigger] s[m]).1 > 1 ==> exists|j: int|
                0 <= j < repeated(s).len() && repeated(s)[j] == s[m],
    decreases s.len(),
{
    if s.len() > 0 {
        let p = s.drop_last();
        assert(strictly_increasing_ids(p)) by {
            assert forall|i: int, j: int| 0 <= i < j < p.len() implies (#[trigger] p[i]).0
                < (#[trigger] p[j]).0 by {
                assert(p[i] == s[i] && p[j] == s[j]);
            }
        }
        lemma_repeated(p);
        let rp = repeated(p);
        let r = repeated(s);
        assert forall|j: int| 0 <= j < rp.len() implies (#[trigger] rp[j]).0 < s.last().0 by {
            let m = choose|m: int| 0 <= m < p.len() && p[m] == rp[j];
            assert(s[m] == p[m]);
            assert(s[m].0 < s[s.len() - 1].0);
        }
        if s.last().1 > 1 {
            assert(r == rp.push(s.last()));
            assert forall|i: int, j: int| 0 <= i < j < r.len() implies (#[trigger] r[i]).0
                < (#[trigger] r[j]).0 by {
                if j == r.len() - 1 {
                    assert(r[i] == rp[i]);
                } else {
                    assert(r[i] == rp[i] && r[j] == rp[j]);
                }
            }
            assert forall|j: int| 0 <= j < r.len() implies (#[trigger] r[j]).1 > 1 && exists|m: int|
                0 <= m < s.len() && s[m] == r[j] by {
                if j == r.len() - 1 {
                    assert(s[s.len() - 1] == r[j]);
                } else {
                    assert(r[j] == rp[j]);
                    let m = choose|m: int| 0 <= m < p.len() && p[m] == rp[j];
                    assert(s[m] == r[j]);
                }
            }
            assert forall|m: int| 0 <= m < s.len() && (#[trigger] s[m]).1 > 1 implies exists|j: int|
                0 <= j < r.len() && r[j] == s[m] by {
                if m == s.len() - 1 {
                    assert(r[r.len() - 1] == s[m]);
                } else {
                    assert(p[m] == s[m]);
                    let j = choose|j: int| 0 <= j < rp.len() && rp[j] == p[m];
                    assert(r[j] == s[m]);
                }
            }
        } else {
            assert(r == rp);
            assert forall|j: int| 0 <= j < r.len() implies (#[trigger] r[j]).1 > 1 && exists|m: int|
                0 <= m < s.len() && s[m] == r[j] by {
                let m = choose|m: int| 0 <= m < p.len() && p[m] == rp[j];
                assert(s[m] == r[j]);
            }
            assert forall|m: int| 0 <= m < s.len() && (#[trigger] s[m]).1 > 1 implies exists|j: int|
                0 <= j < r.len() && r[j] == s[m] by {
                assert(m != s.len() - 1);
                assert(p[m] == s[m]);
            }
        }
    }
}

/// Whether `counts` holds each distinct value of `prefix` once, with its
/// count, in increasing order.
pub open spec fn tallies(counts: Seq<(i32, usize)>, prefix: Seq<i32>) -> bool {
    &&& strictly_increasing_ids(counts)
    &&& forall|i: int|
        0 <= i < counts.len() ==> (#[trigger] counts[i]).1 == count_of(prefix, counts[i].0)
            && counts[i].1 >= 1
    &&& forall|v: i32|
        count_of(prefix, v) > 0 ==> exists|i: int| 0 <= i < counts.len() && (#[trigger] counts[i]).0 == v
}

/// Counting one more occurrence of a tallied value.
proof fn lemma_tally_bump(before: Seq<(i32, usize)>, prefix: Seq<i32>, id: i32, pos: int)
    requires
        tallies(before, prefix),
        0 <= pos < before.len(),
        before[pos].0 == id,
        before[pos].1 + 1 <= usize::MAX,
    ensures
        tallies(before.update(pos, (id, (before[pos].1 + 1) as usize)), prefix.push(id)),
{
    let after = before.update(pos, (id, (before[pos].1 + 1) as usize));
    let next = prefix.push(id);
    assert(next.drop_last() =~= prefix);
    assert forall|i: int, j: int| 0 <= i < j < after.len() implies (#[trigger] after[i]).0
        < (#[trigger] after[j]).0 by {
        assert(before[i].0 < before[j].0);
    }
    assert forall|i: int| 0 <= i < after.len() implies (#[trigger] after[i]).1 == count_of(
        next,
        after[i].0,
    ) && after[i].1 >= 1 by {
        if i != pos {
            if before[i].0 == id {
                if i < pos {
                    assert(before[i].0 < before[pos].0);
                } else {
                    assert(before[pos].0 < before[i].0);
                }
            }
        }
    }
    assert forall|w: i32| count_of(next, w) > 0 implies exists|i: int|
        0 <= i < after.len() && (#[trigger] after[i]).0 == w by {
        if w != id {
            assert(count_of(next, w) == count_of(prefix, w));
            let i = choose|i: int| 0 <= i < before.len() && (#[trigger] before[i]).0 == w;
            assert(after[i].0 == w);
        } else {
            assert(after[pos].0 == w);
        }
    }
}

/// Tallying a value seen for the first time.
proof fn lemma_tally_insert(before: Seq<(i32, usize)>, prefix: Seq<i32>, id: i32, pos: int)
    requires
        tallies(before, prefix),
        0 <= pos <= before.len(),
        forall|i: int| 0 <= i < pos ==> (#[trigger] before[i]).0 < id,
        pos < before.len() ==> before[pos].0 > id,
    ensures
        tallies(before.insert(pos, (id, 1usize)), prefix.push(id)),
{
    let after = before.insert(pos, (id, 1usize));
    let next = prefix.push(id);
    assert(next.drop_last() =~= prefix);
    assert forall|i: int| 0 <= i < before.len() implies (#[trigger] before[i]).0 != id by {
        if i > pos {
            assert(before[pos].0 < before[i].0);
        }
    }
    assert(count_of(prefix, id) == 0) by {
        if count_of(prefix, id) > 0 {
            let i = choose|i: int| 0 <= i < before.len() && (#[trigger] before[i]).0 == id;
            assert(before[i].0 != id);
        }
    }
    assert forall|i: int| 0 <= i < after.len() implies #[trigger] after[i] == (if i < pos {
        before[i]
    } else if i == pos {
        (id, 1usize)
    } else {
        before[i - 1]
    }) by {}
    assert forall|i: int, j: int| 0 <= i < j < after.len() implies (#[trigger] after[i]).0
        < (#[trigger] after[j]).0 by {
        if j < pos {
            assert(before[i].0 < before[j].0);
        } else if j == pos {
        } else if i < pos {
            if j - 1 > pos {
                assert(before[pos].0 < before[j - 1].0);
            }
        } else if i == pos {
            if j - 1 > pos {
                assert(before[pos].0 < before[j - 1].0);
            }
        } else {
            assert(before[i - 1].0 < before[j - 1].0);
        }
    }
    assert forall|i: int| 0 <= i < after.len() implies (#[trigger] after[i]).1 == count_of(
        next,
        after[i].0,
    ) && after[i].1 >= 1 by {}
    assert forall|w: i32| count_of(next, w) > 0 implies exists|i: int|
        0 <= i < after.len() && (#[trigger] after[i]).0 == w by {
        if w != id {
            assert(count_of(next, w) == count_of(prefix, w));
            let i = choose|i: int| 0 <= i < before.len() && (#[trigger] before[i]).0 == w;
            if i < pos {
                assert(after[i].0 == w);
            } else {
                assert(after[i + 1].0 == w);
            }
        } else {
            assert(after[pos].0 == w);
        }
    }
}

/// The repeated tallies of a whole sequence are its repeated values and counts.
proof fn lemma_repeated_tallies(counts: Seq<(i32, usize)>, ids: Seq<i32>)
    requires
        tallies(counts, ids),
    ensures
        strictly_increasing_ids(repeated(counts)),
        forall|i: int|
            0 <= i < repeated(counts).len() ==> (#[trigger] repeated(counts)[i]).1 == count_of(
                ids,
                repeated(counts)[i].0,
            ) && repeated(counts)[i].1 > 1,
        forall|v: i32|
            count_of(ids, v) > 1 ==> exists|i: int|
                0 <= i < repeated(counts).len() && (#[trigger] repeated(counts)[i]).0 == v,
{
    let out = repeated(counts);
    lemma_repeated(counts);
    assert forall|v: i32| count_of(ids, v) > 1 implies exists|j: int|
        0 <= j < out.len() && (#[trigger] out[j]).0 == v by {
        let m = choose|m: int| 0 <= m < counts.len() && (#[trigger] counts[m]).0 == v;
        assert(counts[m].1 > 1);
        let j = choose|j: int| 0 <= j < out.len() && out[j] == counts[m];
        assert(out[j].0 == v);
    }
    assert forall|j: int| 0 <= j < out.len() implies (#[trigger] out[j]).1 == count_of(
        ids,
        out[j].0,
    ) && out[j].1 > 1 by {
        let m = choose|m: int| 0 <= m < counts.len() && counts[m] == out[j];
        assert(counts[m].1 == count_of(ids, counts[m].0));
    }
}

/// The ids that occur more than once, each with its count, sorted by id.
pub fn duplicate_id_counts(ids: &[i32]) -> (r: Vec<(i32, usize)>)
    ensures
        strictly_increasing_ids(r@),
        forall|i: int|
            0 <= i < r@.len() ==> (#[trigger] r@[i]).1 == count_of(ids@, r@[i].0) && r@[i].1 > 1,
        forall|v: i32|
            count_of(ids@, v) > 1 ==> exists|i: int| 0 <= i < r@.len() && (#[trigger] r@[i]).0 == v,
{
    let mut counts: Vec<(i32, usize)> = Vec::new();
    let mut k: usize = 0;
    assert(ids@.take(0) =~= Seq::<i32>::empty());
    while k < ids.len()
        invariant
            k <= ids@.len(),
            tallies(counts@, ids@.take(k as int)),
        decreases ids@.len() - k,
    {
        let id = ids[k];
        let ghost before = counts@;
        let ghost prefix = ids@.take(k as int);
        assert(ids@.take(k + 1) =~= prefix.push(id));
        let mut pos: usize = 0;
        while pos < counts.len() && counts[pos].0 < id
            invariant
                pos <= counts@.len(),
                counts@ == before,
                forall|i: int| 0 <= i < pos ==> (#[trigger] counts@[i]).0 < id,
            decreases counts@.len() - pos,
        {
            pos = pos + 1;
        }
        if pos < counts.len() && counts[pos].0 == id {
            let c = counts[pos].1;
            proof {
                lemma_count_of_len(prefix, id);
            }
            counts.set(pos, (id, c + 1));
            proof {
                lemma_tally_bump(before, prefix, id, pos as int);
            }
        } else {
            counts.insert(pos, (id, 1));
            proof {
                lemma_tally_insert(before, prefix, id, pos as int);
            }
        }
        k = k + 1;
    }
    assert(ids@.take(ids@.len() as int) =~= ids@);
    let mut out: Vec<(i32, usize)> = Vec::new();
    let mut i: usize = 0;
    while i < counts.len()
        invariant
            i <= counts@.len(),
            out@ == repeated(counts@.take(i as int)),
        decreases counts@.len() - i,
    {
        let entry = counts[i];
        assert(counts@.take(i + 1).drop_last() =~= counts@.take(i as int));
        if entry.1 > 1 {
            out.push(entry);
        }
        i = i + 1;
    }
    assert(counts@.take(counts@.len() as int) =~= counts@);
    proof {
        lemma_repeated_tallies(counts@, ids@);
    }
    out
}

/// The text of one duplicate: `{id} x{count}`.
pub open spec fn pair_text(p: (i32, usize)) -> Seq<u8> {
    int_text(p.0 as int) + seq![32u8, 120u8] + nat_digits(p.1 as nat)
}

/// The texts of the first `k` duplicates, joined by `, `.
pub open spec fn joined_pairs(ps: Seq<(i32, usize)>, k: int) -> Seq<u8>
    decreases k,
{
    if k <= 0 {
        Seq::empty()
    } else if k == 1 {
        pair_text(ps[0])
    } else {
        joined_pairs(ps, k - 1) + seq![44u8, 32u8] + pair_text(ps[k - 1])
    }
}

/// The text ` more`.
pub open spec fn more_text() -> Seq<u8> {
    seq![32u8, 109, 111, 114, 101]
}

/// A summary of at most eight duplicates, then how many more there are.
pub open spec fn summary_text(ps: Seq<(i32, usize)>) -> Seq<u8> {
    if ps.len() > 8 {
        joined_pairs(ps, 8) + seq![44u8, 32u8] + nat_digits((ps.len() - 8) as nat) + more_text()
    } else {
        joined_pairs(ps, ps.len() as int)
    }
}

proof fn lemma_pair_text_ascii(p: (i32, usize))
    ensures
        all_ascii(pair_text(p)),
{
    let x = p.0 as int;
    if x < 0 {
        lemma_nat_digits_ascii((-x) as nat);
        lemma_concat_ascii(seq![45u8], nat_digits((-x) as nat));
    } else {
        lemma_nat_digits_ascii(x as nat);
    }
    lemma_nat_digits_ascii(p.1 as nat);
    lemma_concat_ascii(int_text(x), seq![32u8, 120u8]);
    lemma_concat_ascii(int_text(x) + seq![32u8, 120u8], nat_digits(p.1 as nat));
}

proof fn lemma_joined_ascii(ps: Seq<(i32, usize)>, k: int)
    requires
        k <= ps.len(),
    ensures
        all_ascii(joined_pairs(ps, k)),
    decreases k,
{
    if k == 1 {
        lemma_pair_text_ascii(ps[0]);
    } else if k > 1 {
        lemma_joined_ascii(ps, k - 1);
        lemma_pair_text_ascii(ps[k - 1]);
        lemma_concat_ascii(joined_pairs(ps, k - 1), seq![44u8, 32u8]);
        lemma_concat_ascii(joined_pairs(ps, k - 1) + seq![44u8, 32u8], pair_text(ps[k - 1]));
    }
}

fn push_pair_text(out: &mut Vec<u8>, p: (i32, usize))
    ensures
        final(out)@ == old(out)@ + pair_text(p),
{
    let ghost start = out@;
    push_decimal_i64(out, p.0 as i64);
    out.push(32u8);
    out.push(120u8);
    let ghost mid = out@;
    push_decimal_u64(out, p.1 as u64);
    assert(out@ =~= start + pair_text(p));
}

/// A summary of duplicate ids for warnings: the first eight as `{id} x{count}`
/// joined by `, `, then `{n} more` when there are more.
pub fn duplicate_id_summary(duplicates: &[(i32, usize)]) -> (r: String)
    ensures
        r@ == ascii_chars(summary_text(duplicates@)),
{
    let ghost ps = duplicates@;
    let n = duplicates.len();
    let shown = if n > 8 {
        8
    } else {
        n
    };
    let mut out: Vec<u8> = Vec::new();
    let mut k: usize = 0;
    while k < shown
        invariant
            k <= shown,
            shown <= n,
            n == ps.len(),
            ps == duplicates@,
            out@ == joined_pairs(ps, k as int),
        decreases shown - k,
    {
        let ghost before = out@;
        if k > 0 {
            out.push(44u8);
            out.push(32u8);
        }
        push_pair_text(&mut out, duplicates[k]);
        proof {
            if k == 0 {
                assert(out@ =~= joined_pairs(ps, 1));
            } else {
                assert(out@ =~= joined_pairs(ps, k + 1));
            }
        }
        k = k + 1;
    }
    if n > 8 {
        out.push(44u8);
        out.push(32u8);
        push_decimal_u64(&mut out, (n - 8) as u64);
        out.push(32u8);
        out.push(109u8);
        out.push(111u8);
        out.push(114u8);
        out.push(101u8);
    }
    proof {
        lemma_joined_ascii(ps, shown as int);
        if n > 8 {
            lemma_nat_digits_ascii((n - 8) as nat);
            lemma_concat_ascii(joined_pairs(ps, 8), seq![44u8, 32u8]);
            lemma_concat_ascii(joined_pairs(ps, 8) + seq![44u8, 32u8], nat_digits((n - 8) as nat));
            lemma_concat_ascii(
                joined_pairs(ps, 8) + seq![44u8, 32u8] + nat_digits((n - 8) as nat),
                more_text(),
            );
        }
        assert(out@ =~= summary_text(ps));
    }
    lossy_string(out.as_slice())
}

/// One FNV-1a step: mix in a byte, then multiply by the 64-bit FNV prime.
pub open spec fn fnv_step(hash: u64, byte: u8) -> u64 {
    (hash ^ (byte as u64)).wrapping_mul(0x100000001b3)
}

/// The FNV-1a 64-bit hash state after `data`.
pub open spec fn fnv_state(data: Seq<u8>) -> u64
    decreases data.len(),
{
    if data.len() == 0 {
        0xcbf29ce484222325
    } else {
        fnv_step(fnv_state(data.drop_last()), data.last())
    }
}

/// The FNV-1a 64-bit checksum printed by archive inspection.
pub fn fnv1a64(data: &[u8]) -> (r: u64)
    ensures
        r == fnv_state(data@),
{
    let mut hash: u64 = 0xcbf29ce484222325;
    let mut i: usize = 0;
    while i < data.len()
        invariant
            i <= data@.len(),
            hash == fnv_state(data@.take(i as int)),
        decreases data@.len() - i,
    {
        assert(data@.take(i + 1).drop_last() =~= data@.take(i as int));
        hash = (hash ^ (data[i] as u64)).wrapping_mul(0x100000001b3);
        i = i + 1;
    }
    assert(data@.take(data@.len() as int) =~= data@);
    hash
}

} // verus!
