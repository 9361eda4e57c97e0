//! Packing an unpacked text archive directory: each file's escaped name gives back the
//! archived record name, its packed flag follows the name, and records are written in
//! the order of their lowercased names, equal names keeping the directory order.
use vstd::prelude::*;

use crate::chartext::{chars_lt, str_chars, text_lt};
use crate::paths::{unescape_archive_name, unescape_from, ArchiveNameError};
use crate::structured_text::packed_flag_for_text_record;
use crate::text_archive::{ends_with_ignoring_case, TextInputView, TextNosRecordInput};
use crate::textenc::utf8_lossy;

verus! {

/// The text `str::to_lowercase` makes of a text.
pub uninterp spec fn unicode_lowercase(s: Seq<char>) -> Seq<char>;

/// Calls `str::to_lowercase`: its result is named `unicode_lowercase` of the text; nothing
/// more is claimed of the Unicode case mapping.
#[verifier::external_body]
pub(crate) fn lowercase_string(s: &str) -> (r: String)
    ensures
        r@ == unicode_lowercase(s@),
{
    s.to_lowercase()
}

/// Whether `perm` lists `0..keys.len()` once each, in key order, equal keys in index
/// order.
pub open spec fn is_stable_key_order(keys: Seq<Seq<char>>, perm: Seq<int>) -> bool {
    &&& perm.len() == keys.len()
    &&& forall|s: int| 0 <= s < perm.len() ==> 0 <= #[trigger] perm[s] < keys.len()
    &&& forall|s: int, t: int| 0 <= s < t < perm.len() ==> #[trigger] perm[s] != #[trigger] perm[t]
    &&& forall|s: int, t: int|
        0 <= s < t < perm.len() ==> !text_lt(keys[#[trigger] perm[t]], keys[#[trigger] perm[s]])
    &&& forall|s: int, t: int|
        0 <= s < t < perm.len() && keys[perm[s]] == keys[perm[t]] ==> #[trigger] perm[s] < #[trigger] perm[t]
}

/// The positions of `keys` in key order, equal keys keeping their order: a stable
/// insertion sort.
pub fn stable_key_order(keys: &[Vec<char>]) -> (r: Vec<usize>)
    ensures
        is_stable_key_order(Seq::new(keys@.len(), |i: int| keys@[i]@), Seq::new(r@.len(), |s: int| r@[s] as int)),
{
    let ghost ks = Seq::new(keys@.len(), |i: int| keys@[i]@);
    let mut out: Vec<usize> = Vec::new();
    let n = keys.len();
    let mut i: usize = 0;
    while i < n
        invariant
            i <= n,
            n == keys@.len(),
            ks == Seq::new(keys@.len(), |x: int| keys@[x]@),
            out@.len() == i,
            forall|s: int| 0 <= s < out@.len() ==> #[trigger] out@[s] < i,
            forall|s: int, t: int| 0 <= s < t < out@.len() ==> #[trigger] out@[s] != #[trigger] out@[t],
            forall|s: int, t: int|
                0 <= s < t < out@.len() ==> !text_lt(ks[#[trigger] out@[t] as int], ks[#[trigger] out@[s] as int]),
            forall|s: int, t: int|
                0 <= s < t < out@.len() && ks[out@[s] as int] == ks[out@[t] as int] ==> #[trigger] out@[s] < #[trigger] out@[t],
        decreases n - i,
    {
        let mut pos: usize = out.len();
        while pos > 0 && chars_lt(keys[i].as_slice(), keys[out[pos - 1]].as_slice())
            invariant
                pos <= out@.len(),
                i < n,
                n == keys@.len(),
                ks == Seq::new(keys@.len(), |x: int| keys@[x]@),
                forall|s: int| 0 <= s < out@.len() ==> #[trigger] out@[s] < i,
                forall|s: int| pos <= s < out@.len() ==> text_lt(ks[i as int], ks[#[trigger] out@[s] as int]),
            decreases pos,
        {
            pos = pos - 1;
        }
        proof {
            if pos > 0 {
                assert(!text_lt(ks[i as int], ks[out@[pos - 1] as int]));
            }
        }
        let ghost before = out@;
        out.insert(pos, i);
        proof {
            assert forall|s: int, t: int| 0 <= s < t < out@.len() implies !text_lt(
                ks[#[trigger] out@[t] as int],
                ks[#[trigger] out@[s] as int],
            ) by {
                if s < pos && t < pos {
                    assert(out@[s] == before[s] && out@[t] == before[t]);
                } else if s < pos && t == pos {
                    assert(out@[s] == before[s]);
                    let a = ks[before[s] as int];
                    let b = ks[before[pos - 1] as int];
                    let c = ks[i as int];
                    if s < pos - 1 {
                        assert(!text_lt(b, a));
                    }
                    crate::chartext::lemma_text_lt_total(b, c);
                    crate::chartext::lemma_text_lt_total(a, b);
                    if text_lt(c, a) {
                        if s < pos - 1 {
                            if a != b {
                                crate::chartext::lemma_text_lt_transitive(c, a, b);
                            } else {
                            }
                        }
                    }
                } else if s < pos && t > pos {
                    assert(out@[s] == before[s] && out@[t] == before[t - 1]);
                } else if s == pos {
                    assert(out@[t] == before[t - 1]);
                    crate::chartext::lemma_text_lt_total(ks[i as int], ks[before[t - 1] as int]);
                } else {
                    assert(out@[s] == before[s - 1] && out@[t] == before[t - 1]);
                }
            }
            assert forall|s: int, t: int|
                0 <= s < t < out@.len() && ks[out@[s] as int] == ks[out@[t] as int] implies #[trigger] out@[s]
                < #[trigger] out@[t] by {
                if s < pos && t < pos {
                    assert(out@[s] == before[s] && out@[t] == before[t]);
                } else if s < pos && t == pos {
                    assert(out@[s] == before[s]);
                } else if s < pos && t > pos {
                    assert(out@[s] == before[s] && out@[t] == before[t - 1]);
                } else if s == pos {
                    assert(out@[t] == before[t - 1]);
                    crate::chartext::lemma_text_lt_irreflexive(ks[i as int]);
                } else {
                    assert(out@[s] == before[s - 1] && out@[t] == before[t - 1]);
                }
            }
            assert forall|s: int, t: int| 0 <= s < t < out@.len() implies #[trigger] out@[s] != #[trigger] out@[t] by {
                if s < pos && t < pos {
                    assert(out@[s] == before[s] && out@[t] == before[t]);
                } else if s < pos && t == pos {
                    assert(out@[s] == before[s]);
                } else if s < pos && t > pos {
                    assert(out@[s] == before[s] && out@[t] == before[t - 1]);
                } else if s == pos {
                    assert(out@[t] == before[t - 1]);
                } else {
                    assert(out@[s] == before[s - 1] && out@[t] == before[t - 1]);
                }
            }
            assert forall|s: int| 0 <= s < out@.len() implies #[trigger] out@[s] < i + 1 by {
                if s < pos {
                    assert(out@[s] == before[s]);
                } else if s > pos {
                    assert(out@[s] == before[s - 1]);
                }
            }
        }
        i = i + 1;
    }
    proof {
        let p = Seq::new(out@.len(), |s: int| out@[s] as int);
        assert forall|s: int, t: int| 0 <= s < t < p.len() implies #[trigger] p[s] != #[trigger] p[t] by {
            assert(out@[s] != out@[t]);
        }
        assert forall|s: int, t: int| 0 <= s < t < p.len() implies !text_lt(ks[#[trigger] p[t]], ks[#[trigger] p[s]]) by {
            assert(!text_lt(ks[out@[t] as int], ks[out@[s] as int]));
        }
        assert forall|s: int, t: int| 0 <= s < t < p.len() && ks[p[s]] == ks[p[t]] implies #[trigger] p[s] < #[trigger] p[t] by {
            assert(out@[s] < out@[t]);
        }
    }
    out
}

/// The record name an unpacked file name stands for.
pub open spec fn text_pack_name(file_name: Seq<char>) -> Result<Seq<char>, ArchiveNameError> {
    match unescape_from(vstd::utf8::encode_utf8(file_name), 0) {
        Ok(bytes) => Ok(crate::sound_pack::name_text(bytes)),
        Err(e) => Err(e),
    }
}

/// The packed flag of a record name: 1 for `.dat` and `.txt` names, ignoring ASCII case.
pub open spec fn packed_flag_of_name(name: Seq<char>) -> i32 {
    if ends_with_ignoring_case(name, seq!['.', 'd', 'a', 't']) || ends_with_ignoring_case(
        name,
        seq!['.', 't', 'x', 't'],
    ) {
        1i32
    } else {
        0i32
    }
}

/// The record input made of a file with a name that unescapes to `name`.
pub open spec fn text_pack_input(name: Seq<char>, payload: Seq<u8>) -> TextInputView {
    TextInputView {
        name,
        name_bytes: vstd::utf8::encode_utf8(name),
        packed_flag: packed_flag_of_name(name),
        payload,
    }
}

/// The first file whose name does not unescape.
pub open spec fn first_bad_name(files: Seq<(String, Vec<u8>)>, k: int) -> Option<int>
    decreases files.len() - k,
{
    if k < 0 || k >= files.len() {
        None
    } else if text_pack_name(files[k].0@) is Err {
        Some(k)
    } else {
        first_bad_name(files, k + 1)
    }
}

/// The sort key of file `i`: its record name, lowercased.
pub open spec fn text_pack_keys(files: Seq<(String, Vec<u8>)>) -> Seq<Seq<char>> {
    Seq::new(files.len(), |i: int| unicode_lowercase(text_pack_name(files[i].0@)->Ok_0))
}

/// The text archive records of an unpacked directory's files (name and bytes, in
/// directory order): each file name unescapes to its record name, and the records come
/// in the order of their lowercased names, equal names keeping directory order. The
/// first file name that does not unescape is reported.
pub fn pack_text_records(files: Vec<(String, Vec<u8>)>) -> (r: Result<Vec<TextNosRecordInput>, ArchiveNameError>)
    ensures
        match first_bad_name(files@, 0) {
            Some(k) => r == Err::<Vec<TextNosRecordInput>, ArchiveNameError>(text_pack_name(files@[k].0@)->Err_0),
            None => r matches Ok(recs) && recs@.len() == files@.len() && exists|perm: Seq<int>|
                #![trigger is_stable_key_order(text_pack_keys(files@), perm)]
                is_stable_key_order(text_pack_keys(files@), perm) && forall|s: int|
                    0 <= s < recs@.len() ==> (#[trigger] recs@[s])@ == text_pack_input(
                        text_pack_name(files@[perm[s]].0@)->Ok_0,
                        files@[perm[s]].1@,
                    ),
        },
{
    let n = files.len();
    let mut recs: Vec<TextNosRecordInput> = Vec::new();
    let mut keys: Vec<Vec<char>> = Vec::new();
    let mut i: usize = 0;
    while i < n
        invariant
            i <= n,
            n == files@.len(),
            first_bad_name(files@, 0) == first_bad_name(files@, i as int),
            recs@.len() == i,
            keys@.len() == i,
            forall|k: int| 0 <= k < i ==> text_pack_name(#[trigger] files@[k].0@) is Ok,
            forall|k: int| 0 <= k < i ==> (#[trigger] recs@[k])@ == text_pack_input(text_pack_name(files@[k].0@)->Ok_0, files@[k].1@),
            forall|k: int| 0 <= k < i ==> (#[trigger] keys@[k])@ == text_pack_keys(files@)[k],
        decreases n - i,
    {
        let name = match unescape_archive_name(files[i].0.as_str()) {
            Ok(s) => s,
            Err(e) => {
                return Err(e);
            },
        };
        let lower = lowercase_string(name.as_str());
        keys.push(str_chars(lower.as_str()));
        let packed_flag = packed_flag_for_text_record(name.as_str());
        let name_bytes = crate::bytes::bytes_to_vec(name.as_str().as_bytes());
        let payload = crate::bytes::bytes_to_vec(files[i].1.as_slice());
        recs.push(TextNosRecordInput { name, name_bytes, packed_flag, payload });
        i = i + 1;
    }
    let order = stable_key_order(keys.as_slice());
    let ghost ks = Seq::new(keys@.len(), |k: int| keys@[k]@);
    assert(ks =~= text_pack_keys(files@));
    let ghost perm = Seq::new(order@.len(), |s: int| order@[s] as int);
    let mut out: Vec<TextNosRecordInput> = Vec::new();
    let mut s: usize = 0;
    while s < order.len()
        invariant
            s <= order@.len(),
            order@.len() == n,
            n == files@.len(),
            recs@.len() == n,
            perm == Seq::new(order@.len(), |x: int| order@[x] as int),
            is_stable_key_order(text_pack_keys(files@), perm),
            forall|k: int| 0 <= k < n ==> (#[trigger] recs@[k])@ == text_pack_input(text_pack_name(files@[k].0@)->Ok_0, files@[k].1@),
            out@.len() == s,
            forall|x: int| 0 <= x < s ==> (#[trigger] out@[x])@ == text_pack_input(
                text_pack_name(files@[perm[x]].0@)->Ok_0,
                files@[perm[x]].1@,
            ),
        decreases order@.len() - s,
    {
        let k = order[s];
        assert(perm[s as int] == k as int);
        let r = &recs[k];
        out.push(TextNosRecordInput {
            name: r.name.clone(),
            name_bytes: crate::bytes::bytes_to_vec(r.name_bytes.as_slice()),
            packed_flag: r.packed_flag,
            payload: crate::bytes::bytes_to_vec(r.payload.as_slice()),
        });
        s = s + 1;
    }
    Ok(out)
}

} // verus!
