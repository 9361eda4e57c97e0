//! The updater's pack mutation streams.
//!
//! A mutation stream is a pack header whose count field holds the number of
//! rows the rebuilt pack will have, a record count, and the records. Each
//! record starts with a tag byte: `0` skips a base row, `1` and `2` carry an
//! inline row and its payload, `5` copies a base row by key, and any other
//! tag is a marker that produces no row.
use vstd::prelude::*;

use crate::bytes::{bytes_to_vec, copy_range, i32_at, read_i32_le_at};
use crate::deldx::{
    header_problem, is_invalid_archive, key_index_from, lemma_key_index_from_bounds, parse_pack, validate_pack_header,
    write_deldx_pack_bytes, write_entries_of, write_entries_view, write_problem, written_pack,
    DelDxPack, DelDxPackEntryView, DelDxPackError, DelDxPackWriteEntry, DelDxPackWriteEntryView,
    DelDxPackWriteOptions, DelDxProblem, DELDX_PACK_ROW_PREFIX_LEN, lemma_pack_round_trip,
};

verus! {

/// One record of a pack mutation stream.
#[derive(Debug, Clone, PartialEq, Eq)]
pub enum PackedMutationRecord {
    /// Tag `0`: a base row that the rebuilt pack leaves out.
    Skip { target_key: i32, source_key: i32, source_index: i32 },
    /// Tags `1` and `2`: an 80-byte row and the payload it describes.
    Inline { tag: u8, row: Vec<u8>, payload: Vec<u8> },
    /// Tag `5`: a base row copied into the rebuilt pack by its key.
    Copy { target_key: i32, source_key: i32, source_index: i32 },
    /// Any other tag: a marker without data that produces no row.
    NoOutput { tag: u8 },
}

/// The mathematical content of a mutation record.
pub enum PackedMutationRecordView {
    Skip { target_key: i32, source_key: i32, source_index: i32 },
    Inline { tag: u8, row: Seq<u8>, payload: Seq<u8> },
    Copy { target_key: i32, source_key: i32, source_index: i32 },
    NoOutput { tag: u8 },
}

impl View for PackedMutationRecord {
    type V = PackedMutationRecordView;

    open spec fn view(&self) -> PackedMutationRecordView {
        match self {
            PackedMutationRecord::Skip { target_key, source_key, source_index } =>
                PackedMutationRecordView::Skip {
                target_key: *target_key,
                source_key: *source_key,
                source_index: *source_index,
            },
            PackedMutationRecord::Inline { tag, row, payload } => PackedMutationRecordView::Inline {
                tag: *tag,
                row: row@,
                payload: payload@,
            },
            PackedMutationRecord::Copy { target_key, source_key, source_index } =>
                PackedMutationRecordView::Copy {
                target_key: *target_key,
                source_key: *source_key,
                source_index: *source_index,
            },
            PackedMutationRecord::NoOutput { tag } => PackedMutationRecordView::NoOutput {
                tag: *tag,
            },
        }
    }
}

/// The views of a list of mutation records.
pub open spec fn mutation_records_view(rs: Seq<PackedMutationRecord>) -> Seq<
    PackedMutationRecordView,
> {
    Seq::new(rs.len(), |i: int| rs[i]@)
}

/// Whether a record produces a row of the rebuilt pack.
pub open spec fn is_output(r: PackedMutationRecordView) -> bool {
    r is Inline || r is Copy
}

/// How many records of a list produce a row.
pub open spec fn count_outputs(rs: Seq<PackedMutationRecordView>) -> nat
    decreases rs.len(),
{
    if rs.len() == 0 {
        0
    } else {
        count_outputs(rs.drop_last()) + if is_output(rs.last()) {
            1nat
        } else {
            0nat
        }
    }
}

/// The three keys of a skip or copy record that starts after its tag at `p`.
pub open spec fn keyed_record(d: Seq<u8>, p: int, copy: bool) -> Result<
    (PackedMutationRecordView, int),
    DelDxProblem,
> {
    if p + 4 > d.len() {
        Err(
            DelDxProblem::Missing {
                label: if copy {
                    "DelDX copy target key"
                } else {
                    "DelDX skip target key"
                },
            },
        )
    } else if p + 8 > d.len() {
        Err(
            DelDxProblem::Missing {
                label: if copy {
                    "DelDX copy source key"
                } else {
                    "DelDX skip source key"
                },
            },
        )
    } else if p + 12 > d.len() {
        Err(
            DelDxProblem::Missing {
                label: if copy {
                    "DelDX copy source index"
                } else {
                    "DelDX skip source index"
                },
            },
        )
    } else if copy {
        Ok(
            (
                PackedMutationRecordView::Copy {
                    target_key: i32_at(d, p),
                    source_key: i32_at(d, p + 4),
                    source_index: i32_at(d, p + 8),
                },
                p + 12,
            ),
        )
    } else {
        Ok(
            (
                PackedMutationRecordView::Skip {
                    target_key: i32_at(d, p),
                    source_key: i32_at(d, p + 4),
                    source_index: i32_at(d, p + 8),
                },
                p + 12,
            ),
        )
    }
}

/// The inline record whose row starts at `p`, which is record number `index`.
pub open spec fn inline_record(d: Seq<u8>, p: int, index: int, tag: u8) -> Result<
    (PackedMutationRecordView, int),
    DelDxProblem,
> {
    if p + 80 > usize::MAX {
        Err(DelDxProblem::Overflow { label: "DelDX inline row end" })
    } else if p + 80 > d.len() {
        Err(DelDxProblem::InlineTruncated { index: index as usize })
    } else if d[p] >= 68 {
        Err(DelDxProblem::InlineRowNameTooLong { index: index as usize, name_len: d[p] as usize })
    } else if i32_at(d, p + 72) < 0 {
        Err(DelDxProblem::NegativePayloadSize { index: index as usize, size: i32_at(d, p + 72) })
    } else if p + 80 + i32_at(d, p + 72) > usize::MAX {
        Err(DelDxProblem::Overflow { label: "DelDX inline payload end" })
    } else if p + 80 + i32_at(d, p + 72) > d.len() {
        Err(DelDxProblem::InlinePayloadTruncated { index: index as usize })
    } else {
        Ok(
            (
                PackedMutationRecordView::Inline {
                    tag,
                    row: d.subrange(p, p + 80),
                    payload: d.subrange(p + 80, p + 80 + i32_at(d, p + 72)),
                },
                p + 80 + i32_at(d, p + 72),
            ),
        )
    }
}

/// The record that starts at `pos`, which is record number `index`, and the
/// position after it.
pub open spec fn parse_mutation_record(d: Seq<u8>, pos: int, index: int) -> Result<
    (PackedMutationRecordView, int),
    DelDxProblem,
> {
    if pos >= d.len() {
        Err(DelDxProblem::MissingTag { index: index as usize })
    } else if d[pos] == 0 {
        keyed_record(d, pos + 1, false)
    } else if d[pos] == 5 {
        keyed_record(d, pos + 1, true)
    } else if d[pos] == 1 || d[pos] == 2 {
        inline_record(d, pos + 1, index, d[pos])
    } else {
        Ok((PackedMutationRecordView::NoOutput { tag: d[pos] }, pos + 1))
    }
}

/// Records `i..n` of a stream, read from `pos` on, and the position after them.
pub open spec fn parse_mutation_records(d: Seq<u8>, pos: int, i: int, n: int) -> Result<
    (Seq<PackedMutationRecordView>, int),
    DelDxProblem,
>
    decreases n - i,
{
    if i >= n {
        Ok((Seq::empty(), pos))
    } else {
        match parse_mutation_record(d, pos, i) {
            Err(e) => Err(e),
            Ok((r, p)) => prepend_records(seq![r], parse_mutation_records(d, p, i + 1, n)),
        }
    }
}

/// Puts `rs` in front of the records of a parse result.
pub open spec fn prepend_records(
    rs: Seq<PackedMutationRecordView>,
    rest: Result<(Seq<PackedMutationRecordView>, int), DelDxProblem>,
) -> Result<(Seq<PackedMutationRecordView>, int), DelDxProblem> {
    match rest {
        Ok((a, e)) => Ok((rs + a, e)),
        Err(e) => Err(e),
    }
}

/// The mathematical content of a parsed mutation stream.
pub struct PackedArchiveMutationView {
    pub header: Seq<u8>,
    pub output_count: usize,
    pub records: Seq<PackedMutationRecordView>,
}

/// What parsing a mutation stream returns: its header, output count and
/// records, or the first problem found.
pub open spec fn parse_mutation(d: Seq<u8>) -> Result<PackedArchiveMutationView, DelDxProblem> {
    if d.len() < 32 {
        Err(DelDxProblem::MutationShorterThanHeader)
    } else if header_problem(d.subrange(0, 28)) is Some {
        Err(header_problem(d.subrange(0, 28))->Some_0)
    } else if i32_at(d, 0x18) < 0 {
        Err(DelDxProblem::NegativeOutputCount { count: i32_at(d, 0x18) })
    } else if i32_at(d, 0x1c) < 0 {
        Err(DelDxProblem::NegativeRecordCount { count: i32_at(d, 0x1c) })
    } else {
        match parse_mutation_records(d, 32, 0, i32_at(d, 0x1c) as int) {
            Err(e) => Err(e),
            Ok((rs, end)) => if end != d.len() {
                Err(DelDxProblem::TrailingRecordBytes { count: (d.len() - end) as usize })
            } else if count_outputs(rs) != i32_at(d, 0x18) {
                Err(
                    DelDxProblem::OutputCountMismatch {
                        header: i32_at(d, 0x18) as usize,
                        records: count_outputs(rs) as usize,
                    },
                )
            } else {
                Ok(
                    PackedArchiveMutationView {
                        header: d.subrange(0, 28),
                        output_count: i32_at(d, 0x18) as usize,
                        records: rs,
                    },
                )
            },
        }
    }
}

/// A parsed mutation stream.
#[derive(Debug, Clone, PartialEq, Eq)]
pub struct PackedArchiveMutation {
    header: [u8; 28],
    output_count: usize,
    records: Vec<PackedMutationRecord>,
}

impl View for PackedArchiveMutation {
    type V = PackedArchiveMutationView;

    closed spec fn view(&self) -> PackedArchiveMutationView {
        PackedArchiveMutationView {
            header: self.header@,
            output_count: self.output_count,
            records: mutation_records_view(self.records@),
        }
    }
}

/// Reads the skip or copy record whose keys start at `p`.
fn read_keyed_record(bytes: &[u8], p: usize, copy: bool) -> (r: Result<
    (PackedMutationRecord, usize),
    DelDxProblem,
>)
    requires
        p <= bytes@.len(),
    ensures
        match keyed_record(bytes@, p as int, copy) {
            Ok((v, e)) => r is Ok && r->Ok_0.0@ == v && r->Ok_0.1 == e && e <= bytes@.len(),
            Err(e) => r == Err::<(PackedMutationRecord, usize), DelDxProblem>(e),
        },
{
    let rest = bytes.len() - p;
    if rest < 4 {
        return Err(
            DelDxProblem::Missing {
                label: if copy {
                    "DelDX copy target key"
                } else {
                    "DelDX skip target key"
                },
            },
        );
    }
    if rest < 8 {
        return Err(
            DelDxProblem::Missing {
                label: if copy {
                    "DelDX copy source key"
                } else {
                    "DelDX skip source key"
                },
            },
        );
    }
    if rest < 12 {
        return Err(
            DelDxProblem::Missing {
                label: if copy {
                    "DelDX copy source index"
                } else {
                    "DelDX skip source index"
                },
            },
        );
    }
    let target_key = read_i32_le_at(bytes, p);
    let source_key = read_i32_le_at(bytes, p + 4);
    let source_index = read_i32_le_at(bytes, p + 8);
    if copy {
        Ok((PackedMutationRecord::Copy { target_key, source_key, source_index }, p + 12))
    } else {
        Ok((PackedMutationRecord::Skip { target_key, source_key, source_index }, p + 12))
    }
}

/// Reads the inline record whose row starts at `p`.
fn read_inline_record(bytes: &[u8], p: usize, index: usize, tag: u8) -> (r: Result<
    (PackedMutationRecord, usize),
    DelDxProblem,
>)
    requires
        p <= bytes@.len(),
    ensures
        match inline_record(bytes@, p as int, index as int, tag) {
            Ok((v, e)) => r is Ok && r->Ok_0.0@ == v && r->Ok_0.1 == e && e <= bytes@.len(),
            Err(e) => r == Err::<(PackedMutationRecord, usize), DelDxProblem>(e),
        },
{
    if p > usize::MAX - 80 {
        return Err(DelDxProblem::Overflow { label: "DelDX inline row end" });
    }
    let row_end = p + 80;
    if row_end > bytes.len() {
        return Err(DelDxProblem::InlineTruncated { index });
    }
    let name_len = bytes[p] as usize;
    if name_len >= DELDX_PACK_ROW_PREFIX_LEN {
        return Err(DelDxProblem::InlineRowNameTooLong { index, name_len });
    }
    let size = read_i32_le_at(bytes, p + 72);
    if size < 0 {
        return Err(DelDxProblem::NegativePayloadSize { index, size });
    }
    let size = size as usize;
    if row_end > usize::MAX - size {
        return Err(DelDxProblem::Overflow { label: "DelDX inline payload end" });
    }
    let payload_end = row_end + size;
    if payload_end > bytes.len() {
        return Err(DelDxProblem::InlinePayloadTruncated { index });
    }
    let row = copy_range(bytes, p, 80);
    let payload = copy_range(bytes, row_end, size);
    Ok((PackedMutationRecord::Inline { tag, row, payload }, payload_end))
}

/// Reads record number `index`, which starts at `pos`.
fn read_mutation_record(bytes: &[u8], pos: usize, index: usize) -> (r: Result<
    (PackedMutationRecord, usize),
    DelDxProblem,
>)
    requires
        pos <= bytes@.len(),
    ensures
        match parse_mutation_record(bytes@, pos as int, index as int) {
            Ok((v, e)) => r is Ok && r->Ok_0.0@ == v && r->Ok_0.1 == e && e <= bytes@.len(),
            Err(e) => r == Err::<(PackedMutationRecord, usize), DelDxProblem>(e),
        },
{
    if pos >= bytes.len() {
        return Err(DelDxProblem::MissingTag { index });
    }
    let tag = bytes[pos];
    if tag == 0 {
        read_keyed_record(bytes, pos + 1, false)
    } else if tag == 5 {
        read_keyed_record(bytes, pos + 1, true)
    } else if tag == 1 || tag == 2 {
        read_inline_record(bytes, pos + 1, index, tag)
    } else {
        Ok((PackedMutationRecord::NoOutput { tag }, pos + 1))
    }
}

/// Reading one more record moves it from the unread part to the read part.
proof fn lemma_records_step(
    d: Seq<u8>,
    pos: int,
    index: int,
    n: int,
    before: Seq<PackedMutationRecordView>,
    r: PackedMutationRecordView,
    next: int,
)
    requires
        index < n,
        parse_mutation_record(d, pos, index) == Ok::<(PackedMutationRecordView, int), DelDxProblem>(
            (r, next),
        ),
    ensures
        prepend_records(before, parse_mutation_records(d, pos, index, n)) == prepend_records(
            before.push(r),
            parse_mutation_records(d, next, index + 1, n),
        ),
        count_outputs(before.push(r)) == count_outputs(before) + if is_output(r) {
            1nat
        } else {
            0nat
        },
{
    assert(before.push(r).drop_last() =~= before);
    let tail = parse_mutation_records(d, next, index + 1, n);
    match tail {
        Ok((a, e)) => {
            assert(before + (seq![r] + a) =~= before.push(r) + a);
        },
        Err(e) => {},
    }
}

impl PackedArchiveMutation {
    /// Parses a mutation stream without applying it.
    pub fn parse(bytes: &[u8]) -> (r: Result<Self, DelDxPackError>)
        ensures
            match parse_mutation(bytes@) {
                Ok(m) => r is Ok && r->Ok_0@ == m,
                Err(p) => r == Err::<Self, DelDxPackError>(
                    DelDxPackError::InvalidMutation { problem: p },
                ),
            },
    {
        let ghost d = bytes@;
        if bytes.len() < 32 {
            return Err(
                DelDxPackError::InvalidMutation { problem: DelDxProblem::MutationShorterThanHeader },
            );
        }
        let mut header: [u8; 28] = [0u8; 28];
        let mut j: usize = 0;
        while j < 28
            invariant
                j <= 28,
                bytes@.len() >= 32,
                forall|k: int| 0 <= k < j ==> header@[k] == bytes@[k],
            decreases 28 - j,
        {
            header[j] = bytes[j];
            j = j + 1;
        }
        assert(header@ =~= d.subrange(0, 28));
        match validate_pack_header(&header) {
            Ok(()) => {},
            Err(problem) => return Err(DelDxPackError::InvalidMutation { problem }),
        }
        let output_count = read_i32_le_at(bytes, 0x18);
        if output_count < 0 {
            return Err(
                DelDxPackError::InvalidMutation {
                    problem: DelDxProblem::NegativeOutputCount { count: output_count },
                },
            );
        }
        let record_count = read_i32_le_at(bytes, 0x1c);
        if record_count < 0 {
            return Err(
                DelDxPackError::InvalidMutation {
                    problem: DelDxProblem::NegativeRecordCount { count: record_count },
                },
            );
        }
        let n = record_count as usize;
        let mut pos: usize = 32;
        let mut records: Vec<PackedMutationRecord> = Vec::new();
        let mut outputs: usize = 0;
        let mut index: usize = 0;
        proof {
            match parse_mutation_records(d, 32, 0, n as int) {
                Ok((a, e)) => {
                    assert(Seq::<PackedMutationRecordView>::empty() + a =~= a);
                },
                Err(e) => {},
            }
            assert(mutation_records_view(records@) =~= Seq::<PackedMutationRecordView>::empty());
        }
        while index < n
            invariant
                index <= n,
                n == record_count,
                d.len() >= 32,
                header_problem(d.subrange(0, 28)) is None,
                output_count == i32_at(d, 0x18),
                record_count == i32_at(d, 0x1c),
                output_count >= 0,
                header@ == d.subrange(0, 28),
                pos <= d.len(),
                d == bytes@,
                outputs <= index,
                outputs == count_outputs(mutation_records_view(records@)),
                parse_mutation_records(d, 32, 0, n as int) == prepend_records(
                    mutation_records_view(records@),
                    parse_mutation_records(d, pos as int, index as int, n as int),
                ),
            decreases n - index,
        {
            let ghost before = mutation_records_view(records@);
            let ghost rest = parse_mutation_records(d, pos as int, index as int, n as int);
            let (record, next) = match read_mutation_record(bytes, pos, index) {
                Ok(found) => found,
                Err(problem) => {
                    assert(rest == Err::<(Seq<PackedMutationRecordView>, int), DelDxProblem>(
                        problem,
                    ));
                    assert(parse_mutation_records(d, 32, 0, n as int) == Err::<
                        (Seq<PackedMutationRecordView>, int),
                        DelDxProblem,
                    >(problem));
                    return Err(DelDxPackError::InvalidMutation { problem });
                },
            };
            let produces = match &record {
                PackedMutationRecord::Inline { .. } => true,
                PackedMutationRecord::Copy { .. } => true,
                _ => false,
            };
            assert(produces == is_output(record@));
            records.push(record);
            proof {
                assert(mutation_records_view(records@) =~= before.push(record@));
                lemma_records_step(d, pos as int, index as int, n as int, before, record@, next as int);
            }
            if produces {
                outputs = outputs + 1;
            }
            pos = next;
            index = index + 1;
        }
        let ghost rs = mutation_records_view(records@);
        assert(rs + Seq::<PackedMutationRecordView>::empty() =~= rs);
        if pos != bytes.len() {
            return Err(
                DelDxPackError::InvalidMutation {
                    problem: DelDxProblem::TrailingRecordBytes { count: bytes.len() - pos },
                },
            );
        }
        let expected = output_count as usize;
        if outputs != expected {
            return Err(
                DelDxPackError::InvalidMutation {
                    problem: DelDxProblem::OutputCountMismatch { header: expected, records: outputs },
                },
            );
        }
        Ok(PackedArchiveMutation { header, output_count: expected, records })
    }
}

/// The row prefix of a copy record whose key the base pack lacks: 68 zero bytes.
pub open spec fn empty_row_prefix() -> Seq<u8> {
    Seq::new(68, |i: int| 0u8)
}

/// Every inline record of the list carries a full 80-byte row.
pub open spec fn inline_rows_sized(rs: Seq<PackedMutationRecordView>) -> bool {
    forall|i: int|
        0 <= i < rs.len() ==> (#[trigger] rs[i] matches PackedMutationRecordView::Inline { row, .. }
            ==> row.len() == 80)
}

/// A record that parses carries a full inline row.
proof fn lemma_record_row_sized(d: Seq<u8>, pos: int, i: int)
    requires
        0 <= pos,
    ensures
        parse_mutation_record(d, pos, i) matches Ok((r, p)) ==> p > pos,
        parse_mutation_record(d, pos, i) matches Ok((r, p)) ==> (r matches PackedMutationRecordView::Inline { row, .. } ==> row.len() == 80),
{
    if pos < d.len() && (d[pos] == 1 || d[pos] == 2) {
        let q = pos + 1;
        if inline_record(d, q, i, d[pos]) is Ok {
            assert(d.subrange(q, q + 80).len() == 80);
        }
    }
}

/// The records that parse from a stream carry full inline rows.
proof fn lemma_parsed_rows_sized(d: Seq<u8>, pos: int, i: int, n: int)
    requires
        0 <= pos,
    ensures
        parse_mutation_records(d, pos, i, n) matches Ok((rs, e)) ==> inline_rows_sized(rs),
    decreases n - i,
{
    if i < n {
        match parse_mutation_record(d, pos, i) {
            Ok((r, p)) => {
                lemma_record_row_sized(d, pos, i);
                lemma_parsed_rows_sized(d, p, i + 1, n);
                match parse_mutation_records(d, p, i + 1, n) {
                    Ok((a, e)) => {
                        let rs = seq![r] + a;
                        assert(rs[0] == r);
                        assert forall|k: int| 0 <= k < rs.len() implies (#[trigger] rs[k] matches PackedMutationRecordView::Inline { row, .. }
                            ==> row.len() == 80) by {
                            if k > 0 {
                                assert(rs[k] == a[k - 1]);
                            }
                        }
                    },
                    Err(_) => {},
                }
            },
            Err(_) => {},
        }
    }
}

/// The rows that the records of a mutation produce over a base pack with
/// bytes `d` and rows `es`: an inline record gives its row prefix and
/// payload, a copy record gives the first base row with its target key (or
/// an empty row when there is none), and the other records give nothing.
pub open spec fn mutation_outputs(
    d: Seq<u8>,
    es: Seq<DelDxPackEntryView>,
    rs: Seq<PackedMutationRecordView>,
) -> Seq<DelDxPackWriteEntryView>
    decreases rs.len(),
{
    if rs.len() == 0 {
        Seq::empty()
    } else {
        let prev = mutation_outputs(d, es, rs.drop_last());
        match rs.last() {
            PackedMutationRecordView::Inline { row, payload, .. } => prev.push(
                DelDxPackWriteEntryView { row_prefix: row.subrange(0, 68), data: payload },
            ),
            PackedMutationRecordView::Copy { target_key, .. } => match key_index_from(
                es,
                target_key,
                0,
            ) {
                Some(i) => prev.push(write_entries_of(d, es)[i]),
                None => prev.push(
                    DelDxPackWriteEntryView { row_prefix: empty_row_prefix(), data: Seq::empty() },
                ),
            },
            _ => prev,
        }
    }
}

/// Each row-producing record yields exactly one row.
pub proof fn lemma_mutation_outputs_len(
    d: Seq<u8>,
    es: Seq<DelDxPackEntryView>,
    rs: Seq<PackedMutationRecordView>,
)
    ensures
        mutation_outputs(d, es, rs).len() == count_outputs(rs),
    decreases rs.len(),
{
    if rs.len() > 0 {
        lemma_mutation_outputs_len(d, es, rs.drop_last());
    }
}

impl PackedArchiveMutation {
    /// The records of the stream, in stream order.
    pub fn records(&self) -> (r: &[PackedMutationRecord])
        ensures
            mutation_records_view(r@) == self@.records,
    {
        self.records.as_slice()
    }
}

/// Applies a mutation stream to base pack bytes and returns the rebuilt pack.
pub fn apply_packed_archive_mutation(base_bytes: &[u8], mutation_bytes: &[u8]) -> (r: Result<
    Vec<u8>,
    DelDxPackError,
>)
    ensures
        match parse_pack(base_bytes@) {
            Err(p) => (r matches Err(e) && is_invalid_archive(e, "<memory>"@, p)),
            Ok(es) => match parse_mutation(mutation_bytes@) {
                Err(p) => r == Err::<Vec<u8>, DelDxPackError>(
                    DelDxPackError::InvalidMutation { problem: p },
                ),
                Ok(m) => {
                    let out = mutation_outputs(base_bytes@, es, m.records);
                    &&& out.len() == m.output_count
                    &&& match write_problem(m.header, out) {
                        Some(e) => r == Err::<Vec<u8>, DelDxPackError>(e),
                        None => r is Ok && r->Ok_0@ == written_pack(m.header, out) && parse_pack(
                            r->Ok_0@,
                        ) is Ok && write_entries_of(r->Ok_0@, parse_pack(r->Ok_0@)->Ok_0) == out,
                    }
                },
            },
        },
{
    let base = match DelDxPack::from_memory(bytes_to_vec(base_bytes)) {
        Ok(p) => p,
        Err(e) => return Err(e),
    };
    let mutation = match PackedArchiveMutation::parse(mutation_bytes) {
        Ok(m) => m,
        Err(e) => return Err(e),
    };
    let ghost d = base_bytes@;
    let ghost es = base.entries_spec();
    let ghost rs = mutation@.records;
    proof {
        lemma_parsed_rows_sized(mutation_bytes@, 32, 0, i32_at(mutation_bytes@, 0x1c) as int);
    }
    let mut entries: Vec<DelDxPackWriteEntry> = Vec::new();
    let mut i: usize = 0;
    while i < mutation.records.len()
        invariant
            i <= mutation.records@.len(),
            rs == mutation_records_view(mutation.records@),
            base.wf(),
            base.bytes() == d,
            es == base.entries_spec(),
            write_entries_view(entries@) == mutation_outputs(d, es, rs.subrange(0, i as int)),
            inline_rows_sized(rs),
        decreases mutation.records@.len() - i,
    {
        let ghost prev = write_entries_view(entries@);
        let ghost sub = rs.subrange(0, i + 1);
        assert(sub.drop_last() =~= rs.subrange(0, i as int));
        assert(sub.last() == mutation.records@[i as int]@);
        match &mutation.records[i] {
            PackedMutationRecord::Inline { row, payload, .. } => {
                assert(rs[i as int] == mutation.records@[i as int]@);
                let prefix = copy_range(row.as_slice(), 0, DELDX_PACK_ROW_PREFIX_LEN);
                entries.push(DelDxPackWriteEntry::new(prefix, bytes_to_vec(payload.as_slice())));
                assert(write_entries_view(entries@) =~= prev.push(
                    DelDxPackWriteEntryView { row_prefix: row@.subrange(0, 68), data: payload@ },
                ));
                assert(write_entries_view(entries@) == mutation_outputs(d, es, sub));
            },
            PackedMutationRecord::Copy { target_key, .. } => {
                proof {
                    lemma_key_index_from_bounds(es, *target_key, 0);
                }
                match base.find_entry_index_for_mutation(*target_key) {
                    Some(index) => {
                        let record = match base.record_at(index) {
                            Ok(record) => record,
                            Err(e) => return Err(e),
                        };
                        entries.push(DelDxPackWriteEntry::new(record.row_prefix, record.data));
                        assert(write_entries_view(entries@) =~= prev.push(
                            write_entries_of(d, es)[index as int],
                        ));
                        assert(write_entries_view(entries@) == mutation_outputs(d, es, sub));
                    },
                    None => {
                        let mut prefix: Vec<u8> = Vec::new();
                        let mut k: usize = 0;
                        while k < DELDX_PACK_ROW_PREFIX_LEN
                            invariant
                                k <= 68,
                                prefix@ == Seq::new(k as nat, |j: int| 0u8),
                            decreases 68 - k,
                        {
                            prefix.push(0u8);
                            k = k + 1;
                            assert(prefix@ =~= Seq::new(k as nat, |j: int| 0u8));
                        }
                        entries.push(DelDxPackWriteEntry::new(prefix, Vec::new()));
                        assert(write_entries_view(entries@) =~= prev.push(
                            DelDxPackWriteEntryView {
                                row_prefix: empty_row_prefix(),
                                data: Seq::empty(),
                            },
                        ));
                        assert(write_entries_view(entries@) == mutation_outputs(d, es, sub));
                    },
                }
            },
            _ => {
                assert(write_entries_view(entries@) =~= prev);
                assert(write_entries_view(entries@) == mutation_outputs(d, es, sub));
            },
        }
        proof {
            assert(write_entries_view(entries@) =~= mutation_outputs(d, es, sub));
        }
        i = i + 1;
    }
    proof {
        assert(rs.subrange(0, rs.len() as int) =~= rs);
        lemma_mutation_outputs_len(d, es, rs);
    }
    let options = DelDxPackWriteOptions { header: mutation.header };
    match write_deldx_pack_bytes(entries.as_slice(), &options) {
        Ok(v) => {
            proof {
                assert(v@.len() == v.len());
                lemma_pack_round_trip(mutation@.header, write_entries_view(entries@));
            }
            Ok(v)
        },
        Err(e) => Err(e),
    }
}

} // verus!
