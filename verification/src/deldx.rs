//! DelDX pack files such as `snd.pck`.
//!
//! A pack is a 28-byte header (a Pascal-string magic, a version and a file
//! count), a table of 76-byte rows, and the row payloads. Each row holds a
//! 68-byte prefix whose first byte is the length of the row name that follows,
//! then the payload offset and size. This module parses, edits and rebuilds
//! packs, and applies the updater's pack mutation streams.
use vstd::prelude::*;

use crate::bytes::{
    bytes_to_vec, copy_range, extend_bytes, i32_at, i32_le_bytes, lemma_i32_round_trip,
    lemma_u32_round_trip, push_i32_le, push_u32_le, read_i32_le_at, read_u32_le_at, u32_at,
    u32_le_bytes,
};
use crate::numtext::{parse_decimal, parse_i32_dec};
use crate::textenc::{lossy_string, utf8_lossy};

verus! {

/// Whether `e` reports record index `index` out of bounds for a table of `count` records
/// of the archive at `path`.
pub open spec fn is_index_error(e: DelDxPackError, path: Seq<char>, index: usize, count: usize) -> bool {
    e matches DelDxPackError::RecordIndexOutOfBounds { path: p, index: i, count: c } && p@ == path && i == index && c == count
}

/// Whether `e` reports problem `problem` in the archive at `path`.
pub open spec fn is_invalid_archive(e: DelDxPackError, path: Seq<char>, problem: DelDxProblem) -> bool {
    e matches DelDxPackError::InvalidArchive { path: p, problem: q } && p@ == path && q == problem
}

pub const DELDX_PACK_HEADER_LEN: usize = 0x1c;

pub const DELDX_PACK_ROW_LEN: usize = 0x4c;

pub const DELDX_PACK_ROW_PREFIX_LEN: usize = 0x44;

pub const DELDX_PACK_RESERVED_HEADER_OFFSET: usize = 0x11;

pub const DELDX_PACK_RESERVED_HEADER_LEN: usize = 3;

pub(crate) const PACK_PATCH_PREFIX_LEN: usize = 0x20;

pub(crate) const PACK_PATCH_INLINE_ROW_LEN: usize = 0x50;

pub(crate) const PACK_DATA_OFFSET: usize = 0x44;

pub(crate) const PACK_DATA_SIZE: usize = 0x48;

pub(crate) const PACK_VERSION_OFFSET: usize = 0x14;

pub(crate) const PACK_COUNT_OFFSET: usize = 0x18;

pub(crate) const PACK_RECORD_COUNT_OFFSET: usize = 0x1c;

/// What is wrong with a pack, a pack header, a row or a mutation stream.
#[derive(Debug, Clone, Copy, PartialEq, Eq)]
pub enum DelDxProblem {
    /// The file is shorter than the DelDX header.
    ShorterThanHeader,
    /// The header slice is shorter than a header.
    HeaderTruncated,
    /// The header magic is not recognized.
    UnrecognizedMagic,
    /// The pack version is newer than version 10.
    VersionTooNew { version: i32 },
    /// The header holds a negative file count.
    NegativeFileCount { count: i32 },
    /// The table size overflows.
    TableSizeOverflow,
    /// The table ends beyond the file.
    TableBeyondFile { table_end: usize, file_size: usize },
    /// A row name length exceeds the prefix capacity.
    RowNameTooLong { name_len: usize },
    /// A row's data offset lies beyond the file.
    DataOffsetBeyondFile { index: usize, offset: usize },
    /// A non-empty row's data offset lies inside the table.
    PointsIntoTable { index: usize },
    /// A row's payload end overflows.
    PayloadEndOverflow { index: usize },
    /// A row's payload ends beyond the file.
    DataEndsBeyondFile { index: usize },
    /// A row's payload lies outside the file.
    PayloadOutsideFile { index: usize },
    /// A write row prefix has the wrong length.
    RowPrefixWrongLength { actual: usize },
    /// The rebuilt pack exceeds 4 GiB.
    PackTooLarge,
    /// The mutation stream is shorter than its header.
    MutationShorterThanHeader,
    /// A fixed-position field is missing.
    Missing { label: &'static str },
    /// An addition overflows.
    Overflow { label: &'static str },
    /// The mutation header holds a negative output count.
    NegativeOutputCount { count: i32 },
    /// The mutation header holds a negative record count.
    NegativeRecordCount { count: i32 },
    /// A mutation record has no tag byte.
    MissingTag { index: usize },
    /// An inline mutation record row is truncated.
    InlineTruncated { index: usize },
    /// An inline mutation record row has an overlong name.
    InlineRowNameTooLong { index: usize, name_len: usize },
    /// An inline mutation record has a negative payload size.
    NegativePayloadSize { index: usize, size: i32 },
    /// An inline mutation record payload is truncated.
    InlinePayloadTruncated { index: usize },
    /// The mutation stream has bytes after its records.
    TrailingRecordBytes { count: usize },
    /// The number of output records differs from the header's output count.
    OutputCountMismatch { header: usize, records: usize },
}

/// Errors produced while parsing, editing or writing a pack.
#[derive(Debug, Clone, PartialEq, Eq)]
pub enum DelDxPackError {
    InvalidArchive { path: String, problem: DelDxProblem },
    InvalidWriteOptions { problem: DelDxProblem },
    InvalidWriteEntry { index: usize, problem: DelDxProblem },
    RecordIndexOutOfBounds { path: String, index: usize, count: usize },
    TooManyEntries { count: usize },
    EntryTooLarge { index: usize, size: usize },
    InvalidMutation { problem: DelDxProblem },
}

/// The bytes of the header magic string `DelDX Pack File `.
pub open spec fn pack_magic() -> Seq<u8> {
    seq![68u8, 101, 108, 68, 88, 32, 80, 97, 99, 107, 32, 70, 105, 108, 101, 32]
}

/// What is wrong with a pack header, if anything.
pub open spec fn header_problem(h: Seq<u8>) -> Option<DelDxProblem> {
    if h.len() < 28 {
        Some(DelDxProblem::HeaderTruncated)
    } else if h[0] != 16 || h.subrange(1, 17) != pack_magic() {
        Some(DelDxProblem::UnrecognizedMagic)
    } else if i32_at(h, 0x14) > 10 {
        Some(DelDxProblem::VersionTooNew { version: i32_at(h, 0x14) })
    } else {
        None
    }
}

pub(crate) fn validate_pack_header(header: &[u8]) -> (r: Result<(), DelDxProblem>)
    ensures
        r is Ok <==> header_problem(header@) is None,
        r is Err ==> header_problem(header@) == Some(r->Err_0),
{
    if header.len() < DELDX_PACK_HEADER_LEN {
        return Err(DelDxProblem::HeaderTruncated);
    }
    let magic: [u8; 16] = [68u8, 101, 108, 68, 88, 32, 80, 97, 99, 107, 32, 70, 105, 108, 101, 32];
    assert(magic@ == pack_magic());
    let mut same = header[0] == 16;
    let mut i: usize = 0;
    assert(header@.subrange(1, 1) =~= pack_magic().subrange(0, 0));
    while i < 16
        invariant
            i <= 16,
            header@.len() >= 28,
            magic@ == pack_magic(),
            same == (header@[0] == 16 && header@.subrange(1, 1 + i) == pack_magic().subrange(
                0,
                i as int,
            )),
        decreases 16 - i,
    {
        proof {
            let a = header@.subrange(1, 1 + i);
            let b = pack_magic().subrange(0, i as int);
            let a2 = header@.subrange(1, 2 + i);
            let b2 = pack_magic().subrange(0, i + 1);
            assert(a2 =~= a.push(header@[1 + i]));
            assert(b2 =~= b.push(pack_magic()[i as int]));
            if a2 == b2 {
                assert(a =~= a2.drop_last());
                assert(b =~= b2.drop_last());
                assert(a2[i as int] == b2[i as int]);
            }
            if a == b && header@[1 + i] == pack_magic()[i as int] {
                assert(a2 =~= b2);
            }
        }
        if header[1 + i] != magic[i] {
            same = false;
        }
        i = i + 1;
    }
    assert(pack_magic().subrange(0, 16) =~= pack_magic());
    if !same {
        return Err(DelDxProblem::UnrecognizedMagic);
    }
    let version = read_i32_le_at(header, PACK_VERSION_OFFSET);
    if version > 10 {
        return Err(DelDxProblem::VersionTooNew { version });
    }
    Ok(())
}

/// The smallest index at or after `from` that holds byte `b`.
pub open spec fn find_byte(s: Seq<u8>, b: u8, from: int) -> Option<int>
    decreases s.len() - from,
{
    if from < 0 || from >= s.len() {
        None
    } else if s[from] == b {
        Some(from)
    } else {
        find_byte(s, b, from + 1)
    }
}

/// The numeric key of a row name such as `base.10.wav`: the text between the first
/// two dots read as an `i32`, `-1` where it is no number, and the row index where the
/// name has fewer than two dots.
pub open spec fn derive_key(name: Seq<u8>, fallback: usize) -> i32 {
    match find_byte(name, 46, 0) {
        None => fallback as i32,
        Some(p1) => match find_byte(name, 46, p1 + 1) {
            None => fallback as i32,
            Some(p2) => match parse_decimal(
                name.subrange(p1 + 1, p2),
                true,
                i32::MIN as int,
                i32::MAX as int,
            ) {
                Some(v) => v as i32,
                None => -1i32,
            },
        },
    }
}

fn find_byte_exec(s: &[u8], b: u8, from: usize) -> (r: Option<usize>)
    ensures
        r matches Some(i) ==> find_byte(s@, b, from as int) == Some(i as int) && from <= i
            < s@.len(),
        r is None ==> find_byte(s@, b, from as int) is None,
{
    let mut i = from;
    while i < s.len()
        invariant
            from <= i,
            find_byte(s@, b, from as int) == find_byte(s@, b, i as int),
        decreases s@.len() - i,
    {
        if s[i] == b {
            proof {
                lemma_find_byte_bounds(s@, b, from as int);
            }
            return Some(i);
        }
        i = i + 1;
    }
    None
}

fn derive_row_key(name: &[u8], fallback_index: usize) -> (r: i32)
    requires
        fallback_index <= i32::MAX,
    ensures
        r == derive_key(name@, fallback_index),
{
    let n = name.len();
    let first_dot = match find_byte_exec(name, 46, 0) {
        Some(i) => i,
        None => return fallback_index as i32,
    };
    let second_dot = match find_byte_exec(name, 46, first_dot + 1) {
        Some(i) => i,
        None => return fallback_index as i32,
    };
    proof {
        assert(first_dot < second_dot) by {
            lemma_find_byte_bounds(name@, 46, first_dot + 1);
        }
    }
    match parse_i32_dec(&name[first_dot + 1..second_dot]) {
        Some(v) => v,
        None => -1,
    }
}

proof fn lemma_find_byte_bounds(s: Seq<u8>, b: u8, from: int)
    ensures
        find_byte(s, b, from) matches Some(i) ==> from <= i < s.len() && s[i] == b,
    decreases s.len() - from,
{
    if from >= 0 && from < s.len() && s[from] != b {
        lemma_find_byte_bounds(s, b, from + 1);
    }
}

/// One row of a parsed pack table.
#[derive(Debug, Clone, PartialEq, Eq)]
pub struct DelDxPackEntry {
    pub index: usize,
    pub name: String,
    pub name_bytes: Vec<u8>,
    pub key: i32,
    pub row_prefix: Vec<u8>,
    pub data_offset: usize,
    pub data_size: usize,
}

/// The mathematical content of a pack table row.
pub struct DelDxPackEntryView {
    pub index: usize,
    pub name: Seq<char>,
    pub name_bytes: Seq<u8>,
    pub key: i32,
    pub row_prefix: Seq<u8>,
    pub data_offset: usize,
    pub data_size: usize,
}

impl View for DelDxPackEntry {
    type V = DelDxPackEntryView;

    open spec fn view(&self) -> DelDxPackEntryView {
        DelDxPackEntryView {
            index: self.index,
            name: self.name@,
            name_bytes: self.name_bytes@,
            key: self.key,
            row_prefix: self.row_prefix@,
            data_offset: self.data_offset,
            data_size: self.data_size,
        }
    }
}

/// The views of a list of rows.
pub open spec fn entries_view(entries: Seq<DelDxPackEntry>) -> Seq<DelDxPackEntryView> {
    Seq::new(entries.len(), |i: int| entries[i]@)
}

/// The offset of row `i` in a pack.
pub open spec fn row_start(i: int) -> int {
    28 + 76 * i
}

/// The end of the table of a pack with `count` rows.
pub open spec fn table_end_of(count: int) -> int {
    28 + 76 * count
}

/// What is wrong with row `i` of pack bytes `d` whose table ends at `te`, if anything.
pub open spec fn row_problem(d: Seq<u8>, te: int, i: int) -> Option<DelDxProblem> {
    let r = row_start(i);
    let off = u32_at(d, r + 0x44) as int;
    let size = u32_at(d, r + 0x48) as int;
    if d[r] >= 68 {
        Some(DelDxProblem::RowNameTooLong { name_len: d[r] as usize })
    } else if off > d.len() {
        Some(DelDxProblem::DataOffsetBeyondFile { index: i as usize, offset: off as usize })
    } else if size > 0 && off < te {
        Some(DelDxProblem::PointsIntoTable { index: i as usize })
    } else if off + size > usize::MAX {
        Some(DelDxProblem::PayloadEndOverflow { index: i as usize })
    } else if off + size > d.len() {
        Some(DelDxProblem::DataEndsBeyondFile { index: i as usize })
    } else {
        None
    }
}

/// The problem of the first faulty row at or after row `i`.
pub open spec fn first_row_problem(d: Seq<u8>, te: int, count: int, i: int) -> Option<
    DelDxProblem,
>
    decreases count - i,
{
    if i >= count {
        None
    } else {
        match row_problem(d, te, i) {
            Some(p) => Some(p),
            None => first_row_problem(d, te, count, i + 1),
        }
    }
}

/// The name bytes of row `i`.
pub open spec fn row_name(d: Seq<u8>, i: int) -> Seq<u8> {
    d.subrange(row_start(i) + 1, row_start(i) + 1 + d[row_start(i)])
}

/// The parsed view of row `i`.
pub open spec fn entry_at(d: Seq<u8>, i: int) -> DelDxPackEntryView {
    DelDxPackEntryView {
        index: i as usize,
        name: utf8_lossy(row_name(d, i)),
        name_bytes: row_name(d, i),
        key: derive_key(row_name(d, i), i as usize),
        row_prefix: d.subrange(row_start(i), row_start(i) + 68),
        data_offset: u32_at(d, row_start(i) + 0x44) as usize,
        data_size: u32_at(d, row_start(i) + 0x48) as usize,
    }
}

/// The problem with the header, count and table size of pack bytes, if any.
pub open spec fn pack_prefix_problem(d: Seq<u8>) -> Option<DelDxProblem> {
    if d.len() < 28 {
        Some(DelDxProblem::ShorterThanHeader)
    } else if header_problem(d.subrange(0, 28)) is Some {
        header_problem(d.subrange(0, 28))
    } else if i32_at(d, 0x18) < 0 {
        Some(DelDxProblem::NegativeFileCount { count: i32_at(d, 0x18) })
    } else if 76 * i32_at(d, 0x18) > usize::MAX {
        Some(DelDxProblem::TableSizeOverflow)
    } else if table_end_of(i32_at(d, 0x18) as int) > usize::MAX {
        Some(DelDxProblem::Overflow { label: "DelDX pack table end" })
    } else if table_end_of(i32_at(d, 0x18) as int) > d.len() {
        Some(
            DelDxProblem::TableBeyondFile {
                table_end: table_end_of(i32_at(d, 0x18) as int) as usize,
                file_size: d.len() as usize,
            },
        )
    } else {
        None
    }
}

/// What parsing pack bytes returns: the table rows, or the first problem found.
pub open spec fn parse_pack(d: Seq<u8>) -> Result<Seq<DelDxPackEntryView>, DelDxProblem> {
    if pack_prefix_problem(d) is Some {
        Err(pack_prefix_problem(d)->Some_0)
    } else {
        let count = i32_at(d, 0x18) as int;
        let te = table_end_of(count);
        match first_row_problem(d, te, count, 0) {
            Some(p) => Err(p),
            None => Ok(Seq::new(count as nat, |i: int| entry_at(d, i))),
        }
    }
}

/// Parsed DelDX sound pack with record editing methods.
#[derive(Debug, Clone)]
pub struct DelDxPack {
    path: String,
    data: Vec<u8>,
    entries: Vec<DelDxPackEntry>,
}

impl DelDxPack {
    /// The pack bytes.
    pub closed spec fn bytes(&self) -> Seq<u8> {
        self.data@
    }

    /// The logical path.
    pub closed spec fn path_view(&self) -> Seq<char> {
        self.path@
    }

    /// The parsed table rows.
    pub closed spec fn entries_spec(&self) -> Seq<DelDxPackEntryView> {
        entries_view(self.entries@)
    }

    /// The pack's rows are the parse of its bytes.
    pub closed spec fn wf(&self) -> bool {
        parse_pack(self.data@) == Ok::<Seq<DelDxPackEntryView>, DelDxProblem>(
            entries_view(self.entries@),
        )
    }

    /// Parses a pack from bytes while keeping its logical path.
    pub fn from_bytes(path: String, data: Vec<u8>) -> (r: Result<Self, DelDxPackError>)
        ensures
            match r {
                Ok(p) => p.wf() && p.bytes() == data@ && p.path_view() == path@ && parse_pack(
                    data@,
                ) == Ok::<Seq<DelDxPackEntryView>, DelDxProblem>(p.entries_spec()),
                Err(e) => parse_pack(data@) is Err && is_invalid_archive(e, path@, parse_pack(data@)->Err_0),
            },
    {
        match parse_rows(&data) {
            Ok(entries) => Ok(DelDxPack { path, data, entries }),
            Err(problem) => Err(DelDxPackError::InvalidArchive { path, problem }),
        }
    }
}

/// The table rows of pack bytes, or the first problem found.
fn parse_rows(data: &Vec<u8>) -> (r: Result<Vec<DelDxPackEntry>, DelDxProblem>)
    ensures
        match r {
            Ok(entries) => parse_pack(data@) == Ok::<Seq<DelDxPackEntryView>, DelDxProblem>(entries_view(entries@)),
            Err(p) => parse_pack(data@) == Err::<Seq<DelDxPackEntryView>, DelDxProblem>(p),
        },
    {
        if data.len() < DELDX_PACK_HEADER_LEN {
            return Err(DelDxProblem::ShorterThanHeader);
        }
        match validate_pack_header(&data[0..DELDX_PACK_HEADER_LEN]) {
            Ok(()) => {},
            Err(problem) => return Err(problem),
        }
        let count = read_i32_le_at(&data, PACK_COUNT_OFFSET);
        if count < 0 {
            return Err(
                DelDxProblem::NegativeFileCount { count },
            );
        }
        let count = count as usize;
        let table_end = match pack_table_end(count) {
            Ok(t) => t,
            Err(problem) => return Err(problem),
        };
        if table_end > data.len() {
            return Err(
                DelDxProblem::TableBeyondFile { table_end, file_size: data.len() },
            );
        }
        let mut entries: Vec<DelDxPackEntry> = Vec::with_capacity(count);
        let mut index: usize = 0;
        while index < count
            invariant
                index <= count,
                count == i32_at(data@, 0x18),
                pack_prefix_problem(data@) is None,
                table_end == table_end_of(count as int),
                table_end <= data@.len(),
                first_row_problem(data@, table_end as int, count as int, 0) == first_row_problem(
                    data@,
                    table_end as int,
                    count as int,
                    index as int,
                ),
                entries_view(entries@) =~= Seq::new(index as nat, |i: int| entry_at(data@, i)),
            decreases count - index,
        {
            let row_start = DELDX_PACK_HEADER_LEN + index * DELDX_PACK_ROW_LEN;
            assert(row_start + 76 <= table_end) by (nonlinear_arith)
                requires
                    row_start == 28 + 76 * index,
                    index < count,
                    table_end == 28 + 76 * count,
            ;
            let name_len = data[row_start] as usize;
            if name_len >= DELDX_PACK_ROW_PREFIX_LEN {
                return Err(
                    DelDxProblem::RowNameTooLong { name_len },
                );
            }
            let data_offset = read_u32_le_at(&data, row_start + PACK_DATA_OFFSET) as usize;
            let data_size = read_u32_le_at(&data, row_start + PACK_DATA_SIZE) as usize;
            if data_offset > data.len() {
                return Err(
                    DelDxProblem::DataOffsetBeyondFile {
                            index,
                            offset: data_offset,
                    },
                );
            }
            if data_size > 0 && data_offset < table_end {
                return Err(
                    DelDxProblem::PointsIntoTable { index },
                );
            }
            if data_size > usize::MAX - data_offset {
                return Err(
                    DelDxProblem::PayloadEndOverflow { index },
                );
            }
            if data_offset + data_size > data.len() {
                return Err(
                    DelDxProblem::DataEndsBeyondFile { index },
                );
            }
            let row_prefix = copy_range(&data, row_start, DELDX_PACK_ROW_PREFIX_LEN);
            let name_bytes = copy_range(&data, row_start + 1, name_len);
            let key = derive_row_key(&name_bytes, index);
            let name = lossy_string(&name_bytes);
            let ghost old_entries = entries@;
            entries.push(
                DelDxPackEntry {
                    index,
                    name,
                    name_bytes,
                    key,
                    row_prefix,
                    data_offset,
                    data_size,
                },
            );
            proof {
                assert(entries_view(old_entries).len() == index);
                assert forall|i: int| 0 <= i < index + 1 implies #[trigger] entries_view(
                    entries@,
                )[i] == entry_at(data@, i) by {
                    if i < index {
                        assert(entries@[i] == old_entries[i]);
                        assert(entries_view(old_entries)[i] == entry_at(data@, i));
                    }
                }
            }
            index = index + 1;
        }
        proof {
            lemma_first_row_problem_end(data@, table_end as int, count as int);
        }
        Ok(entries)
    }


/// Record input for pack rebuilds and writes.
#[derive(Debug, Clone, PartialEq, Eq)]
pub struct DelDxPackWriteEntry {
    pub row_prefix: Vec<u8>,
    pub data: Vec<u8>,
}

/// The mathematical content of a write entry.
pub struct DelDxPackWriteEntryView {
    pub row_prefix: Seq<u8>,
    pub data: Seq<u8>,
}

impl View for DelDxPackWriteEntry {
    type V = DelDxPackWriteEntryView;

    open spec fn view(&self) -> DelDxPackWriteEntryView {
        DelDxPackWriteEntryView { row_prefix: self.row_prefix@, data: self.data@ }
    }
}

/// The views of a list of write entries.
pub open spec fn write_entries_view(es: Seq<DelDxPackWriteEntry>) -> Seq<DelDxPackWriteEntryView> {
    Seq::new(es.len(), |i: int| es[i]@)
}

impl DelDxPackWriteEntry {
    /// A write entry with the given row prefix and payload.
    pub fn new(row_prefix: Vec<u8>, data: Vec<u8>) -> (r: Self)
        ensures
            r.row_prefix@ == row_prefix@,
            r.data@ == data@,
    {
        DelDxPackWriteEntry { row_prefix, data }
    }
}

/// Pack-wide settings used when rebuilding pack bytes.
#[derive(Debug, Clone, Copy)]
pub struct DelDxPackWriteOptions {
    pub header: [u8; 28],
}

/// A header with its reserved bytes `0x11..0x14` set to zero.
pub open spec fn normalize_header(h: Seq<u8>) -> Seq<u8> {
    h.update(17, 0).update(18, 0).update(19, 0)
}

/// Return pack header bytes in the canonical form, with the reserved bytes
/// `0x11..0x14` zeroed; the client loader ignores them.
pub fn normalize_deldx_pack_header_for_write(header: [u8; 28]) -> (r: [u8; 28])
    ensures
        r@ == normalize_header(header@),
{
    let mut out = header;
    out[17] = 0;
    out[18] = 0;
    out[19] = 0;
    out
}

impl DelDxPackWriteOptions {
    /// Options whose header is normalized.
    pub fn new(header: [u8; 28]) -> (r: Self)
        ensures
            r.header@ == normalize_header(header@),
    {
        DelDxPackWriteOptions { header: normalize_deldx_pack_header_for_write(header) }
    }
}

/// The payload bytes of the first `k` write entries, in order.
pub open spec fn payload_bytes(es: Seq<DelDxPackWriteEntryView>, k: int) -> Seq<u8>
    decreases k,
{
    if k <= 0 {
        Seq::empty()
    } else {
        payload_bytes(es, k - 1) + es[k - 1].data
    }
}

/// The offset at which the payload of write entry `k` is stored.
pub open spec fn payload_offset(es: Seq<DelDxPackWriteEntryView>, k: int) -> int {
    table_end_of(es.len() as int) + payload_bytes(es, k).len()
}

/// The table row written for entry `k`.
pub open spec fn written_row(es: Seq<DelDxPackWriteEntryView>, k: int) -> Seq<u8> {
    es[k].row_prefix + u32_le_bytes(payload_offset(es, k) as u32) + u32_le_bytes(
        es[k].data.len() as u32,
    )
}

/// The table rows written for the first `k` entries.
pub open spec fn written_rows(es: Seq<DelDxPackWriteEntryView>, k: int) -> Seq<u8>
    decreases k,
{
    if k <= 0 {
        Seq::empty()
    } else {
        written_rows(es, k - 1) + written_row(es, k - 1)
    }
}

/// The header written for a pack of `n` rows.
pub open spec fn written_header(header: Seq<u8>, n: int) -> Seq<u8> {
    normalize_header(header).subrange(0, 24) + i32_le_bytes(n as i32)
}

/// The bytes of a pack rebuilt from a header and write entries.
#[verifier::opaque]
pub open spec fn written_pack(header: Seq<u8>, es: Seq<DelDxPackWriteEntryView>) -> Seq<u8> {
    written_header(header, es.len() as int) + written_rows(es, es.len() as int) + payload_bytes(
        es,
        es.len() as int,
    )
}

/// What is wrong with write entry `k`, if anything.
pub open spec fn write_entry_problem(es: Seq<DelDxPackWriteEntryView>, k: int) -> Option<
    DelDxPackError,
> {
    if es[k].row_prefix.len() != 68 {
        Some(
            DelDxPackError::InvalidWriteEntry {
                index: k as usize,
                problem: DelDxProblem::RowPrefixWrongLength {
                    actual: es[k].row_prefix.len() as usize,
                },
            },
        )
    } else if es[k].row_prefix[0] >= 68 {
        Some(
            DelDxPackError::InvalidWriteEntry {
                index: k as usize,
                problem: DelDxProblem::RowNameTooLong { name_len: es[k].row_prefix[0] as usize },
            },
        )
    } else if es[k].data.len() > u32::MAX {
        Some(
            DelDxPackError::EntryTooLarge { index: k as usize, size: es[k].data.len() as usize },
        )
    } else if payload_offset(es, k) > u32::MAX {
        Some(DelDxPackError::InvalidWriteEntry { index: k as usize, problem: DelDxProblem::PackTooLarge })
    } else {
        None
    }
}

/// The problem of the first faulty write entry at or after `k`.
pub open spec fn first_write_entry_problem(es: Seq<DelDxPackWriteEntryView>, k: int) -> Option<
    DelDxPackError,
>
    decreases es.len() - k,
{
    if k >= es.len() {
        None
    } else {
        match write_entry_problem(es, k) {
            Some(p) => Some(p),
            None => first_write_entry_problem(es, k + 1),
        }
    }
}

/// What is wrong with a write request, if anything.
pub open spec fn write_problem(header: Seq<u8>, es: Seq<DelDxPackWriteEntryView>) -> Option<
    DelDxPackError,
> {
    if header_problem(header) is Some {
        Some(DelDxPackError::InvalidWriteOptions { problem: header_problem(header)->Some_0 })
    } else if es.len() > i32::MAX {
        Some(DelDxPackError::TooManyEntries { count: es.len() as usize })
    } else if 76 * es.len() > usize::MAX {
        Some(DelDxPackError::InvalidWriteOptions { problem: DelDxProblem::TableSizeOverflow })
    } else if table_end_of(es.len() as int) > usize::MAX {
        Some(
            DelDxPackError::InvalidWriteOptions {
                problem: DelDxProblem::Overflow { label: "DelDX pack table end" },
            },
        )
    } else {
        first_write_entry_problem(es, 0)
    }
}

/// Rebuild pack bytes from record inputs.
pub fn write_deldx_pack_bytes(entries: &[DelDxPackWriteEntry], options: &DelDxPackWriteOptions) -> (r:
    Result<Vec<u8>, DelDxPackError>)
    ensures
        match r {
            Ok(out) => write_problem(options.header@, write_entries_view(entries@)) is None
                && out@ == written_pack(options.header@, write_entries_view(entries@)),
            Err(e) => write_problem(options.header@, write_entries_view(entries@)) == Some(e),
        },
{
    let ghost es = write_entries_view(entries@);
    match validate_pack_header(&options.header) {
        Ok(()) => {},
        Err(problem) => return Err(DelDxPackError::InvalidWriteOptions { problem }),
    }
    let n = entries.len();
    if n > 0x7fff_ffff {
        return Err(DelDxPackError::TooManyEntries { count: n });
    }
    let table_end = match pack_table_end(n) {
        Ok(t) => t,
        Err(problem) => return Err(DelDxPackError::InvalidWriteOptions { problem }),
    };
    let header = normalize_deldx_pack_header_for_write(options.header);
    let mut table: Vec<u8> = Vec::new();
    let mut j: usize = 0;
    while j < 24
        invariant
            j <= 24,
            header@.len() == 28,
            table@ == header@.subrange(0, j as int),
        decreases 24 - j,
    {
        table.push(header[j]);
        j = j + 1;
        assert(table@ =~= header@.subrange(0, j as int));
    }
    push_i32_le(&mut table, n as i32);
    let mut payload: Vec<u8> = Vec::new();
    let mut k: usize = 0;
    while k < n
        invariant
            k <= n,
            n == es.len(),
            n <= 0x7fff_ffff,
            es == write_entries_view(entries@),
            table_end == table_end_of(n as int),
            table_end <= usize::MAX,
            header_problem(options.header@) is None,
            header@ == normalize_header(options.header@),
            table@ == written_header(options.header@, n as int) + written_rows(es, k as int),
            payload@ == payload_bytes(es, k as int),
            first_write_entry_problem(es, 0) == first_write_entry_problem(es, k as int),
        decreases n - k,
    {
        let entry = &entries[k];
        assert(entry@ == es[k as int]);
        if entry.row_prefix.len() != DELDX_PACK_ROW_PREFIX_LEN {
            return Err(
                DelDxPackError::InvalidWriteEntry {
                    index: k,
                    problem: DelDxProblem::RowPrefixWrongLength { actual: entry.row_prefix.len() },
                },
            );
        }
        let name_len = entry.row_prefix[0] as usize;
        if name_len >= DELDX_PACK_ROW_PREFIX_LEN {
            return Err(
                DelDxPackError::InvalidWriteEntry {
                    index: k,
                    problem: DelDxProblem::RowNameTooLong { name_len },
                },
            );
        }
        if entry.data.len() > 0xffff_ffff {
            return Err(DelDxPackError::EntryTooLarge { index: k, size: entry.data.len() });
        }
        if payload.len() > 0xffff_ffff || table_end > 0xffff_ffff - payload.len() {
            return Err(
                DelDxPackError::InvalidWriteEntry { index: k, problem: DelDxProblem::PackTooLarge },
            );
        }
        let data_offset = (table_end + payload.len()) as u32;
        assert(data_offset == payload_offset(es, k as int));
        extend_bytes(&mut table, entry.row_prefix.as_slice());
        push_u32_le(&mut table, data_offset);
        push_u32_le(&mut table, entry.data.len() as u32);
        extend_bytes(&mut payload, entry.data.as_slice());
        proof {
            assert(written_rows(es, k + 1) == written_rows(es, k as int) + written_row(
                es,
                k as int,
            ));
            assert(payload_bytes(es, k + 1) == payload_bytes(es, k as int) + es[k as int].data);
            assert(table@ =~= written_header(options.header@, n as int) + written_rows(
                es,
                k + 1,
            ));
        }
        k = k + 1;
    }
    let mut out = table;
    extend_bytes(&mut out, payload.as_slice());
    assert(out@ =~= written_pack(options.header@, es)) by {
        reveal(written_pack);
    }
    assert(out@.len() == out.len());
    proof {
        lemma_write_parses(options.header@, es);
    }
    match DelDxPack::from_bytes(String::new(), bytes_to_vec(out.as_slice())) {
        Ok(_) => {},
        Err(e) => return Err(e),
    }
    Ok(out)
}

/// The parsed view of the row written for write entry `k`.
pub open spec fn written_entry_view(es: Seq<DelDxPackWriteEntryView>, k: int) -> DelDxPackEntryView {
    let prefix = es[k].row_prefix;
    let name = prefix.subrange(1, 1 + prefix[0]);
    DelDxPackEntryView {
        index: k as usize,
        name: utf8_lossy(name),
        name_bytes: name,
        key: derive_key(name, k as usize),
        row_prefix: prefix,
        data_offset: payload_offset(es, k) as usize,
        data_size: es[k].data.len() as usize,
    }
}

proof fn lemma_payload_bytes_len(es: Seq<DelDxPackWriteEntryView>, k: int)
    requires
        0 <= k <= es.len(),
    ensures
        forall|j: int| 0 <= j <= k ==> #[trigger] payload_bytes(es, j).len() <= payload_bytes(
            es,
            k,
        ).len(),
        forall|j: int|
            0 <= j < k ==> #[trigger] payload_bytes(es, k).subrange(
                payload_bytes(es, j).len() as int,
                (payload_bytes(es, j).len() + es[j].data.len()) as int,
            ) == es[j].data,
    decreases k,
{
    if k > 0 {
        lemma_payload_bytes_len(es, k - 1);
        let prev = payload_bytes(es, k - 1);
        let all = payload_bytes(es, k);
        assert forall|j: int| 0 <= j < k implies #[trigger] all.subrange(
            payload_bytes(es, j).len() as int,
            (payload_bytes(es, j).len() + es[j].data.len()) as int,
        ) == es[j].data by {
            if j < k - 1 {
                assert(payload_bytes(es, j + 1).len() <= prev.len());
                assert(payload_bytes(es, j + 1) == payload_bytes(es, j) + es[j].data);
                assert(all.subrange(
                    payload_bytes(es, j).len() as int,
                    (payload_bytes(es, j).len() + es[j].data.len()) as int,
                ) =~= prev.subrange(
                    payload_bytes(es, j).len() as int,
                    (payload_bytes(es, j).len() + es[j].data.len()) as int,
                ));
            } else {
                assert(all.subrange(prev.len() as int, (prev.len() + es[j].data.len()) as int)
                    =~= es[j].data);
            }
        }
    }
}

proof fn lemma_written_rows(es: Seq<DelDxPackWriteEntryView>, k: int)
    requires
        0 <= k <= es.len(),
        forall|j: int| 0 <= j < es.len() ==> (#[trigger] es[j]).row_prefix.len() == 68,
    ensures
        written_rows(es, k).len() == 76 * k,
        forall|j: int|
            0 <= j < k ==> #[trigger] written_rows(es, k).subrange(76 * j, 76 * j + 76)
                == written_row(es, j),
    decreases k,
{
    if k > 0 {
        lemma_written_rows(es, k - 1);
        lemma_u32_round_trip(payload_offset(es, k - 1) as u32);
        lemma_u32_round_trip(es[k - 1].data.len() as u32);
        let prev = written_rows(es, k - 1);
        let all = written_rows(es, k);
        assert(written_row(es, k - 1).len() == 76);
        assert forall|j: int| 0 <= j < k implies #[trigger] all.subrange(76 * j, 76 * j + 76)
            == written_row(es, j) by {
            if j < k - 1 {
                assert(76 * j + 76 <= 76 * (k - 1)) by (nonlinear_arith)
                    requires
                        j < k - 1,
                ;
                assert(all.subrange(76 * j, 76 * j + 76) =~= prev.subrange(76 * j, 76 * j + 76));
            } else {
                assert(all.subrange(76 * j, 76 * j + 76) =~= written_row(es, j));
            }
        }
    }
}

proof fn lemma_written_header(header: Seq<u8>, n: int)
    requires
        header.len() == 28,
        header_problem(header) is None,
        0 <= n <= i32::MAX,
    ensures
        written_header(header, n).len() == 28,
        header_problem(written_header(header, n)) is None,
        i32_at(written_header(header, n), 0x18) == n,
{
    lemma_i32_round_trip(n as i32);
    let wh = written_header(header, n);
    assert(wh.subrange(0, 24) =~= header.subrange(0, 24).update(17, 0).update(18, 0).update(
        19,
        0,
    ));
    assert(wh.subrange(1, 17) =~= header.subrange(1, 17));
    assert(wh.subrange(20, 24) =~= header.subrange(20, 24));
    assert(wh.subrange(24, 28) =~= i32_le_bytes(n as i32));
}

proof fn lemma_written_pack_layout(header: Seq<u8>, es: Seq<DelDxPackWriteEntryView>)
    requires
        write_problem(header, es) is None,
        header.len() == 28,
    ensures
        written_pack(header, es).len() == table_end_of(es.len() as int) + payload_bytes(
            es,
            es.len() as int,
        ).len(),
        pack_prefix_problem(written_pack(header, es)) is None,
        i32_at(written_pack(header, es), 0x18) == es.len(),
        forall|k: int|
            0 <= k < es.len() ==> #[trigger] written_pack(header, es).subrange(
                row_start(k),
                row_start(k) + 76,
            ) == written_row(es, k),
        forall|k: int|
            0 <= k < es.len() ==> #[trigger] written_pack(header, es).subrange(
                payload_offset(es, k),
                payload_offset(es, k) + es[k].data.len(),
            ) == es[k].data,
{
    let n = es.len() as int;
    let d = written_pack(header, es);
    reveal(written_pack);
    lemma_first_write_entry_ok(es, 0);
    assert forall|j: int| 0 <= j < es.len() implies (#[trigger] es[j]).row_prefix.len() == 68 by {
        assert(write_entry_problem(es, j) is None);
    }
    lemma_written_rows(es, n);
    lemma_payload_bytes_len(es, n);
    lemma_written_header(header, n);
    let wh = written_header(header, n);
    let rows = written_rows(es, n);
    let pl = payload_bytes(es, n);
    assert(d.subrange(0, 28) =~= wh);
    assert(d.subrange(24, 28) =~= wh.subrange(24, 28));
    assert forall|k: int| 0 <= k < n implies #[trigger] d.subrange(
        row_start(k),
        row_start(k) + 76,
    ) == written_row(es, k) by {
        assert(76 * k + 76 <= 76 * n) by (nonlinear_arith)
            requires
                k < n,
        ;
        assert(d.subrange(row_start(k), row_start(k) + 76) =~= rows.subrange(76 * k, 76 * k + 76));
    }
    assert forall|k: int| 0 <= k < n implies #[trigger] d.subrange(
        payload_offset(es, k),
        payload_offset(es, k) + es[k].data.len(),
    ) == es[k].data by {
        assert(payload_bytes(es, k + 1) == payload_bytes(es, k) + es[k].data);
        assert(payload_bytes(es, k + 1).len() <= pl.len());
        assert(d.subrange(payload_offset(es, k), payload_offset(es, k) + es[k].data.len())
            =~= pl.subrange(
            payload_bytes(es, k).len() as int,
            (payload_bytes(es, k).len() + es[k].data.len()) as int,
        ));
    }
}

proof fn lemma_row_fields(d: Seq<u8>, r: int, es: Seq<DelDxPackWriteEntryView>, k: int)
    requires
        0 <= k < es.len(),
        0 <= r,
        r + 76 <= d.len(),
        d.subrange(r, r + 76) == written_row(es, k),
        es[k].row_prefix.len() == 68,
        es[k].data.len() <= u32::MAX,
        0 <= payload_offset(es, k) <= u32::MAX,
    ensures
        d[r] == es[k].row_prefix[0],
        u32_at(d, r + 0x44) == payload_offset(es, k),
        u32_at(d, r + 0x48) == es[k].data.len(),
        d.subrange(r, r + 68) == es[k].row_prefix,
        d[r] < 68 ==> d.subrange(r + 1, r + 1 + d[r]) == es[k].row_prefix.subrange(
            1,
            1 + es[k].row_prefix[0],
        ),
{
    let row = d.subrange(r, r + 76);
    lemma_u32_round_trip(payload_offset(es, k) as u32);
    lemma_u32_round_trip(es[k].data.len() as u32);
    assert(d[r] == row[0]);
    assert(d.subrange(r + 0x44, r + 0x48) =~= row.subrange(68, 72));
    assert(row.subrange(68, 72) =~= u32_le_bytes(payload_offset(es, k) as u32));
    assert(d.subrange(r + 0x48, r + 0x4c) =~= row.subrange(72, 76));
    assert(row.subrange(72, 76) =~= u32_le_bytes(es[k].data.len() as u32));
    assert(d.subrange(r, r + 68) =~= es[k].row_prefix);
    if d[r] < 68 {
        assert(d.subrange(r + 1, r + 1 + d[r]) =~= es[k].row_prefix.subrange(
            1,
            1 + es[k].row_prefix[0],
        ));
    }
}

proof fn lemma_written_row_parses(header: Seq<u8>, es: Seq<DelDxPackWriteEntryView>, k: int)
    requires
        write_problem(header, es) is None,
        header.len() == 28,
        0 <= k < es.len(),
        written_pack(header, es).len() == table_end_of(es.len() as int) + payload_bytes(
            es,
            es.len() as int,
        ).len(),
        written_pack(header, es).subrange(row_start(k), row_start(k) + 76) == written_row(es, k),
        payload_bytes(es, k + 1).len() <= payload_bytes(es, es.len() as int).len(),
        written_pack(header, es).len() <= usize::MAX,
    ensures
        row_problem(written_pack(header, es), table_end_of(es.len() as int), k) is None,
        entry_at(written_pack(header, es), k) == written_entry_view(es, k),
{
    let n = es.len() as int;
    let d = written_pack(header, es);
    lemma_first_write_entry_ok(es, 0);
    assert(write_entry_problem(es, k) is None);
    assert(row_start(k) + 76 <= table_end_of(n)) by (nonlinear_arith)
        requires
            k < n,
    ;
    lemma_row_fields(d, row_start(k), es, k);
    assert(payload_bytes(es, k + 1) == payload_bytes(es, k) + es[k].data);
    let off = payload_offset(es, k);
    let size = es[k].data.len();
    assert(off + size <= d.len());
    assert(u32_at(d, row_start(k) + 0x44) as int == off);
    assert(u32_at(d, row_start(k) + 0x48) as int == size);
}

proof fn lemma_written_rows_parse(header: Seq<u8>, es: Seq<DelDxPackWriteEntryView>)
    requires
        write_problem(header, es) is None,
        header.len() == 28,
        written_pack(header, es).len() <= usize::MAX,
    ensures
        forall|k: int|
            0 <= k < es.len() ==> #[trigger] row_problem(
                written_pack(header, es),
                table_end_of(es.len() as int),
                k,
            ) is None,
        forall|k: int|
            0 <= k < es.len() ==> #[trigger] entry_at(written_pack(header, es), k)
                == written_entry_view(es, k),
{
    let n = es.len() as int;
    let d = written_pack(header, es);
    lemma_written_pack_layout(header, es);
    lemma_payload_bytes_len(es, n);
    assert forall|k: int| 0 <= k < n implies #[trigger] row_problem(d, table_end_of(n), k) is None
        && entry_at(d, k) == written_entry_view(es, k) by {
        assert(d.subrange(row_start(k), row_start(k) + 76) == written_row(es, k));
        assert(payload_bytes(es, k + 1).len() <= payload_bytes(es, n).len());
        lemma_written_row_parses(header, es, k);
    }
    assert forall|k: int| 0 <= k < n implies #[trigger] entry_at(d, k) == written_entry_view(
        es,
        k,
    ) by {
        assert(row_problem(d, table_end_of(n), k) is None);
    }
}

/// A pack rebuilt from valid write entries parses back to rows holding the same row
/// prefixes, each payload stored at its written offset.
pub proof fn lemma_write_parses(header: Seq<u8>, es: Seq<DelDxPackWriteEntryView>)
    requires
        write_problem(header, es) is None,
        header.len() == 28,
        written_pack(header, es).len() <= usize::MAX,
    ensures
        parse_pack(written_pack(header, es)) == Ok::<Seq<DelDxPackEntryView>, DelDxProblem>(
            Seq::new(es.len(), |k: int| written_entry_view(es, k)),
        ),
        forall|k: int|
            0 <= k < es.len() ==> #[trigger] written_pack(header, es).subrange(
                payload_offset(es, k),
                payload_offset(es, k) + es[k].data.len(),
            ) == es[k].data,
{
    let n = es.len() as int;
    let d = written_pack(header, es);
    let te = table_end_of(n);
    lemma_written_pack_layout(header, es);
    lemma_written_rows_parse(header, es);
    lemma_rows_ok(d, te, n, 0);
    lemma_parse_pack_ok(d);
    assert(Seq::new(n as nat, |i: int| entry_at(d, i)) =~= Seq::new(
        es.len(),
        |k: int| written_entry_view(es, k),
    ));
}

proof fn lemma_parse_pack_ok(d: Seq<u8>)
    requires
        pack_prefix_problem(d) is None,
        first_row_problem(d, table_end_of(i32_at(d, 0x18) as int), i32_at(d, 0x18) as int, 0)
            is None,
    ensures
        parse_pack(d) == Ok::<Seq<DelDxPackEntryView>, DelDxProblem>(
            Seq::new(i32_at(d, 0x18) as nat, |i: int| entry_at(d, i)),
        ),
{
}

proof fn lemma_first_write_entry_ok(es: Seq<DelDxPackWriteEntryView>, k: int)
    requires
        0 <= k,
        first_write_entry_problem(es, k) is None,
    ensures
        forall|j: int| k <= j < es.len() ==> #[trigger] write_entry_problem(es, j) is None,
    decreases es.len() - k,
{
    if k < es.len() {
        lemma_first_write_entry_ok(es, k + 1);
    }
}

proof fn lemma_rows_ok(d: Seq<u8>, te: int, count: int, i: int)
    requires
        0 <= i,
        forall|k: int| i <= k < count ==> #[trigger] row_problem(d, te, k) is None,
    ensures
        first_row_problem(d, te, count, i) is None,
    decreases count - i,
{
    if i < count {
        lemma_rows_ok(d, te, count, i + 1);
    }
}

/// A decoded pack record.
#[derive(Debug, Clone, PartialEq, Eq)]
pub struct DelDxPackRecord {
    pub index: usize,
    pub name: String,
    pub name_bytes: Vec<u8>,
    pub key: i32,
    pub row_prefix: Vec<u8>,
    pub data: Vec<u8>,
}

/// The mathematical content of a decoded pack record.
pub struct DelDxPackRecordView {
    pub index: usize,
    pub name: Seq<char>,
    pub name_bytes: Seq<u8>,
    pub key: i32,
    pub row_prefix: Seq<u8>,
    pub data: Seq<u8>,
}

impl View for DelDxPackRecord {
    type V = DelDxPackRecordView;

    open spec fn view(&self) -> DelDxPackRecordView {
        DelDxPackRecordView {
            index: self.index,
            name: self.name@,
            name_bytes: self.name_bytes@,
            key: self.key,
            row_prefix: self.row_prefix@,
            data: self.data@,
        }
    }
}

/// The record of a parsed row: its metadata and the payload bytes it points at.
pub open spec fn record_of(d: Seq<u8>, e: DelDxPackEntryView) -> DelDxPackRecordView {
    DelDxPackRecordView {
        index: e.index,
        name: e.name,
        name_bytes: e.name_bytes,
        key: e.key,
        row_prefix: e.row_prefix,
        data: d.subrange(e.data_offset as int, e.data_offset + e.data_size),
    }
}

/// The write entries that rebuild the rows of a pack.
pub open spec fn write_entries_of(d: Seq<u8>, es: Seq<DelDxPackEntryView>) -> Seq<
    DelDxPackWriteEntryView,
> {
    Seq::new(
        es.len(),
        |i: int|
            DelDxPackWriteEntryView {
                row_prefix: es[i].row_prefix,
                data: d.subrange(es[i].data_offset as int, es[i].data_offset + es[i].data_size),
            },
    )
}

/// The views of a list of records.
pub open spec fn records_view(rs: Seq<DelDxPackRecord>) -> Seq<DelDxPackRecordView> {
    Seq::new(rs.len(), |i: int| rs[i]@)
}

/// Every row of a pack that parses points at a payload inside the file.
proof fn lemma_parsed_rows_in_bounds(d: Seq<u8>)
    requires
        parse_pack(d) is Ok,
    ensures
        forall|i: int|
            0 <= i < parse_pack(d)->Ok_0.len() ==> {
                let e = #[trigger] parse_pack(d)->Ok_0[i];
                &&& e == entry_at(d, i)
                &&& e.index == i
                &&& e.data_offset + e.data_size <= d.len()
                &&& e.row_prefix.len() == 68
                &&& e.row_prefix[0] < 68
            },
{
    let count = i32_at(d, 0x18) as int;
    let te = table_end_of(count);
    assert(pack_prefix_problem(d) is None);
    assert(first_row_problem(d, te, count, 0) is None);
    assert(parse_pack(d)->Ok_0 == Seq::new(count as nat, |i: int| entry_at(d, i)));
    assert forall|i: int| 0 <= i < count implies {
        let e = #[trigger] parse_pack(d)->Ok_0[i];
        &&& e == entry_at(d, i)
        &&& e.index == i
        &&& e.data_offset + e.data_size <= d.len()
        &&& e.row_prefix.len() == 68
        &&& e.row_prefix[0] < 68
    } by {
        lemma_first_row_problem_none(d, te, count, 0, i);
        assert(row_start(i) + 76 <= te) by (nonlinear_arith)
            requires
                0 <= i < count,
                te == 28 + 76 * count,
        ;
        assert(row_problem(d, te, i) is None);
    }
}

proof fn lemma_first_row_problem_none(d: Seq<u8>, te: int, count: int, i: int, j: int)
    requires
        0 <= i <= j < count,
        first_row_problem(d, te, count, i) is None,
    ensures
        row_problem(d, te, j) is None,
    decreases j - i,
{
    if i < j {
        lemma_first_row_problem_none(d, te, count, i + 1, j);
    }
}

/// Reading back a rebuilt pack gives the write entries it was rebuilt from.
pub proof fn lemma_pack_round_trip(header: Seq<u8>, es: Seq<DelDxPackWriteEntryView>)
    requires
        write_problem(header, es) is None,
        header.len() == 28,
        written_pack(header, es).len() <= usize::MAX,
    ensures
        parse_pack(written_pack(header, es)) is Ok,
        write_entries_of(written_pack(header, es), parse_pack(written_pack(header, es))->Ok_0)
            == es,
{
    lemma_write_parses(header, es);
    let d = written_pack(header, es);
    let rows = parse_pack(d)->Ok_0;
    let back = write_entries_of(d, rows);
    lemma_first_write_entry_ok(es, 0);
    assert forall|k: int| 0 <= k < es.len() implies #[trigger] back[k] == es[k] by {
        assert(write_entry_problem(es, k) is None);
        assert(rows[k] == written_entry_view(es, k));
        assert(d.subrange(payload_offset(es, k), payload_offset(es, k) + es[k].data.len())
            == es[k].data);
    }
    assert(back =~= es);
}

/// Rebuilding a pack from write entries zeroes the reserved header bytes, writes the
/// entry count, and the rebuilt bytes parse back to the same write entries, whatever the
/// reserved bytes of the header given.
#[verifier::spinoff_prover]
pub proof fn lemma_rebuild_keeps_records(header: Seq<u8>, es: Seq<DelDxPackWriteEntryView>)
    requires
        write_problem(header, es) is None,
        header.len() == 28,
        written_pack(header, es).len() <= usize::MAX,
    ensures
        written_pack(header, es).subrange(0x11, 0x14) == seq![0u8, 0u8, 0u8],
        i32_at(written_pack(header, es), 0x18) == es.len(),
        parse_pack(written_pack(header, es)) is Ok,
        write_entries_of(written_pack(header, es), parse_pack(written_pack(header, es))->Ok_0) == es,
{
    lemma_written_pack_layout(header, es);
    lemma_pack_round_trip(header, es);
    lemma_written_reserved_zero(header, es);
}

proof fn lemma_written_reserved_zero(header: Seq<u8>, es: Seq<DelDxPackWriteEntryView>)
    requires
        header.len() == 28,
    ensures
        written_pack(header, es).subrange(0x11, 0x14) == seq![0u8, 0u8, 0u8],
{
    reveal(written_pack);
    let h = written_header(header, es.len() as int);
    crate::bytes::lemma_i32_round_trip(es.len() as i32);
    assert(h.len() == 28);
    let d = written_pack(header, es);
    assert(d[0x11] == h[0x11] && d[0x12] == h[0x12] && d[0x13] == h[0x13]);
    assert(d.subrange(0x11, 0x14) =~= seq![0u8, 0u8, 0u8]);
}

impl DelDxPack {
    /// The logical path associated with this pack.
    pub fn path(&self) -> (r: &str)
        ensures
            r@ == self.path_view(),
    {
        self.path.as_str()
    }

    /// The current pack bytes.
    pub fn as_bytes(&self) -> (r: &[u8])
        ensures
            r@ == self.bytes(),
    {
        self.data.as_slice()
    }

    /// The current pack bytes, consuming the pack.
    pub fn into_bytes(self) -> (r: Vec<u8>)
        ensures
            r@ == self.bytes(),
    {
        self.data
    }

    /// The parsed header bytes; rebuilds normalize their reserved bytes.
    pub fn header(&self) -> (r: [u8; 28])
        requires
            self.wf(),
        ensures
            r@ == self.bytes().subrange(0, 28),
    {
        let mut header = [0u8;28];
        let mut i: usize = 0;
        while i < 28
            invariant
                i <= 28,
                self.data@.len() >= 28,
                header@.len() == 28,
                forall|k: int| 0 <= k < i ==> header@[k] == self.data@[k],
            decreases 28 - i,
        {
            header[i] = self.data[i];
            i = i + 1;
        }
        assert(header@ =~= self.data@.subrange(0, 28));
        header
    }

    /// The parsed table rows, without payload bytes.
    pub fn entries(&self) -> (r: &[DelDxPackEntry])
        ensures
            entries_view(r@) == self.entries_spec(),
    {
        self.entries.as_slice()
    }

    /// The payload bytes of a table row.
    pub fn read_entry_payload(&self, entry: &DelDxPackEntry) -> (r: Result<Vec<u8>, DelDxPackError>)
        ensures
            entry.data_offset + entry.data_size > usize::MAX ==> (r matches Err(e) && is_invalid_archive(
                e,
                self.path_view(),
                DelDxProblem::Overflow { label: "entry payload end" },
            )),
            entry.data_offset + entry.data_size <= usize::MAX && entry.data_offset
                + entry.data_size > self.bytes().len() ==> (r matches Err(e) && is_invalid_archive(
                e,
                self.path_view(),
                DelDxProblem::PayloadOutsideFile { index: entry.index },
            )),
            entry.data_offset + entry.data_size <= self.bytes().len() ==> r is Ok
                && r->Ok_0@ == self.bytes().subrange(
                entry.data_offset as int,
                entry.data_offset + entry.data_size,
            ),
    {
        let n = self.data.len();
        if entry.data_size > usize::MAX - entry.data_offset {
            return Err(
                DelDxPackError::InvalidArchive {
                    path: self.path.clone(),
                    problem: DelDxProblem::Overflow { label: "entry payload end" },
                },
            );
        }
        let end = entry.data_offset + entry.data_size;
        if end > self.data.len() {
            return Err(
                DelDxPackError::InvalidArchive {
                    path: self.path.clone(),
                    problem: DelDxProblem::PayloadOutsideFile { index: entry.index },
                },
            );
        }
        Ok(copy_range(self.data.as_slice(), entry.data_offset, entry.data_size))
    }

    fn record_from_entry(&self, entry: &DelDxPackEntry) -> (r: Result<DelDxPackRecord, DelDxPackError>)
        requires
            entry.data_offset + entry.data_size <= self.bytes().len(),
        ensures
            r is Ok && r->Ok_0@ == record_of(self.bytes(), entry@),
    {
        let data = self.read_entry_payload(entry)?;
        Ok(
            DelDxPackRecord {
                index: entry.index,
                name: entry.name.clone(),
                name_bytes: bytes_to_vec(entry.name_bytes.as_slice()),
                key: entry.key,
                row_prefix: bytes_to_vec(entry.row_prefix.as_slice()),
                data,
            },
        )
    }

    /// Decodes every record into editable payload bytes.
    pub fn records(&self) -> (r: Result<Vec<DelDxPackRecord>, DelDxPackError>)
        requires
            self.wf(),
        ensures
            r is Ok,
            r matches Ok(rs) ==> records_view(rs@) == Seq::new(
                self.entries_spec().len(),
                |i: int| record_of(self.bytes(), self.entries_spec()[i]),
            ),
    {
        proof {
            lemma_parsed_rows_in_bounds(self.data@);
        }
        let mut out: Vec<DelDxPackRecord> = Vec::with_capacity(self.entries.len());
        let mut i: usize = 0;
        while i < self.entries.len()
            invariant
                i <= self.entries@.len(),
                self.wf(),
                parse_pack(self.data@) is Ok,
                forall|k: int|
                    0 <= k < parse_pack(self.data@)->Ok_0.len() ==> {
                        let e = #[trigger] parse_pack(self.data@)->Ok_0[k];
                        &&& e.data_offset + e.data_size <= self.data@.len()
                    },
                records_view(out@) =~= Seq::new(
                    i as nat,
                    |k: int| record_of(self.data@, entries_view(self.entries@)[k]),
                ),
            decreases self.entries@.len() - i,
        {
            assert(entries_view(self.entries@)[i as int] == self.entries@[i as int]@);
            assert(parse_pack(self.data@)->Ok_0[i as int] == self.entries@[i as int]@);
            let rec = match self.record_from_entry(&self.entries[i]) {
                Ok(r) => r,
                Err(e) => return Err(e),
            };
            let ghost old_out = out@;
            out.push(rec);
            proof {
                assert(records_view(old_out).len() == i);
                assert forall|k: int| 0 <= k < i + 1 implies #[trigger] records_view(out@)[k]
                    == record_of(self.data@, entries_view(self.entries@)[k]) by {
                    if k < i {
                        assert(out@[k] == old_out[k]);
                        assert(records_view(old_out)[k] == record_of(
                            self.data@,
                            entries_view(self.entries@)[k],
                        ));
                    }
                }
            }
            i = i + 1;
        }
        Ok(out)
    }

    /// Decodes every record into write entries that preserve row metadata.
    pub fn write_entries(&self) -> (r: Result<Vec<DelDxPackWriteEntry>, DelDxPackError>)
        requires
            self.wf(),
        ensures
            r is Ok,
            r matches Ok(ws) ==> write_entries_view(ws@) == write_entries_of(
                self.bytes(),
                self.entries_spec(),
            ),
    {
        let records = self.records()?;
        assert(records_view(records@).len() == records@.len());
        let mut out: Vec<DelDxPackWriteEntry> = Vec::with_capacity(records.len());
        let mut i: usize = 0;
        while i < records.len()
            invariant
                i <= records@.len(),
                records@.len() == self.entries_spec().len(),
                records_view(records@) == Seq::new(
                    self.entries_spec().len(),
                    |k: int| record_of(self.bytes(), self.entries_spec()[k]),
                ),
                write_entries_view(out@) =~= write_entries_of(
                    self.bytes(),
                    self.entries_spec(),
                ).subrange(0, i as int),
            decreases records@.len() - i,
        {
            assert(records_view(records@)[i as int] == records@[i as int]@);
            let entry = DelDxPackWriteEntry {
                row_prefix: bytes_to_vec(records[i].row_prefix.as_slice()),
                data: bytes_to_vec(records[i].data.as_slice()),
            };
            let ghost old_out = out@;
            out.push(entry);
            proof {
                assert(write_entries_view(old_out).len() == i);
                assert forall|k: int| 0 <= k < i + 1 implies #[trigger] write_entries_view(out@)[k]
                    == write_entries_of(self.bytes(), self.entries_spec())[k] by {
                    if k < i {
                        assert(out@[k] == old_out[k]);
                        assert(write_entries_view(old_out)[k] == write_entries_of(
                            self.bytes(),
                            self.entries_spec(),
                        )[k]);
                    }
                }
            }
            i = i + 1;
        }
        Ok(out)
    }

    /// Parses a pack from bytes without an on-disk path.
    pub fn from_memory(data: Vec<u8>) -> (r: Result<Self, DelDxPackError>)
        ensures
            match r {
                Ok(p) => p.wf() && p.bytes() == data@ && p.path_view() == "<memory>"@ && parse_pack(
                    data@,
                ) == Ok::<Seq<DelDxPackEntryView>, DelDxProblem>(p.entries_spec()),
                Err(e) => parse_pack(data@) is Err && is_invalid_archive(e, "<memory>"@, parse_pack(data@)->Err_0),
            },
    {
        Self::from_bytes(String::from_str("<memory>"), data)
    }

    /// Builds a new pack from record inputs.
    pub fn from_entries(path: String, entries: Vec<DelDxPackWriteEntry>, options: &DelDxPackWriteOptions) -> (r:
        Result<Self, DelDxPackError>)
        ensures
            match r {
                Ok(p) => write_problem(options.header@, write_entries_view(entries@)) is None
                    && p.wf() && p.path_view() == path@ && p.bytes() == written_pack(
                    options.header@,
                    write_entries_view(entries@),
                ) && write_entries_of(p.bytes(), p.entries_spec()) == write_entries_view(
                    entries@,
                ) && p.entries_spec() == Seq::new(
                    entries@.len(),
                    |k: int| written_entry_view(write_entries_view(entries@), k),
                ),
                Err(e) => write_problem(options.header@, write_entries_view(entries@)) == Some(
                    e,
                ),
            },
    {
        let data = write_deldx_pack_bytes(entries.as_slice(), options)?;
        proof {
            assert(data@.len() == data.len());
            lemma_pack_round_trip(options.header@, write_entries_view(entries@));
            lemma_write_parses(options.header@, write_entries_view(entries@));
        }
        Self::from_bytes(path, data)
    }

    /// Builds an empty pack.
    pub fn empty(path: String, options: &DelDxPackWriteOptions) -> (r: Result<Self, DelDxPackError>)
        ensures
            match r {
                Ok(p) => write_problem(options.header@, Seq::empty()) is None && p.wf()
                    && p.path_view() == path@ && p.bytes() == written_pack(
                    options.header@,
                    Seq::empty(),
                ) && p.entries_spec().len() == 0,
                Err(e) => write_problem(options.header@, Seq::empty()) == Some(e),
            },
    {
        let entries: Vec<DelDxPackWriteEntry> = Vec::new();
        assert(write_entries_view(entries@) =~= Seq::empty());
        let r = Self::from_entries(path, entries, options);
        proof {
            if r is Ok {
                assert(write_entries_of(r->Ok_0.bytes(), r->Ok_0.entries_spec()).len() == 0);
            }
        }
        r
    }

    /// Rebuilds pack bytes with the given options.
    pub fn to_bytes_with_options(&self, options: &DelDxPackWriteOptions) -> (r: Result<
        Vec<u8>,
        DelDxPackError,
    >)
        requires
            self.wf(),
        ensures
            match r {
                Ok(out) => write_problem(
                    options.header@,
                    write_entries_of(self.bytes(), self.entries_spec()),
                ) is None && out@ == written_pack(
                    options.header@,
                    write_entries_of(self.bytes(), self.entries_spec()),
                ),
                Err(e) => write_problem(
                    options.header@,
                    write_entries_of(self.bytes(), self.entries_spec()),
                ) == Some(e),
            },
    {
        let entries = self.write_entries()?;
        write_deldx_pack_bytes(entries.as_slice(), options)
    }

    /// Replaces the whole pack with a new set of record inputs; on error the pack is unchanged.
    pub fn rebuild_from_entries(&mut self, entries: Vec<DelDxPackWriteEntry>, options: &DelDxPackWriteOptions) -> (r:
        Result<(), DelDxPackError>)
        ensures
            match r {
                Ok(()) => write_problem(options.header@, write_entries_view(entries@)) is None
                    && final(self).wf() && final(self).path_view() == old(self).path_view()
                    && final(self).bytes() == written_pack(
                    options.header@,
                    write_entries_view(entries@),
                ) && write_entries_of(final(self).bytes(), final(self).entries_spec())
                    == write_entries_view(entries@) && final(self).entries_spec() == Seq::new(
                    entries@.len(),
                    |k: int| written_entry_view(write_entries_view(entries@), k),
                ),
                Err(e) => write_problem(options.header@, write_entries_view(entries@)) == Some(e)
                    && *final(self) == *old(self),
            },
    {
        let path = self.path.clone();
        let rebuilt = Self::from_entries(path, entries, options)?;
        *self = rebuilt;
        Ok(())
    }

    /// Appends a record and rebuilds the pack; returns the new record's index.
    pub fn push_record(&mut self, record: DelDxPackWriteEntry, options: &DelDxPackWriteOptions) -> (r:
        Result<usize, DelDxPackError>)
        requires
            old(self).wf(),
        ensures
            ({
                let before = write_entries_of(old(self).bytes(), old(self).entries_spec());
                let after = before.push(record@);
                match r {
                    Ok(index) => index == before.len() && write_problem(options.header@, after)
                        is None && final(self).wf() && final(self).path_view() == old(self).path_view() && final(self).bytes() == written_pack(options.header@, after)
                        && write_entries_of(final(self).bytes(), final(self).entries_spec())
                        == after,
                    Err(e) => write_problem(options.header@, after) == Some(e) && *final(self)
                        == *old(self),
                }
            }),
    {
        let mut records = self.write_entries()?;
        let index = records.len();
        let ghost before = write_entries_view(records@);
        records.push(record);
        assert(write_entries_view(records@) =~= before.push(record@));
        self.rebuild_from_entries(records, options)?;
        Ok(index)
    }

    /// Inserts a record at a table index and rebuilds the pack.
    pub fn insert_record(&mut self, index: usize, record: DelDxPackWriteEntry, options: &DelDxPackWriteOptions) -> (r:
        Result<(), DelDxPackError>)
        requires
            old(self).wf(),
        ensures
            ({
                let before = write_entries_of(old(self).bytes(), old(self).entries_spec());
                let after = before.insert(index as int, record@);
                if index > before.len() {
                    (r matches Err(e) && is_index_error(e, old(self).path_view(), index, before.len() as usize)) && *final(self) == *old(self)
                } else {
                    match r {
                        Ok(()) => write_problem(options.header@, after) is None && final(self).wf()
                            && final(self).path_view() == old(self).path_view() && final(self).bytes() == written_pack(options.header@, after) && write_entries_of(
                            final(self).bytes(),
                            final(self).entries_spec(),
                        ) == after,
                        Err(e) => write_problem(options.header@, after) == Some(e) && *final(self)
                            == *old(self),
                    }
                }
            }),
    {
        let mut records = self.write_entries()?;
        if index > records.len() {
            return Err(DelDxPackError::RecordIndexOutOfBounds { path: self.path.clone(), index, count: records.len() });
        }
        let ghost before = write_entries_view(records@);
        records.insert(index, record);
        assert(write_entries_view(records@) =~= before.insert(index as int, record@));
        self.rebuild_from_entries(records, options)
    }

    pub(crate) fn record_at(&self, index: usize) -> (r: Result<DelDxPackRecord, DelDxPackError>)
        requires
            self.wf(),
        ensures
            index >= self.entries_spec().len() ==> (r matches Err(e) && is_index_error(e, self.path_view(), index, self.entries_spec().len() as usize)),
            index < self.entries_spec().len() ==> r is Ok && r->Ok_0@ == record_of(
                self.bytes(),
                self.entries_spec()[index as int],
            ),
    {
        if index >= self.entries.len() {
            return Err(
                DelDxPackError::RecordIndexOutOfBounds { path: self.path.clone(), index, count: self.entries.len() },
            );
        }
        proof {
            lemma_parsed_rows_in_bounds(self.data@);
            assert(parse_pack(self.data@)->Ok_0[index as int] == self.entries@[index as int]@);
        }
        self.record_from_entry(&self.entries[index])
    }

    /// Replaces a record by table index and rebuilds the pack; returns the replaced record.
    #[verifier::spinoff_prover]
    #[verifier::rlimit(40)]
    pub fn replace_record_at(&mut self, index: usize, record: DelDxPackWriteEntry, options: &DelDxPackWriteOptions) -> (r:
        Result<DelDxPackRecord, DelDxPackError>)
        requires
            old(self).wf(),
        ensures
            ({
                let before = write_entries_of(old(self).bytes(), old(self).entries_spec());
                let after = before.update(index as int, record@);
                if index >= before.len() {
                    (r matches Err(e) && is_index_error(e, old(self).path_view(), index, before.len() as usize)) && *final(self) == *old(self)
                } else {
                    match r {
                        Ok(old_record) => old_record@ == record_of(
                            old(self).bytes(),
                            old(self).entries_spec()[index as int],
                        ) && write_problem(options.header@, after) is None && final(self).wf()
                            && final(self).path_view() == old(self).path_view() && final(self).bytes() == written_pack(options.header@, after) && write_entries_of(
                            final(self).bytes(),
                            final(self).entries_spec(),
                        ) == after && final(self).entries_spec().len() == before.len()
                            && final(self).entries_spec()[index as int].data_size == record@.data.len(),
                        Err(e) => write_problem(options.header@, after) == Some(e) && *final(self)
                            == *old(self),
                    }
                }
            }),
    {
        let mut records = self.write_entries()?;
        if index >= records.len() {
            return Err(DelDxPackError::RecordIndexOutOfBounds { path: self.path.clone(), index, count: records.len() });
        }
        let old_record = self.record_at(index)?;
        let ghost before = write_entries_view(records@);
        assert(record@.data.len() == record.data.len());
        records.set(index, record);
        assert(write_entries_view(records@) =~= before.update(index as int, record@));
        let ghost after = write_entries_view(records@);
        self.rebuild_from_entries(records, options)?;
        assert(self.entries_spec()[index as int] == written_entry_view(after, index as int));
        assert(after[index as int] == record@);
        assert(self.entries_spec().len() == after.len());
        Ok(old_record)
    }

    /// Removes a record by table index and rebuilds the pack; returns the removed record.
    pub fn remove_record_at(&mut self, index: usize, options: &DelDxPackWriteOptions) -> (r: Result<
        DelDxPackRecord,
        DelDxPackError,
    >)
        requires
            old(self).wf(),
        ensures
            ({
                let before = write_entries_of(old(self).bytes(), old(self).entries_spec());
                let after = before.remove(index as int);
                if index >= before.len() {
                    (r matches Err(e) && is_index_error(e, old(self).path_view(), index, before.len() as usize)) && *final(self) == *old(self)
                } else {
                    match r {
                        Ok(old_record) => old_record@ == record_of(
                            old(self).bytes(),
                            old(self).entries_spec()[index as int],
                        ) && write_problem(options.header@, after) is None && final(self).wf()
                            && final(self).path_view() == old(self).path_view() && final(self).bytes() == written_pack(options.header@, after) && write_entries_of(
                            final(self).bytes(),
                            final(self).entries_spec(),
                        ) == after,
                        Err(e) => write_problem(options.header@, after) == Some(e) && *final(self)
                            == *old(self),
                    }
                }
            }),
    {
        let mut records = self.write_entries()?;
        if index >= records.len() {
            return Err(DelDxPackError::RecordIndexOutOfBounds { path: self.path.clone(), index, count: records.len() });
        }
        let old_record = self.record_at(index)?;
        let ghost before = write_entries_view(records@);
        records.remove(index);
        assert(write_entries_view(records@) =~= before.remove(index as int));
        self.rebuild_from_entries(records, options)?;
        Ok(old_record)
    }

    /// The first table index whose row key is `key`.
    pub(crate) fn find_entry_index_for_mutation(&self, key: i32) -> (r: Option<usize>)
        ensures
            match key_index_from(self.entries_spec(), key, 0) {
                Some(i) => r is Some && r->Some_0 as int == i,
                None => r is None,
            },
    {
        let ghost es = self.entries_spec();
        let mut i: usize = 0;
        while i < self.entries.len()
            invariant
                i <= self.entries@.len(),
                es == entries_view(self.entries@),
                key_index_from(es, key, 0) == key_index_from(es, key, i as int),
            decreases self.entries@.len() - i,
        {
            assert(es[i as int] == self.entries@[i as int]@);
            if self.entries[i].key == key {
                return Some(i);
            }
            i = i + 1;
        }
        None
    }
}

/// The first table index at or after `i` whose row key is `key`.
pub open spec fn key_index_from(es: Seq<DelDxPackEntryView>, key: i32, i: int) -> Option<int>
    decreases es.len() - i,
{
    if i < 0 || i >= es.len() {
        None
    } else if es[i].key == key {
        Some(i)
    } else {
        key_index_from(es, key, i + 1)
    }
}

/// A key found from index `i` on lies in the table at or after `i`.
pub proof fn lemma_key_index_from_bounds(es: Seq<DelDxPackEntryView>, key: i32, i: int)
    ensures
        key_index_from(es, key, i) matches Some(j) ==> i <= j < es.len() && es[j].key == key,
    decreases es.len() - i,
{
    if 0 <= i < es.len() && es[i].key != key {
        lemma_key_index_from_bounds(es, key, i + 1);
    }
}

proof fn lemma_first_row_problem_end(d: Seq<u8>, te: int, count: int)
    ensures
        first_row_problem(d, te, count, count) is None,
{
}

fn pack_table_end(count: usize) -> (r: Result<usize, DelDxProblem>)
    ensures
        76 * count > usize::MAX ==> r == Err::<usize, DelDxProblem>(DelDxProblem::TableSizeOverflow),
        76 * count <= usize::MAX && table_end_of(count as int) > usize::MAX ==> r == Err::<
            usize,
            DelDxProblem,
        >(DelDxProblem::Overflow { label: "DelDX pack table end" }),
        table_end_of(count as int) <= usize::MAX ==> r == Ok::<usize, DelDxProblem>(
            table_end_of(count as int) as usize,
        ),
{
    if count > usize::MAX / DELDX_PACK_ROW_LEN {
        return Err(DelDxProblem::TableSizeOverflow);
    }
    let rows = count * DELDX_PACK_ROW_LEN;
    if rows > usize::MAX - DELDX_PACK_HEADER_LEN {
        return Err(DelDxProblem::Overflow { label: "DelDX pack table end" });
    }
    Ok(DELDX_PACK_HEADER_LEN + rows)
}

} // verus!
