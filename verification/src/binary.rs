//! Binary `.NOS` archives such as `NStgData.NOS` and `NStpData.NOS`.
//!
//! An archive is a 16-byte header, an `i32` entry count, a direct-index byte,
//! a table of 8-byte rows (file id and data offset) and the record chunks.
//! A chunk is the file id, the unpacked and stored sizes, a compression flag
//! (`0` raw, `1` zlib) and the stored bytes. This module parses archives,
//! reads records, and rebuilds archives from edited records.
use vstd::prelude::*;

use crate::bytes::{
    bytes_to_vec, copy_range, extend_bytes, i32_at, i32_le_bytes, push_i32_le, push_u32_le,
    read_i32_le_at, read_u32_le_at, u32_at, u32_le_bytes,
};
use crate::common::SourceRef;
use crate::zlib::{deflate, inflate, zlib_deflate, zlib_inflate};

verus! {

/// Whether `e` reports record index `index` out of bounds for a table of `count` records
/// of the archive at `path`.
pub open spec fn is_index_error(e: BinaryNosArchiveError, path: Seq<char>, index: usize, count: usize) -> bool {
    e matches BinaryNosArchiveError::RecordIndexOutOfBounds { path: p, index: i, count: c } && p@ == path && i == index && c == count
}

/// Whether `e` reports problem `p` in the archive at `path`.
pub open spec fn reports(e: BinaryNosArchiveError, path: Seq<char>, p: BinaryProblem) -> bool {
    match p {
        BinaryProblem::TooSmall => e matches BinaryNosArchiveError::TooSmall { path: q } && q@ == path,
        BinaryProblem::InvalidCount { count } => e matches BinaryNosArchiveError::InvalidCount {
            path: q,
            count: c,
        } && q@ == path && c == count,
        BinaryProblem::EntryTableOutOfBounds => e matches BinaryNosArchiveError::EntryTableOutOfBounds {
            path: q,
        } && q@ == path,
        BinaryProblem::InvalidDataOffset { file_id, offset } => e matches BinaryNosArchiveError::InvalidDataOffset {
            path: q,
            file_id: f,
            offset: o,
        } && q@ == path && f == file_id && o == offset,
        BinaryProblem::PayloadOutOfBounds { file_id } => e matches BinaryNosArchiveError::PayloadOutOfBounds {
            path: q,
            file_id: f,
        } && q@ == path && f == file_id,
        BinaryProblem::UnsupportedCompression { file_id, flag } => e matches BinaryNosArchiveError::UnsupportedCompression {
            path: q,
            file_id: f,
            flag: g,
        } && q@ == path && f == file_id && g == flag,
        BinaryProblem::Zlib { file_id } => e matches BinaryNosArchiveError::Zlib { path: q, file_id: f } && q@
            == path && f == file_id,
        BinaryProblem::SizeMismatch { file_id, expected, actual } => e matches BinaryNosArchiveError::SizeMismatch {
            path: q,
            file_id: f,
            expected: x,
            actual: a,
        } && q@ == path && f == file_id && x == expected && a == actual,
    }
}

/// The error that reports problem `p` in the archive at `path`.
fn problem_at(path: String, p: BinaryProblem) -> (e: BinaryNosArchiveError)
    ensures
        reports(e, path@, p),
{
    match p {
        BinaryProblem::TooSmall => BinaryNosArchiveError::TooSmall { path },
        BinaryProblem::InvalidCount { count } => BinaryNosArchiveError::InvalidCount { path, count },
        BinaryProblem::EntryTableOutOfBounds => BinaryNosArchiveError::EntryTableOutOfBounds { path },
        BinaryProblem::InvalidDataOffset { file_id, offset } => BinaryNosArchiveError::InvalidDataOffset {
            path,
            file_id,
            offset,
        },
        BinaryProblem::PayloadOutOfBounds { file_id } => BinaryNosArchiveError::PayloadOutOfBounds { path, file_id },
        BinaryProblem::UnsupportedCompression { file_id, flag } => BinaryNosArchiveError::UnsupportedCompression {
            path,
            file_id,
            flag,
        },
        BinaryProblem::Zlib { file_id } => BinaryNosArchiveError::Zlib { path, file_id },
        BinaryProblem::SizeMismatch { file_id, expected, actual } => BinaryNosArchiveError::SizeMismatch {
            path,
            file_id,
            expected,
            actual,
        },
    }
}

/// What is wrong with archive bytes or with one of their chunks.
#[derive(Debug, Clone, Copy, PartialEq, Eq)]
pub enum BinaryProblem {
    /// The data is shorter than the header.
    TooSmall,
    /// The entry count is negative.
    InvalidCount { count: i32 },
    /// The entry table runs past the end of the data.
    EntryTableOutOfBounds,
    /// A row's data offset is negative or leaves no room for the chunk header.
    InvalidDataOffset { file_id: i32, offset: i32 },
    /// A chunk's stored bytes run past the end of the data.
    PayloadOutOfBounds { file_id: i32 },
    /// A chunk's compression flag is neither `0` nor `1`.
    UnsupportedCompression { file_id: i32, flag: u8 },
    /// A zlib chunk does not decode.
    Zlib { file_id: i32 },
    /// A decoded record's length differs from the declared unpacked size.
    SizeMismatch { file_id: i32, expected: usize, actual: usize },
}

/// Errors produced while parsing, reading, editing or writing an archive.
#[derive(Debug, Clone, PartialEq, Eq)]
pub enum BinaryNosArchiveError {
    /// The data is shorter than the header.
    TooSmall { path: String },
    /// The entry count is negative.
    InvalidCount { path: String, count: i32 },
    /// The entry table runs past the end of the data.
    EntryTableOutOfBounds { path: String },
    /// A row's data offset is negative or leaves no room for the chunk header.
    InvalidDataOffset { path: String, file_id: i32, offset: i32 },
    /// A chunk's stored bytes run past the end of the data.
    PayloadOutOfBounds { path: String, file_id: i32 },
    /// A chunk's compression flag is neither `0` nor `1`.
    UnsupportedCompression { path: String, file_id: i32, flag: u8 },
    /// A zlib chunk does not decode.
    Zlib { path: String, file_id: i32 },
    /// A decoded record's length differs from the declared unpacked size.
    SizeMismatch { path: String, file_id: i32, expected: usize, actual: usize },
    /// No archive of a family holds the file id.
    MissingFileId { family: String, file_id: i32 },
    /// A record index is past the end of the table.
    RecordIndexOutOfBounds { path: String, index: usize, count: usize },
    /// There are more records than an `i32` count can hold.
    TooManyEntries { count: usize },
    /// A record is larger than a `u32` size can hold.
    EntryTooLarge { file_id: i32, size: usize },
    /// A chunk would start beyond what an `i32` offset can hold.
    DataOffsetTooLarge { file_id: i32, offset: usize },
    /// The zlib encoder reported an error.
    ZlibEncode { file_id: i32 },
    /// A zlib record is to be written at a level other than 0 to 9.
    InvalidZlibLevel { file_id: i32, level: u32 },
}

/// How a record is stored.
#[derive(Debug, Clone, Copy, PartialEq, Eq, Structural)]
pub enum BinaryCompression {
    Raw,
    Zlib,
}

/// One row of a parsed entry table.
#[derive(Debug, Clone, Copy, PartialEq, Eq)]
pub struct BinaryNosArchiveEntry {
    pub file_id: i32,
    pub data_offset: usize,
    pub unpacked_size: usize,
    pub stored_size: usize,
    pub compression: BinaryCompression,
}

/// A decoded record.
#[derive(Debug, Clone, PartialEq, Eq)]
pub struct BinaryNosArchiveRecord {
    pub file_id: i32,
    pub compression: BinaryCompression,
    pub data: Vec<u8>,
}

/// A decoded payload and where it came from.
#[derive(Debug, Clone)]
pub struct BinaryEntryPayload {
    pub source: SourceRef,
    pub data: Vec<u8>,
}

/// Record input for archive writes; a record without a compression uses
/// the archive default.
#[derive(Debug, Clone)]
pub struct BinaryNosArchiveWriteEntry {
    pub file_id: i32,
    pub compression: Option<BinaryCompression>,
    pub data: Vec<u8>,
}

/// The mathematical content of a write entry.
pub struct BinaryWriteEntryView {
    pub file_id: i32,
    pub compression: Option<BinaryCompression>,
    pub data: Seq<u8>,
}

impl View for BinaryNosArchiveWriteEntry {
    type V = BinaryWriteEntryView;

    open spec fn view(&self) -> BinaryWriteEntryView {
        BinaryWriteEntryView {
            file_id: self.file_id,
            compression: self.compression,
            data: self.data@,
        }
    }
}

/// The views of a list of write entries.
pub open spec fn write_entries_view(es: Seq<BinaryNosArchiveWriteEntry>) -> Seq<
    BinaryWriteEntryView,
> {
    Seq::new(es.len(), |i: int| es[i]@)
}

impl BinaryNosArchiveWriteEntry {
    /// A record that uses the archive's default compression.
    pub fn new(file_id: i32, data: Vec<u8>) -> (r: Self)
        ensures
            r.file_id == file_id,
            r.compression is None,
            r.data@ == data@,
    {
        BinaryNosArchiveWriteEntry { file_id, compression: None, data }
    }

    /// A record with its own compression.
    pub fn with_compression(file_id: i32, compression: BinaryCompression, data: Vec<u8>) -> (r:
        Self)
        ensures
            r.file_id == file_id,
            r.compression == Some(compression),
            r.data@ == data@,
    {
        BinaryNosArchiveWriteEntry { file_id, compression: Some(compression), data }
    }
}

/// Archive-wide write settings: the header and direct-index byte, the
/// default compression, and the level at which zlib records are encoded.
#[derive(Debug, Clone, Copy)]
pub struct BinaryNosArchiveWriteOptions {
    pub header: [u8; 16],
    pub direct_index: u8,
    pub compression: BinaryCompression,
    pub zlib_level: u32,
}

impl BinaryNosArchiveWriteOptions {
    /// Write options from their parts.
    pub fn new(header: [u8; 16], direct_index: u8, compression: BinaryCompression, zlib_level: u32) -> (r:
        Self)
        ensures
            r.header@ == header@,
            r.direct_index == direct_index,
            r.compression == compression,
            r.zlib_level == zlib_level,
    {
        BinaryNosArchiveWriteOptions { header, direct_index, compression, zlib_level }
    }
}

/// The table row `k` as parsed from `d`, before validation.
pub open spec fn row_file_id(d: Seq<u8>, k: int) -> i32 {
    i32_at(d, 21 + 8 * k)
}

/// The data offset stored in table row `k`.
pub open spec fn row_offset(d: Seq<u8>, k: int) -> i32 {
    i32_at(d, 25 + 8 * k)
}

/// What is wrong with table row `k`, if anything.
pub open spec fn row_problem(d: Seq<u8>, k: int) -> Option<BinaryProblem> {
    let id = row_file_id(d, k);
    let off = row_offset(d, k);
    if off < 0 || off + 13 > d.len() {
        Some(BinaryProblem::InvalidDataOffset { file_id: id, offset: off })
    } else if d[off + 12] != 0 && d[off + 12] != 1 {
        Some(BinaryProblem::UnsupportedCompression { file_id: id, flag: d[off + 12] })
    } else if off + 13 + u32_at(d, off + 8) > d.len() {
        Some(BinaryProblem::PayloadOutOfBounds { file_id: id })
    } else {
        None
    }
}

/// The first bad table row at or after `k`, of `n`.
pub open spec fn first_bad_row(d: Seq<u8>, k: int, n: int) -> Option<int>
    decreases n - k,
{
    if k < 0 || k >= n {
        None
    } else if row_problem(d, k) is Some {
        Some(k)
    } else {
        first_bad_row(d, k + 1, n)
    }
}

/// The entry described by a valid table row `k`.
pub open spec fn row_entry(d: Seq<u8>, k: int) -> BinaryNosArchiveEntry {
    let off = row_offset(d, k);
    BinaryNosArchiveEntry {
        file_id: row_file_id(d, k),
        data_offset: off as usize,
        unpacked_size: u32_at(d, off + 4) as usize,
        stored_size: u32_at(d, off + 8) as usize,
        compression: if d[off + 12] == 0 {
            BinaryCompression::Raw
        } else {
            BinaryCompression::Zlib
        },
    }
}

/// What parsing archive bytes returns: the direct-index byte and the table
/// entries, or the first problem found.
pub open spec fn parse_binary(d: Seq<u8>) -> Result<(u8, Seq<BinaryNosArchiveEntry>), BinaryProblem> {
    let count = i32_at(d, 16);
    if d.len() < 21 {
        Err(BinaryProblem::TooSmall)
    } else if count < 0 {
        Err(BinaryProblem::InvalidCount { count })
    } else if 21 + 8 * count > d.len() {
        Err(BinaryProblem::EntryTableOutOfBounds)
    } else {
        match first_bad_row(d, 0, count as int) {
            Some(k) => Err(row_problem(d, k)->Some_0),
            None => Ok((d[20], Seq::new(count as nat, |k: int| row_entry(d, k)))),
        }
    }
}

/// The stored bytes of an entry, or the error for an entry that points
/// outside the data.
pub open spec fn stored_bytes(d: Seq<u8>, e: BinaryNosArchiveEntry) -> Result<
    Seq<u8>,
    BinaryProblem,
> {
    if e.data_offset + 13 + e.stored_size > d.len() {
        Err(BinaryProblem::PayloadOutOfBounds { file_id: e.file_id })
    } else {
        Ok(d.subrange(e.data_offset + 13, e.data_offset + 13 + e.stored_size))
    }
}

/// The decoded payload of an entry, or the first problem found.
pub open spec fn decode_entry(d: Seq<u8>, e: BinaryNosArchiveEntry) -> Result<
    Seq<u8>,
    BinaryProblem,
> {
    match stored_bytes(d, e) {
        Err(x) => Err(x),
        Ok(stored) => {
            let decoded = match e.compression {
                BinaryCompression::Raw => Some(stored),
                BinaryCompression::Zlib => zlib_inflate(stored),
            };
            match decoded {
                None => Err(BinaryProblem::Zlib { file_id: e.file_id }),
                Some(data) => if e.unpacked_size != 0 && data.len() != e.unpacked_size {
                    Err(
                        BinaryProblem::SizeMismatch {
                            file_id: e.file_id,
                            expected: e.unpacked_size,
                            actual: data.len() as usize,
                        },
                    )
                } else {
                    Ok(data)
                },
            }
        },
    }
}

/// The mathematical content of a decoded record.
pub struct BinaryRecordView {
    pub file_id: i32,
    pub compression: BinaryCompression,
    pub data: Seq<u8>,
}

impl View for BinaryNosArchiveRecord {
    type V = BinaryRecordView;

    open spec fn view(&self) -> BinaryRecordView {
        BinaryRecordView { file_id: self.file_id, compression: self.compression, data: self.data@ }
    }
}

/// The views of a list of records.
pub open spec fn records_view(rs: Seq<BinaryNosArchiveRecord>) -> Seq<BinaryRecordView> {
    Seq::new(rs.len(), |i: int| rs[i]@)
}

/// The first entry at or after `k` whose payload does not decode.
pub open spec fn first_undecodable(d: Seq<u8>, es: Seq<BinaryNosArchiveEntry>, k: int) -> Option<
    int,
>
    decreases es.len() - k,
{
    if k < 0 || k >= es.len() {
        None
    } else if decode_entry(d, es[k]) is Err {
        Some(k)
    } else {
        first_undecodable(d, es, k + 1)
    }
}

/// What decoding every record returns: the records, or the first problem.
pub open spec fn decode_records(d: Seq<u8>, es: Seq<BinaryNosArchiveEntry>) -> Result<
    Seq<BinaryRecordView>,
    BinaryProblem,
> {
    match first_undecodable(d, es, 0) {
        Some(k) => Err(decode_entry(d, es[k])->Err_0),
        None => Ok(
            Seq::new(
                es.len(),
                |k: int|
                    BinaryRecordView {
                        file_id: es[k].file_id,
                        compression: es[k].compression,
                        data: decode_entry(d, es[k])->Ok_0,
                    },
            ),
        ),
    }
}

/// The write entries that keep records as they are, compression included.
pub open spec fn records_as_write_entries(rs: Seq<BinaryRecordView>) -> Seq<BinaryWriteEntryView> {
    Seq::new(
        rs.len(),
        |k: int|
            BinaryWriteEntryView {
                file_id: rs[k].file_id,
                compression: Some(rs[k].compression),
                data: rs[k].data,
            },
    )
}

/// The first entry at or after `k` whose file id is `id`.
pub open spec fn id_index_from(es: Seq<BinaryNosArchiveEntry>, id: i32, k: int) -> Option<int>
    decreases es.len() - k,
{
    if k < 0 || k >= es.len() {
        None
    } else if es[k].file_id == id {
        Some(k)
    } else {
        id_index_from(es, id, k + 1)
    }
}

/// A parsed binary archive.
#[derive(Debug, Clone)]
pub struct BinaryNosArchive {
    path: String,
    data: Vec<u8>,
    direct_index: u8,
    entries: Vec<BinaryNosArchiveEntry>,
}

fn read_row(data: &[u8], k: usize) -> (r: Result<BinaryNosArchiveEntry, BinaryProblem>)
    requires
        21 + 8 * k + 8 <= data.len(),
    ensures
        match row_problem(data@, k as int) {
            Some(e) => r == Err::<BinaryNosArchiveEntry, BinaryProblem>(e),
            None => r == Ok::<BinaryNosArchiveEntry, BinaryProblem>(
                row_entry(data@, k as int),
            ),
        },
{
    let file_id = read_i32_le_at(data, 21 + 8 * k);
    let offset = read_i32_le_at(data, 25 + 8 * k);
    if offset < 0 {
        return Err(BinaryProblem::InvalidDataOffset { file_id, offset });
    }
    let off = offset as usize;
    if off > data.len() || data.len() - off < 13 {
        return Err(BinaryProblem::InvalidDataOffset { file_id, offset });
    }
    let unpacked = read_u32_le_at(data, off + 4);
    let stored = read_u32_le_at(data, off + 8);
    let flag = data[off + 12];
    let compression = if flag == 0 {
        BinaryCompression::Raw
    } else if flag == 1 {
        BinaryCompression::Zlib
    } else {
        return Err(BinaryProblem::UnsupportedCompression { file_id, flag });
    };
    if data.len() - off - 13 < stored as usize {
        return Err(BinaryProblem::PayloadOutOfBounds { file_id });
    }
    Ok(
        BinaryNosArchiveEntry {
            file_id,
            data_offset: off,
            unpacked_size: unpacked as usize,
            stored_size: stored as usize,
            compression,
        },
    )
}

impl BinaryNosArchive {
    /// The archive bytes.
    pub closed spec fn bytes(&self) -> Seq<u8> {
        self.data@
    }

    /// The logical path.
    pub closed spec fn path_view(&self) -> Seq<char> {
        self.path@
    }

    /// The parsed table entries.
    pub closed spec fn entries_spec(&self) -> Seq<BinaryNosArchiveEntry> {
        self.entries@
    }

    /// The direct-index byte.
    pub closed spec fn direct_index_spec(&self) -> u8 {
        self.direct_index
    }

    /// The direct-index byte and the entries are the parse of the bytes.
    pub closed spec fn wf(&self) -> bool {
        parse_binary(self.data@) == Ok::<(u8, Seq<BinaryNosArchiveEntry>), BinaryProblem>(
            (self.direct_index, self.entries@),
        )
    }

    /// Parses archive bytes while keeping their logical path.
    pub fn from_bytes(path: String, data: Vec<u8>) -> (r: Result<Self, BinaryNosArchiveError>)
        ensures
            match parse_binary(data@) {
                Ok((di, es)) => r is Ok && r->Ok_0.wf() && r->Ok_0.bytes() == data@
                    && r->Ok_0.path_view() == path@ && r->Ok_0.entries_spec() == es
                    && r->Ok_0.direct_index_spec() == di,
                Err(p) => (r matches Err(e) && reports(e, path@, p)),
            },
    {
        let ghost d = data@;
        if data.len() < 21 {
            return Err(BinaryNosArchiveError::TooSmall { path });
        }
        let count = read_i32_le_at(data.as_slice(), 16);
        if count < 0 {
            return Err(BinaryNosArchiveError::InvalidCount { path, count });
        }
        let n = count as usize;
        if n > (data.len() - 21) / 8 {
            return Err(BinaryNosArchiveError::EntryTableOutOfBounds { path });
        }
        let direct_index = data[20];
        let mut entries: Vec<BinaryNosArchiveEntry> = Vec::new();
        let mut k: usize = 0;
        while k < n
            invariant
                k <= n,
                d == data@,
                n == i32_at(d, 16),
                21 + 8 * n <= d.len(),
                first_bad_row(d, 0, n as int) == first_bad_row(d, k as int, n as int),
                entries@ == Seq::new(k as nat, |j: int| row_entry(d, j)),
            decreases n - k,
        {
            let entry = match read_row(data.as_slice(), k) {
                Ok(e) => e,
                Err(p) => return Err(problem_at(path, p)),
            };
            entries.push(entry);
            assert(entries@ =~= Seq::new((k + 1) as nat, |j: int| row_entry(d, j)));
            k = k + 1;
        }
        Ok(BinaryNosArchive { path, data, direct_index, entries })
    }

    /// Parses archive bytes without an on-disk path.
    pub fn from_memory(data: Vec<u8>) -> (r: Result<Self, BinaryNosArchiveError>)
        ensures
            match parse_binary(data@) {
                Ok((di, es)) => r is Ok && r->Ok_0.wf() && r->Ok_0.bytes() == data@
                    && r->Ok_0.path_view() == "<memory>"@ && r->Ok_0.entries_spec() == es
                    && r->Ok_0.direct_index_spec() == di,
                Err(p) => (r matches Err(e) && reports(e, "<memory>"@, p)),
            },
    {
        Self::from_bytes(String::from_str("<memory>"), data)
    }

    /// The logical path associated with this archive.
    pub fn path(&self) -> (r: &str)
        ensures
            r@ == self.path_view(),
    {
        self.path.as_str()
    }

    /// The archive bytes.
    pub fn as_bytes(&self) -> (r: &[u8])
        ensures
            r@ == self.bytes(),
    {
        self.data.as_slice()
    }

    /// Consumes the archive and returns its bytes.
    pub fn into_bytes(self) -> (r: Vec<u8>)
        ensures
            r@ == self.bytes(),
    {
        self.data
    }

    /// The first 16 bytes, which rebuilds reuse as the header.
    pub fn header(&self) -> (r: [u8; 16])
        requires
            self.wf(),
        ensures
            r@ == self.bytes().subrange(0, 16),
    {
        let mut header = [0u8; 16];
        let mut i: usize = 0;
        while i < 16
            invariant
                i <= 16,
                self.data@.len() >= 21,
                forall|j: int| 0 <= j < i ==> header@[j] == self.data@[j],
            decreases 16 - i,
        {
            header[i] = self.data[i];
            i = i + 1;
        }
        assert(header@ =~= self.data@.subrange(0, 16));
        header
    }

    /// The direct-index byte of the header.
    pub fn direct_index(&self) -> (r: u8)
        ensures
            r == self.direct_index_spec(),
    {
        self.direct_index
    }

    /// The parsed table entries, without decoding payloads.
    pub fn entries(&self) -> (r: &[BinaryNosArchiveEntry])
        ensures
            r@ == self.entries_spec(),
    {
        self.entries.as_slice()
    }

    /// The first table index whose entry has file id `file_id`.
    pub fn find_entry_index(&self, file_id: i32) -> (r: Option<usize>)
        ensures
            match id_index_from(self.entries_spec(), file_id, 0) {
                Some(i) => r is Some && r->Some_0 as int == i,
                None => r is None,
            },
    {
        let ghost es = self.entries@;
        let mut i: usize = 0;
        while i < self.entries.len()
            invariant
                i <= es.len(),
                es == self.entries@,
                id_index_from(es, file_id, 0) == id_index_from(es, file_id, i as int),
            decreases es.len() - i,
        {
            if self.entries[i].file_id == file_id {
                return Some(i);
            }
            i = i + 1;
        }
        None
    }

    /// The first table entry with file id `file_id`.
    pub fn find_entry(&self, file_id: i32) -> (r: Option<&BinaryNosArchiveEntry>)
        ensures
            match id_index_from(self.entries_spec(), file_id, 0) {
                Some(i) => r is Some && *r->Some_0 == self.entries_spec()[i],
                None => r is None,
            },
    {
        proof {
            lemma_id_index_from_bounds(self.entries@, file_id, 0);
        }
        match self.find_entry_index(file_id) {
            Some(i) => Some(&self.entries[i]),
            None => None,
        }
    }

    /// The stored bytes of an entry, without decompression.
    pub fn read_entry_stored_bytes(&self, entry: &BinaryNosArchiveEntry) -> (r: Result<
        &[u8],
        BinaryNosArchiveError,
    >)
        ensures
            match stored_bytes(self.bytes(), *entry) {
                Ok(s) => r is Ok && r->Ok_0@ == s,
                Err(p) => (r matches Err(e) && reports(e, self.path_view(), p)),
            },
    {
        let len = self.data.len();
        if entry.data_offset > len || len - entry.data_offset < 13 || len - entry.data_offset - 13
            < entry.stored_size {
            return Err(
                BinaryNosArchiveError::PayloadOutOfBounds { path: self.path.clone(), file_id: entry.file_id },
            );
        }
        let start = entry.data_offset + 13;
        Ok(slice_range(self.data.as_slice(), start, start + entry.stored_size))
    }

    /// Decodes the payload of an entry and checks its declared size.
    pub fn read_entry_payload(&self, entry: &BinaryNosArchiveEntry) -> (r: Result<
        BinaryEntryPayload,
        BinaryNosArchiveError,
    >)
        ensures
            match decode_entry(self.bytes(), *entry) {
                Ok(data) => r is Ok && r->Ok_0.data@ == data && r->Ok_0.source.archive@
                    == self.path_view() && r->Ok_0.source.file_id == entry.file_id,
                Err(p) => (r matches Err(e) && reports(e, self.path_view(), p)),
            },
    {
        let stored = self.read_entry_stored_bytes(entry)?;
        let data = match entry.compression {
            BinaryCompression::Raw => bytes_to_vec(stored),
            BinaryCompression::Zlib => match inflate(stored) {
                Some(v) => v,
                None => return Err(BinaryNosArchiveError::Zlib { path: self.path.clone(), file_id: entry.file_id }),
            },
        };
        if entry.unpacked_size != 0 && data.len() != entry.unpacked_size {
            return Err(
                BinaryNosArchiveError::SizeMismatch {
                    path: self.path.clone(),
                    file_id: entry.file_id,
                    expected: entry.unpacked_size,
                    actual: data.len(),
                },
            );
        }
        Ok(
            BinaryEntryPayload {
                source: SourceRef { archive: self.path.clone(), file_id: entry.file_id },
                data,
            },
        )
    }

    /// Reads and decodes the first payload with file id `file_id`.
    pub fn read_entry(&self, file_id: i32) -> (r: Result<
        Option<BinaryEntryPayload>,
        BinaryNosArchiveError,
    >)
        ensures
            match id_index_from(self.entries_spec(), file_id, 0) {
                None => r is Ok && r->Ok_0 is None,
                Some(i) => match decode_entry(self.bytes(), self.entries_spec()[i]) {
                    Ok(data) => r is Ok && r->Ok_0 is Some && r->Ok_0->Some_0.data@ == data
                        && r->Ok_0->Some_0.source.archive@ == self.path_view()
                        && r->Ok_0->Some_0.source.file_id == file_id,
                    Err(p) => (r matches Err(e) && reports(e, self.path_view(), p)),
                },
            },
    {
        proof {
            lemma_id_index_from_bounds(self.entries@, file_id, 0);
        }
        match self.find_entry(file_id) {
            None => Ok(None),
            Some(entry) => {
                let payload = self.read_entry_payload(entry)?;
                Ok(Some(payload))
            },
        }
    }

    fn record_from_entry(&self, entry: &BinaryNosArchiveEntry) -> (r: Result<
        BinaryNosArchiveRecord,
        BinaryNosArchiveError,
    >)
        ensures
            match decode_entry(self.bytes(), *entry) {
                Ok(data) => r is Ok && r->Ok_0@ == (BinaryRecordView {
                    file_id: entry.file_id,
                    compression: entry.compression,
                    data,
                }),
                Err(p) => (r matches Err(e) && reports(e, self.path_view(), p)),
            },
    {
        let payload = self.read_entry_payload(entry)?;
        Ok(
            BinaryNosArchiveRecord {
                file_id: entry.file_id,
                compression: entry.compression,
                data: payload.data,
            },
        )
    }

    /// Decodes every record into editable payload bytes.
    pub fn records(&self) -> (r: Result<Vec<BinaryNosArchiveRecord>, BinaryNosArchiveError>)
        ensures
            match decode_records(self.bytes(), self.entries_spec()) {
                Ok(rs) => r is Ok && records_view(r->Ok_0@) == rs,
                Err(p) => (r matches Err(e) && reports(e, self.path_view(), p)),
            },
    {
        let ghost d = self.data@;
        let ghost es = self.entries@;
        let mut out: Vec<BinaryNosArchiveRecord> = Vec::new();
        let mut k: usize = 0;
        while k < self.entries.len()
            invariant
                k <= es.len(),
                d == self.data@,
                es == self.entries@,
                first_undecodable(d, es, 0) == first_undecodable(d, es, k as int),
                forall|j: int| 0 <= j < k ==> decode_entry(d, #[trigger] es[j]) is Ok,
                records_view(out@) == Seq::new(
                    k as nat,
                    |j: int|
                        BinaryRecordView {
                            file_id: es[j].file_id,
                            compression: es[j].compression,
                            data: decode_entry(d, es[j])->Ok_0,
                        },
                ),
            decreases es.len() - k,
        {
            let record = self.record_from_entry(&self.entries[k])?;
            let ghost before = records_view(out@);
            out.push(record);
            assert(records_view(out@) =~= before.push(record@));
            k = k + 1;
        }
        Ok(out)
    }

    /// Decodes every record into write entries that keep each record's compression.
    pub fn write_entries(&self) -> (r: Result<
        Vec<BinaryNosArchiveWriteEntry>,
        BinaryNosArchiveError,
    >)
        ensures
            match decode_records(self.bytes(), self.entries_spec()) {
                Ok(rs) => r is Ok && write_entries_view(r->Ok_0@) == records_as_write_entries(rs),
                Err(p) => (r matches Err(e) && reports(e, self.path_view(), p)),
            },
    {
        let records = self.records()?;
        let ghost rs = records_view(records@);
        let mut out: Vec<BinaryNosArchiveWriteEntry> = Vec::new();
        let mut k: usize = 0;
        while k < records.len()
            invariant
                k <= records@.len(),
                rs == records_view(records@),
                write_entries_view(out@) == records_as_write_entries(rs).take(k as int),
            decreases records@.len() - k,
        {
            let record = &records[k];
            assert(rs[k as int] == record@);
            let entry = BinaryNosArchiveWriteEntry {
                file_id: record.file_id,
                compression: Some(record.compression),
                data: bytes_to_vec(record.data.as_slice()),
            };
            let ghost before = write_entries_view(out@);
            out.push(entry);
            assert(write_entries_view(out@) =~= records_as_write_entries(rs).take(k + 1)) by {
                assert(write_entries_view(out@) =~= before.push(entry@));
            }
            k = k + 1;
        }
        assert(records_as_write_entries(rs).take(rs.len() as int) =~= records_as_write_entries(rs));
        Ok(out)
    }
}

/// What a first-index search finds lies in the table and has the file id.
pub proof fn lemma_id_index_from_bounds(es: Seq<BinaryNosArchiveEntry>, id: i32, k: int)
    ensures
        id_index_from(es, id, k) matches Some(j) ==> k <= j < es.len() && es[j].file_id == id,
    decreases es.len() - k,
{
    if 0 <= k < es.len() && es[k].file_id != id {
        lemma_id_index_from_bounds(es, id, k + 1);
    }
}

fn slice_range(data: &[u8], start: usize, end: usize) -> (r: &[u8])
    requires
        start <= end <= data.len(),
    ensures
        r@ == data@.subrange(start as int, end as int),
{
    vstd::slice::slice_subrange(data, start, end)
}

/// The compression a write entry is stored with under a default.
pub open spec fn effective_compression(e: BinaryWriteEntryView, default: BinaryCompression) -> BinaryCompression {
    match e.compression {
        Some(c) => c,
        None => default,
    }
}

/// The stored bytes of a write entry, or `None` where the encoder fails.
pub open spec fn stored_of(e: BinaryWriteEntryView, default: BinaryCompression, level: u32) -> Option<Seq<u8>> {
    match effective_compression(e, default) {
        BinaryCompression::Raw => Some(e.data),
        BinaryCompression::Zlib => zlib_deflate(e.data, level),
    }
}

/// The compression flag byte of a compression.
pub open spec fn flag_of(c: BinaryCompression) -> u8 {
    match c {
        BinaryCompression::Raw => 0,
        BinaryCompression::Zlib => 1,
    }
}

/// The chunk written for a write entry.
pub open spec fn chunk_bytes(e: BinaryWriteEntryView, default: BinaryCompression, level: u32) -> Seq<u8> {
    let stored = stored_of(e, default, level)->Some_0;
    i32_le_bytes(e.file_id) + u32_le_bytes(e.data.len() as u32) + u32_le_bytes(stored.len() as u32)
        + seq![flag_of(effective_compression(e, default))] + stored
}

/// The chunks of the first `k` write entries, in order.
pub open spec fn written_chunks(
    es: Seq<BinaryWriteEntryView>,
    default: BinaryCompression,
    level: u32,
    k: int,
) -> Seq<u8>
    decreases k,
{
    if k <= 0 {
        Seq::empty()
    } else {
        written_chunks(es, default, level, k - 1) + chunk_bytes(es[k - 1], default, level)
    }
}

/// The offset at which the chunk of write entry `k` starts.
pub open spec fn chunk_offset(
    es: Seq<BinaryWriteEntryView>,
    default: BinaryCompression,
    level: u32,
    k: int,
) -> int {
    (21 + 8 * es.len() + written_chunks(es, default, level, k).len()) as int
}

/// The table rows of the first `k` write entries, in order.
pub open spec fn written_rows(
    es: Seq<BinaryWriteEntryView>,
    default: BinaryCompression,
    level: u32,
    k: int,
) -> Seq<u8>
    decreases k,
{
    if k <= 0 {
        Seq::empty()
    } else {
        written_rows(es, default, level, k - 1) + i32_le_bytes(es[k - 1].file_id) + i32_le_bytes(
            chunk_offset(es, default, level, k - 1) as i32,
        )
    }
}

/// The bytes written for write entries under write options.
#[verifier::opaque]
pub open spec fn written_archive(
    es: Seq<BinaryWriteEntryView>,
    header: Seq<u8>,
    direct_index: u8,
    default: BinaryCompression,
    level: u32,
) -> Seq<u8> {
    header + i32_le_bytes(es.len() as i32) + seq![direct_index] + written_rows(
        es,
        default,
        level,
        es.len() as int,
    ) + written_chunks(es, default, level, es.len() as int)
}

/// What writing entry `k` reports, if anything.
pub open spec fn entry_write_problem(
    es: Seq<BinaryWriteEntryView>,
    default: BinaryCompression,
    level: u32,
    k: int,
) -> Option<BinaryNosArchiveError> {
    let e = es[k];
    let off = chunk_offset(es, default, level, k);
    if off > 0x7fff_ffff {
        Some(BinaryNosArchiveError::DataOffsetTooLarge { file_id: e.file_id, offset: off as usize })
    } else if e.data.len() > 0xffff_ffff {
        Some(BinaryNosArchiveError::EntryTooLarge { file_id: e.file_id, size: e.data.len() as usize })
    } else if effective_compression(e, default) is Zlib && level > 9 {
        Some(BinaryNosArchiveError::InvalidZlibLevel { file_id: e.file_id, level })
    } else if stored_of(e, default, level) is None {
        Some(BinaryNosArchiveError::ZlibEncode { file_id: e.file_id })
    } else if stored_of(e, default, level)->Some_0.len() > 0xffff_ffff {
        Some(
            BinaryNosArchiveError::EntryTooLarge {
                file_id: e.file_id,
                size: stored_of(e, default, level)->Some_0.len() as usize,
            },
        )
    } else if off + 13 + stored_of(e, default, level)->Some_0.len() > usize::MAX {
        Some(BinaryNosArchiveError::DataOffsetTooLarge { file_id: e.file_id, offset: usize::MAX })
    } else {
        None
    }
}

/// The first problem that writing entry `k` or a later entry reports.
pub open spec fn first_write_problem(
    es: Seq<BinaryWriteEntryView>,
    default: BinaryCompression,
    level: u32,
    k: int,
) -> Option<BinaryNosArchiveError>
    decreases es.len() - k,
{
    if k < 0 || k >= es.len() {
        None
    } else if entry_write_problem(es, default, level, k) is Some {
        entry_write_problem(es, default, level, k)
    } else {
        first_write_problem(es, default, level, k + 1)
    }
}

/// What writing entries under options reports, if anything.
pub open spec fn write_problem(es: Seq<BinaryWriteEntryView>, default: BinaryCompression, level: u32) -> Option<
    BinaryNosArchiveError,
> {
    if es.len() > 0x7fff_ffff || 21 + 8 * es.len() > usize::MAX {
        Some(BinaryNosArchiveError::TooManyEntries { count: es.len() as usize })
    } else {
        first_write_problem(es, default, level, 0)
    }
}

/// Whether the stored bytes of a write entry decode back to its data.
pub open spec fn stream_decodes(e: BinaryWriteEntryView, default: BinaryCompression, level: u32) -> bool {
    effective_compression(e, default) is Zlib ==> zlib_inflate(stored_of(e, default, level)->Some_0)
        == Some(e.data)
}

/// Whether the stored bytes of every write entry decode back to its data.
pub open spec fn streams_decode(es: Seq<BinaryWriteEntryView>, default: BinaryCompression, level: u32) -> bool {
    forall|k: int| 0 <= k < es.len() ==> stream_decodes(#[trigger] es[k], default, level)
}

/// Encodes the chunk of one write entry.
fn encode_chunk(entry: &BinaryNosArchiveWriteEntry, options: &BinaryNosArchiveWriteOptions) -> (r:
    Result<Vec<u8>, BinaryNosArchiveError>)
    ensures
        ({
            let e = entry@;
            let stored = stored_of(e, options.compression, options.zlib_level);
            if e.data.len() > 0xffff_ffff {
                r == Err::<Vec<u8>, BinaryNosArchiveError>(
                    BinaryNosArchiveError::EntryTooLarge { file_id: e.file_id, size: e.data.len() as usize },
                )
            } else if effective_compression(e, options.compression) is Zlib && options.zlib_level > 9 {
                r == Err::<Vec<u8>, BinaryNosArchiveError>(
                    BinaryNosArchiveError::InvalidZlibLevel { file_id: e.file_id, level: options.zlib_level },
                )
            } else if stored is None {
                r == Err::<Vec<u8>, BinaryNosArchiveError>(
                    BinaryNosArchiveError::ZlibEncode { file_id: e.file_id },
                )
            } else if stored->Some_0.len() > 0xffff_ffff {
                r == Err::<Vec<u8>, BinaryNosArchiveError>(
                    BinaryNosArchiveError::EntryTooLarge {
                        file_id: e.file_id,
                        size: stored->Some_0.len() as usize,
                    },
                )
            } else {
                r is Ok && r->Ok_0@ == chunk_bytes(e, options.compression, options.zlib_level)
                    && r->Ok_0@.len() == 13 + stored->Some_0.len() && stream_decodes(
                    e,
                    options.compression,
                    options.zlib_level,
                )
            }
        }),
{
    if entry.data.len() > 0xffff_ffff {
        return Err(
            BinaryNosArchiveError::EntryTooLarge { file_id: entry.file_id, size: entry.data.len() },
        );
    }
    let compression = match entry.compression {
        Some(chosen) => chosen,
        None => options.compression,
    };
    let stored = match compression {
        BinaryCompression::Raw => bytes_to_vec(entry.data.as_slice()),
        BinaryCompression::Zlib => {
            if options.zlib_level > 9 {
                return Err(
                    BinaryNosArchiveError::InvalidZlibLevel { file_id: entry.file_id, level: options.zlib_level },
                );
            }
            match deflate(entry.data.as_slice(), options.zlib_level) {
                Some(v) => v,
                None => return Err(BinaryNosArchiveError::ZlibEncode { file_id: entry.file_id }),
            }
        },
    };
    if stored.len() > 0xffff_ffff {
        return Err(
            BinaryNosArchiveError::EntryTooLarge { file_id: entry.file_id, size: stored.len() },
        );
    }
    let flag: u8 = match compression {
        BinaryCompression::Raw => 0,
        BinaryCompression::Zlib => 1,
    };
    let mut chunk: Vec<u8> = Vec::new();
    push_i32_le(&mut chunk, entry.file_id);
    push_u32_le(&mut chunk, entry.data.len() as u32);
    push_u32_le(&mut chunk, stored.len() as u32);
    chunk.push(flag);
    extend_bytes(&mut chunk, stored.as_slice());
    proof {
        crate::bytes::lemma_i32_round_trip(entry.file_id);
        crate::bytes::lemma_u32_round_trip(entry.data.len() as u32);
        crate::bytes::lemma_u32_round_trip(stored.len() as u32);
    }
    assert(chunk@ =~= chunk_bytes(entry@, options.compression, options.zlib_level));
    Ok(chunk)
}

/// Rebuilds archive bytes from write entries.
pub fn write_binary_nos_archive_bytes(
    entries: &[BinaryNosArchiveWriteEntry],
    options: &BinaryNosArchiveWriteOptions,
) -> (r: Result<Vec<u8>, BinaryNosArchiveError>)
    ensures
        match write_problem(write_entries_view(entries@), options.compression, options.zlib_level) {
            Some(e) => r is Err && r->Err_0 == e,
            None => r is Ok && r->Ok_0@ == written_archive(
                write_entries_view(entries@),
                options.header@,
                options.direct_index,
                options.compression,
                options.zlib_level,
            ),
        },
        r is Ok ==> streams_decode(write_entries_view(entries@), options.compression, options.zlib_level),
{
    let ghost es = write_entries_view(entries@);
    let ghost c = options.compression;
    let ghost level = options.zlib_level;
    let n = entries.len();
    if n > 0x7fff_ffff || n > (usize::MAX - 21) / 8 {
        return Err(BinaryNosArchiveError::TooManyEntries { count: n });
    }
    let table_len = 21 + 8 * n;
    let mut table: Vec<u8> = Vec::new();
    extend_bytes(&mut table, options.header.as_slice());
    push_i32_le(&mut table, n as i32);
    table.push(options.direct_index);
    let mut chunks: Vec<u8> = Vec::new();
    let mut next_offset: usize = table_len;
    let mut k: usize = 0;
    while k < n
        invariant
            k <= n,
            n == es.len(),
            n <= 0x7fff_ffff,
            table_len == 21 + 8 * n,
            es == write_entries_view(entries@),
            c == options.compression,
            level == options.zlib_level,
            table@ == options.header@ + i32_le_bytes(n as i32) + seq![options.direct_index]
                + written_rows(es, c, level, k as int),
            chunks@ == written_chunks(es, c, level, k as int),
            next_offset == chunk_offset(es, c, level, k as int),
            first_write_problem(es, c, level, 0) == first_write_problem(es, c, level, k as int),
            forall|j: int| 0 <= j < k ==> stream_decodes(#[trigger] es[j], c, level),
        decreases n - k,
    {
        let entry = &entries[k];
        assert(es[k as int] == entry@);
        if next_offset > 0x7fff_ffff {
            return Err(
                BinaryNosArchiveError::DataOffsetTooLarge { file_id: entry.file_id, offset: next_offset },
            );
        }
        push_i32_le(&mut table, entry.file_id);
        push_i32_le(&mut table, next_offset as i32);
        let chunk = encode_chunk(entry, options)?;
        let ghost before = chunks@;
        extend_bytes(&mut chunks, chunk.as_slice());
        if next_offset > usize::MAX - chunk.len() {
            return Err(
                BinaryNosArchiveError::DataOffsetTooLarge { file_id: entry.file_id, offset: usize::MAX },
            );
        }
        next_offset = next_offset + chunk.len();
        k = k + 1;
    }
    let mut out = table;
    extend_bytes(&mut out, chunks.as_slice());
    proof {
        reveal(written_archive);
    }
    Ok(out)
}

/// The table entry that parsing finds for write entry `k` of a written archive.
pub open spec fn written_entry(
    es: Seq<BinaryWriteEntryView>,
    default: BinaryCompression,
    level: u32,
    k: int,
) -> BinaryNosArchiveEntry {
    BinaryNosArchiveEntry {
        file_id: es[k].file_id,
        data_offset: chunk_offset(es, default, level, k) as usize,
        unpacked_size: es[k].data.len() as usize,
        stored_size: stored_of(es[k], default, level)->Some_0.len() as usize,
        compression: effective_compression(es[k], default),
    }
}

/// The table entries that parsing finds in a written archive.
pub open spec fn written_entries(es: Seq<BinaryWriteEntryView>, default: BinaryCompression, level: u32) -> Seq<
    BinaryNosArchiveEntry,
> {
    Seq::new(es.len(), |k: int| written_entry(es, default, level, k))
}

/// The records that decoding a written archive gives: each entry's file id,
/// its effective compression and its data.
pub open spec fn written_records(es: Seq<BinaryWriteEntryView>, default: BinaryCompression) -> Seq<
    BinaryRecordView,
> {
    Seq::new(
        es.len(),
        |k: int|
            BinaryRecordView {
                file_id: es[k].file_id,
                compression: effective_compression(es[k], default),
                data: es[k].data,
            },
    )
}

/// No write entry from `j` on reports a problem when none is reported from `j`.
proof fn lemma_no_entry_problem(es: Seq<BinaryWriteEntryView>, c: BinaryCompression, l: u32, j: int, k: int)
    requires
        0 <= j <= k < es.len(),
        first_write_problem(es, c, l, j) is None,
    ensures
        entry_write_problem(es, c, l, k) is None,
    decreases k - j,
{
    if j < k {
        lemma_no_entry_problem(es, c, l, j + 1, k);
    }
}

/// The rows of the first `m` entries take eight bytes each.
proof fn lemma_rows_len(es: Seq<BinaryWriteEntryView>, c: BinaryCompression, l: u32, m: int)
    requires
        0 <= m,
    ensures
        written_rows(es, c, l, m).len() == 8 * m,
    decreases m,
{
    if m > 0 {
        lemma_rows_len(es, c, l, m - 1);
    }
}

/// Row `k` lies at offset `8 * k` of the rows of the first `m` entries.
proof fn lemma_row_at(es: Seq<BinaryWriteEntryView>, c: BinaryCompression, l: u32, m: int, k: int)
    requires
        0 <= k < m,
    ensures
        written_rows(es, c, l, m).subrange(8 * k, 8 * k + 8) == i32_le_bytes(es[k].file_id)
            + i32_le_bytes(chunk_offset(es, c, l, k) as i32),
    decreases m,
{
    lemma_rows_len(es, c, l, m - 1);
    let prev = written_rows(es, c, l, m - 1);
    let whole = written_rows(es, c, l, m);
    if k < m - 1 {
        lemma_row_at(es, c, l, m - 1, k);
        assert(whole.subrange(8 * k, 8 * k + 8) =~= prev.subrange(8 * k, 8 * k + 8));
    } else {
        assert(whole.subrange(8 * k, 8 * k + 8) =~= i32_le_bytes(es[k].file_id) + i32_le_bytes(
            chunk_offset(es, c, l, k) as i32,
        ));
    }
}

/// The chunk of entry `k` lies where its offset says, inside the chunks of
/// the first `m` entries.
proof fn lemma_chunk_at(es: Seq<BinaryWriteEntryView>, c: BinaryCompression, l: u32, m: int, k: int)
    requires
        0 <= k < m,
    ensures
        written_chunks(es, c, l, k).len() + chunk_bytes(es[k], c, l).len() <= written_chunks(
            es,
            c,
            l,
            m,
        ).len(),
        written_chunks(es, c, l, m).subrange(
            written_chunks(es, c, l, k).len() as int,
            (written_chunks(es, c, l, k).len() + chunk_bytes(es[k], c, l).len()) as int,
        ) == chunk_bytes(es[k], c, l),
    decreases m,
{
    let prev = written_chunks(es, c, l, m - 1);
    let whole = written_chunks(es, c, l, m);
    let start = written_chunks(es, c, l, k).len() as int;
    let end = start + chunk_bytes(es[k], c, l).len();
    if k < m - 1 {
        lemma_chunk_at(es, c, l, m - 1, k);
        assert(whole.subrange(start, end) =~= prev.subrange(start, end));
    } else {
        assert(whole.subrange(start, end) =~= chunk_bytes(es[k], c, l));
    }
}

/// A written archive is its 21-byte prefix, its rows and its chunks.
proof fn lemma_written_split(
    es: Seq<BinaryWriteEntryView>,
    header: Seq<u8>,
    di: u8,
    c: BinaryCompression,
    l: u32,
)
    requires
        header.len() == 16,
    ensures
        written_archive(es, header, di, c, l).len() == 21 + 8 * es.len() + written_chunks(
            es,
            c,
            l,
            es.len() as int,
        ).len(),
        written_archive(es, header, di, c, l).subrange(21, 21 + 8 * es.len() as int) == written_rows(
            es,
            c,
            l,
            es.len() as int,
        ),
        written_archive(es, header, di, c, l).subrange(
            21 + 8 * es.len() as int,
            written_archive(es, header, di, c, l).len() as int,
        ) == written_chunks(es, c, l, es.len() as int),
        written_archive(es, header, di, c, l).subrange(16, 20) == i32_le_bytes(es.len() as i32),
        written_archive(es, header, di, c, l)[20] == di,
{
    reveal(written_archive);
    let n = es.len() as int;
    let w = written_archive(es, header, di, c, l);
    let rows = written_rows(es, c, l, n);
    let chunks = written_chunks(es, c, l, n);
    lemma_rows_len(es, c, l, n);
    let pre = header + i32_le_bytes(n as i32) + seq![di];
    assert(pre.len() == 21);
    assert(w.subrange(21, 21 + 8 * n) =~= rows);
    assert(w.subrange(21 + 8 * n, w.len() as int) =~= chunks);
    assert(w.subrange(16, 20) =~= i32_le_bytes(n as i32));
}

/// Where row `k` and chunk `k` lie in a written archive.
#[verifier::spinoff_prover]
#[verifier::rlimit(40)]
proof fn lemma_written_layout(
    es: Seq<BinaryWriteEntryView>,
    header: Seq<u8>,
    di: u8,
    c: BinaryCompression,
    l: u32,
    k: int,
)
    requires
        header.len() == 16,
        0 <= k < es.len(),
    ensures
        ({
            let w = written_archive(es, header, di, c, l);
            let off = chunk_offset(es, c, l, k);
            let ch = chunk_bytes(es[k], c, l);
            &&& w.subrange(21 + 8 * k, 25 + 8 * k) == i32_le_bytes(es[k].file_id)
            &&& w.subrange(25 + 8 * k, 29 + 8 * k) == i32_le_bytes(off as i32)
            &&& off + ch.len() <= w.len()
            &&& w.subrange(off, off + ch.len()) == ch
        }),
{
    let n = es.len() as int;
    let w = written_archive(es, header, di, c, l);
    lemma_written_split(es, header, di, c, l);
    let rows = w.subrange(21, 21 + 8 * n);
    let chunks = w.subrange(21 + 8 * n, w.len() as int);
    lemma_row_at(es, c, l, n, k);
    lemma_chunk_at(es, c, l, n, k);
    let off = chunk_offset(es, c, l, k);
    let ch = chunk_bytes(es[k], c, l);
    assert(w.subrange(21 + 8 * k, 25 + 8 * k) =~= rows.subrange(8 * k, 8 * k + 4));
    assert(w.subrange(25 + 8 * k, 29 + 8 * k) =~= rows.subrange(8 * k + 4, 8 * k + 8));
    let r8 = rows.subrange(8 * k, 8 * k + 8);
    assert(rows.subrange(8 * k, 8 * k + 4) =~= r8.subrange(0, 4));
    assert(rows.subrange(8 * k + 4, 8 * k + 8) =~= r8.subrange(4, 8));
    assert(r8.subrange(0, 4) =~= i32_le_bytes(es[k].file_id));
    assert(r8.subrange(4, 8) =~= i32_le_bytes(off as i32));
    let wc = written_chunks(es, c, l, k).len() as int;
    assert(w.subrange(off, off + ch.len()) =~= chunks.subrange(wc, wc + ch.len()));
}

/// The fields of a chunk that holds `ch` at `off`.
proof fn lemma_chunk_fields(w: Seq<u8>, off: int, e: BinaryWriteEntryView, c: BinaryCompression, l: u32)
    requires
        0 <= off,
        stored_of(e, c, l) is Some,
        off + chunk_bytes(e, c, l).len() <= w.len(),
        w.subrange(off, off + chunk_bytes(e, c, l).len()) == chunk_bytes(e, c, l),
    ensures
        chunk_bytes(e, c, l).len() == 13 + stored_of(e, c, l)->Some_0.len(),
        u32_at(w, off + 4) == e.data.len() as u32,
        u32_at(w, off + 8) == stored_of(e, c, l)->Some_0.len() as u32,
        w[off + 12] == flag_of(effective_compression(e, c)),
        w.subrange(off + 13, off + 13 + stored_of(e, c, l)->Some_0.len()) == stored_of(
            e,
            c,
            l,
        )->Some_0,
{
    let stored = stored_of(e, c, l)->Some_0;
    let ch = chunk_bytes(e, c, l);
    let win = w.subrange(off, off + ch.len());
    crate::bytes::lemma_u32_round_trip(e.data.len() as u32);
    crate::bytes::lemma_u32_round_trip(stored.len() as u32);
    assert(w.subrange(off + 4, off + 8) =~= win.subrange(4, 8));
    assert(w.subrange(off + 8, off + 12) =~= win.subrange(8, 12));
    assert(win.subrange(4, 8) =~= u32_le_bytes(e.data.len() as u32));
    assert(win.subrange(8, 12) =~= u32_le_bytes(stored.len() as u32));
    assert(w[off + 12] == win[12]);
    assert(w.subrange(off + 13, off + 13 + stored.len()) =~= win.subrange(13, 13 + stored.len() as int));
    assert(win.subrange(13, 13 + stored.len() as int) =~= stored);
}

/// Row `k` of a written archive parses to the entry written for it, and its
/// payload decodes to the entry's data.
proof fn lemma_written_row(
    es: Seq<BinaryWriteEntryView>,
    header: Seq<u8>,
    di: u8,
    c: BinaryCompression,
    l: u32,
    k: int,
)
    requires
        header.len() == 16,
        0 <= k < es.len(),
        write_problem(es, c, l) is None,
        streams_decode(es, c, l),
    ensures
        row_problem(written_archive(es, header, di, c, l), k) is None,
        row_entry(written_archive(es, header, di, c, l), k) == written_entry(es, c, l, k),
        decode_entry(written_archive(es, header, di, c, l), written_entry(es, c, l, k)) == Ok::<
            Seq<u8>,
            BinaryProblem,
        >(es[k].data),
{
    let w = written_archive(es, header, di, c, l);
    lemma_no_entry_problem(es, c, l, 0, k);
    assert(stream_decodes(es[k], c, l));
    lemma_written_layout(es, header, di, c, l, k);
    let off = chunk_offset(es, c, l, k);
    crate::bytes::lemma_i32_round_trip(es[k].file_id);
    crate::bytes::lemma_i32_round_trip(off as i32);
    lemma_chunk_fields(w, off, es[k], c, l);
}

/// No table row from `j` on is bad when every row is fine.
proof fn lemma_no_bad_row(d: Seq<u8>, j: int, n: int)
    requires
        0 <= j,
        forall|k: int| 0 <= k < n ==> #[trigger] row_problem(d, k) is None,
    ensures
        first_bad_row(d, j, n) is None,
    decreases n - j,
{
    if j < n {
        assert(row_problem(d, j) is None);
        lemma_no_bad_row(d, j + 1, n);
    }
}

/// No entry from `j` on fails to decode when every entry decodes.
proof fn lemma_no_undecodable(d: Seq<u8>, es: Seq<BinaryNosArchiveEntry>, j: int)
    requires
        0 <= j,
        forall|k: int| 0 <= k < es.len() ==> decode_entry(d, #[trigger] es[k]) is Ok,
    ensures
        first_undecodable(d, es, j) is None,
    decreases es.len() - j,
{
    if j < es.len() {
        assert(decode_entry(d, es[j]) is Ok);
        lemma_no_undecodable(d, es, j + 1);
    }
}

/// Parsing a written archive finds the written entries.
proof fn lemma_written_parses(
    es: Seq<BinaryWriteEntryView>,
    header: Seq<u8>,
    di: u8,
    c: BinaryCompression,
    l: u32,
)
    requires
        header.len() == 16,
        write_problem(es, c, l) is None,
        streams_decode(es, c, l),
    ensures
        parse_binary(written_archive(es, header, di, c, l)) == Ok::<
            (u8, Seq<BinaryNosArchiveEntry>),
            BinaryProblem,
        >((di, written_entries(es, c, l))),
{
    let n = es.len() as int;
    let w = written_archive(es, header, di, c, l);
    let ents = written_entries(es, c, l);
    assert(i32_at(w, 16) == n && w.len() >= 21 + 8 * n && w[20] == di) by {
        lemma_written_split(es, header, di, c, l);
        crate::bytes::lemma_i32_round_trip(n as i32);
    }
    assert forall|k: int| 0 <= k < n implies #[trigger] row_problem(w, k) is None by {
        lemma_written_row(es, header, di, c, l, k);
    }
    lemma_no_bad_row(w, 0, n);
    assert forall|k: int| 0 <= k < n implies #[trigger] row_entry(w, k) == ents[k] by {
        lemma_written_row(es, header, di, c, l, k);
    }
    assert(Seq::new(n as nat, |k: int| row_entry(w, k)) =~= ents);
}

/// Decoding the records of a written archive gives back the write entries.
proof fn lemma_written_decodes(
    es: Seq<BinaryWriteEntryView>,
    header: Seq<u8>,
    di: u8,
    c: BinaryCompression,
    l: u32,
)
    requires
        header.len() == 16,
        write_problem(es, c, l) is None,
        streams_decode(es, c, l),
    ensures
        decode_records(written_archive(es, header, di, c, l), written_entries(es, c, l)) == Ok::<
            Seq<BinaryRecordView>,
            BinaryProblem,
        >(written_records(es, c)),
{
    let w = written_archive(es, header, di, c, l);
    let ents = written_entries(es, c, l);
    assert forall|k: int| 0 <= k < ents.len() implies decode_entry(w, #[trigger] ents[k]) == Ok::<
        Seq<u8>,
        BinaryProblem,
    >(es[k].data) by {
        lemma_written_row(es, header, di, c, l, k);
    }
    lemma_no_undecodable(w, ents, 0);
    assert(decode_records(w, ents)->Ok_0 =~= written_records(es, c));
}

/// Parsing a written archive finds the written entries, and decoding its
/// records gives back each write entry's file id, effective compression and
/// data.
pub proof fn lemma_write_then_read(
    es: Seq<BinaryWriteEntryView>,
    header: Seq<u8>,
    di: u8,
    c: BinaryCompression,
    l: u32,
)
    requires
        header.len() == 16,
        write_problem(es, c, l) is None,
        streams_decode(es, c, l),
    ensures
        parse_binary(written_archive(es, header, di, c, l)) == Ok::<
            (u8, Seq<BinaryNosArchiveEntry>),
            BinaryProblem,
        >((di, written_entries(es, c, l))),
        decode_records(written_archive(es, header, di, c, l), written_entries(es, c, l)) == Ok::<
            Seq<BinaryRecordView>,
            BinaryProblem,
        >(written_records(es, c)),
{
    lemma_written_parses(es, header, di, c, l);
    lemma_written_decodes(es, header, di, c, l);
}

impl BinaryNosArchive {
    /// Whether the archive is the one written for entries `es` under `options`.
    pub open spec fn is_written_from(self, es: Seq<BinaryWriteEntryView>, options: BinaryNosArchiveWriteOptions) -> bool {
        &&& self.wf()
        &&& self.bytes() == written_archive(
            es,
            options.header@,
            options.direct_index,
            options.compression,
            options.zlib_level,
        )
        &&& self.entries_spec() == written_entries(es, options.compression, options.zlib_level)
        &&& self.direct_index_spec() == options.direct_index
        &&& decode_records(self.bytes(), self.entries_spec()) == Ok::<
            Seq<BinaryRecordView>,
            BinaryProblem,
        >(written_records(es, options.compression))
    }

    /// Builds an archive from write entries and parses it.
    pub fn from_entries(
        path: String,
        entries: Vec<BinaryNosArchiveWriteEntry>,
        options: &BinaryNosArchiveWriteOptions,
    ) -> (r: Result<Self, BinaryNosArchiveError>)
        ensures
            match write_problem(write_entries_view(entries@), options.compression, options.zlib_level) {
                Some(e) => r is Err && r->Err_0 == e,
                None => r is Ok && r->Ok_0.is_written_from(write_entries_view(entries@), *options)
                    && r->Ok_0.path_view() == path@,
            },
    {
        let data = write_binary_nos_archive_bytes(entries.as_slice(), options)?;
        proof {
            lemma_write_then_read(
                write_entries_view(entries@),
                options.header@,
                options.direct_index,
                options.compression,
                options.zlib_level,
            );
        }
        Self::from_bytes(path, data)
    }

    /// Builds an archive without records.
    pub fn empty(path: String, options: &BinaryNosArchiveWriteOptions) -> (r: Result<
        Self,
        BinaryNosArchiveError,
    >)
        ensures
            r is Ok,
            r->Ok_0.is_written_from(Seq::<BinaryWriteEntryView>::empty(), *options),
            r->Ok_0.path_view() == path@,
    {
        let entries: Vec<BinaryNosArchiveWriteEntry> = Vec::new();
        assert(write_entries_view(entries@) =~= Seq::<BinaryWriteEntryView>::empty());
        Self::from_entries(path, entries, options)
    }

    /// Rebuilds the archive bytes from its decoded records under `options`.
    pub fn to_bytes_with_options(&self, options: &BinaryNosArchiveWriteOptions) -> (r: Result<
        Vec<u8>,
        BinaryNosArchiveError,
    >)
        ensures
            match decode_records(self.bytes(), self.entries_spec()) {
                Err(p) => (r matches Err(e) && reports(e, self.path_view(), p)),
                Ok(rs) => match write_problem(
                    records_as_write_entries(rs),
                    options.compression,
                    options.zlib_level,
                ) {
                    Some(e) => r is Err && r->Err_0 == e,
                    None => r is Ok && r->Ok_0@ == written_archive(
                        records_as_write_entries(rs),
                        options.header@,
                        options.direct_index,
                        options.compression,
                        options.zlib_level,
                    ),
                },
            },
    {
        let entries = self.write_entries()?;
        write_binary_nos_archive_bytes(entries.as_slice(), options)
    }

    /// Replaces the whole archive with one written for new entries; on
    /// error the archive is unchanged.
    pub fn rebuild_from_entries(
        &mut self,
        entries: Vec<BinaryNosArchiveWriteEntry>,
        options: &BinaryNosArchiveWriteOptions,
    ) -> (r: Result<(), BinaryNosArchiveError>)
        ensures
            match write_problem(write_entries_view(entries@), options.compression, options.zlib_level) {
                Some(e) => r is Err && r->Err_0 == e && *final(self) == *old(self),
                None => r is Ok && final(self).is_written_from(write_entries_view(entries@), *options)
                    && final(self).path_view() == old(self).path_view(),
            },
    {
        let path = self.path.clone();
        let rebuilt = Self::from_entries(path, entries, options)?;
        *self = rebuilt;
        Ok(())
    }

    /// Appends a record and rebuilds the archive; returns the new record's index.
    pub fn push_record(&mut self, record: BinaryNosArchiveWriteEntry, options: &BinaryNosArchiveWriteOptions) -> (r:
        Result<usize, BinaryNosArchiveError>)
        ensures
            match decode_records(old(self).bytes(), old(self).entries_spec()) {
                Err(p) => (r matches Err(e) && reports(e, old(self).path_view(), p)) && *final(self) == *old(self),
                Ok(rs) => {
                    let after = records_as_write_entries(rs).push(record@);
                    match write_problem(after, options.compression, options.zlib_level) {
                        Some(e) => r is Err && r->Err_0 == e && *final(self) == *old(self),
                        None => r == Ok::<usize, BinaryNosArchiveError>(rs.len() as usize)
                            && final(self).is_written_from(after, *options)
                            && final(self).path_view() == old(self).path_view(),
                    }
                },
            },
    {
        let mut records = self.write_entries()?;
        let index = records.len();
        let ghost before = write_entries_view(records@);
        records.push(record);
        assert(write_entries_view(records@) =~= before.push(record@));
        self.rebuild_from_entries(records, options)?;
        Ok(index)
    }

    /// Inserts a record at a table index and rebuilds the archive.
    pub fn insert_record(
        &mut self,
        index: usize,
        record: BinaryNosArchiveWriteEntry,
        options: &BinaryNosArchiveWriteOptions,
    ) -> (r: Result<(), BinaryNosArchiveError>)
        ensures
            match decode_records(old(self).bytes(), old(self).entries_spec()) {
                Err(p) => (r matches Err(e) && reports(e, old(self).path_view(), p)) && *final(self) == *old(self),
                Ok(rs) => if index > rs.len() {
                    (r matches Err(e) && is_index_error(e, old(self).path_view(), index, rs.len() as usize)) && *final(self) == *old(self)
                } else {
                    let after = records_as_write_entries(rs).insert(index as int, record@);
                    match write_problem(after, options.compression, options.zlib_level) {
                        Some(e) => r is Err && r->Err_0 == e && *final(self) == *old(self),
                        None => r is Ok && final(self).is_written_from(after, *options)
                            && final(self).path_view() == old(self).path_view(),
                    }
                },
            },
    {
        let mut records = self.write_entries()?;
        if index > records.len() {
            return Err(
                BinaryNosArchiveError::RecordIndexOutOfBounds { path: self.path.clone(), index, count: records.len() },
            );
        }
        let ghost before = write_entries_view(records@);
        records.insert(index, record);
        assert(write_entries_view(records@) =~= before.insert(index as int, record@));
        self.rebuild_from_entries(records, options)
    }

    fn record_at(&self, index: usize) -> (r: Result<BinaryNosArchiveRecord, BinaryNosArchiveError>)
        ensures
            index >= self.entries_spec().len() ==> (r matches Err(e) && is_index_error(e, self.path_view(), index, self.entries_spec().len() as usize)),
            index < self.entries_spec().len() ==> match decode_entry(
                self.bytes(),
                self.entries_spec()[index as int],
            ) {
                Ok(data) => r is Ok && r->Ok_0@ == (BinaryRecordView {
                    file_id: self.entries_spec()[index as int].file_id,
                    compression: self.entries_spec()[index as int].compression,
                    data,
                }),
                Err(p) => (r matches Err(e) && reports(e, self.path_view(), p)),
            },
    {
        if index >= self.entries.len() {
            return Err(
                BinaryNosArchiveError::RecordIndexOutOfBounds { path: self.path.clone(), index, count: self.entries.len() },
            );
        }
        self.record_from_entry(&self.entries[index])
    }

    /// Replaces the record at a table index and rebuilds the archive;
    /// returns the replaced record.
    pub fn replace_record_at(
        &mut self,
        index: usize,
        record: BinaryNosArchiveWriteEntry,
        options: &BinaryNosArchiveWriteOptions,
    ) -> (r: Result<BinaryNosArchiveRecord, BinaryNosArchiveError>)
        ensures
            match decode_records(old(self).bytes(), old(self).entries_spec()) {
                Err(p) => (r matches Err(e) && reports(e, old(self).path_view(), p)) && *final(self) == *old(self),
                Ok(rs) => if index >= rs.len() {
                    (r matches Err(e) && is_index_error(e, old(self).path_view(), index, rs.len() as usize)) && *final(self) == *old(self)
                } else {
                    let after = records_as_write_entries(rs).update(index as int, record@);
                    match write_problem(after, options.compression, options.zlib_level) {
                        Some(e) => r is Err && r->Err_0 == e && *final(self) == *old(self),
                        None => r is Ok && r->Ok_0@ == rs[index as int] && final(self).is_written_from(after, *options) && final(self).path_view() == old(self).path_view(),
                    }
                },
            },
    {
        let mut records = self.write_entries()?;
        if index >= records.len() {
            return Err(
                BinaryNosArchiveError::RecordIndexOutOfBounds { path: self.path.clone(), index, count: records.len() },
            );
        }
        proof {
            lemma_decoded_at(self.bytes(), self.entries_spec(), index as int);
        }
        let old_record = self.record_at(index)?;
        let ghost before = write_entries_view(records@);
        records.set(index, record);
        assert(write_entries_view(records@) =~= before.update(index as int, record@));
        self.rebuild_from_entries(records, options)?;
        Ok(old_record)
    }

    /// Removes the record at a table index and rebuilds the archive;
    /// returns the removed record.
    pub fn remove_record_at(&mut self, index: usize, options: &BinaryNosArchiveWriteOptions) -> (r:
        Result<BinaryNosArchiveRecord, BinaryNosArchiveError>)
        ensures
            match decode_records(old(self).bytes(), old(self).entries_spec()) {
                Err(p) => (r matches Err(e) && reports(e, old(self).path_view(), p)) && *final(self) == *old(self),
                Ok(rs) => if index >= rs.len() {
                    (r matches Err(e) && is_index_error(e, old(self).path_view(), index, rs.len() as usize)) && *final(self) == *old(self)
                } else {
                    let after = records_as_write_entries(rs).remove(index as int);
                    match write_problem(after, options.compression, options.zlib_level) {
                        Some(e) => r is Err && r->Err_0 == e && *final(self) == *old(self),
                        None => r is Ok && r->Ok_0@ == rs[index as int] && final(self).is_written_from(after, *options) && final(self).path_view() == old(self).path_view(),
                    }
                },
            },
    {
        let mut records = self.write_entries()?;
        if index >= records.len() {
            return Err(
                BinaryNosArchiveError::RecordIndexOutOfBounds { path: self.path.clone(), index, count: records.len() },
            );
        }
        proof {
            lemma_decoded_at(self.bytes(), self.entries_spec(), index as int);
        }
        let old_record = self.record_at(index)?;
        let ghost before = write_entries_view(records@);
        records.remove(index);
        assert(write_entries_view(records@) =~= before.remove(index as int));
        self.rebuild_from_entries(records, options)?;
        Ok(old_record)
    }

    /// Replaces the first record with file id `file_id` and rebuilds the
    /// archive; returns the replaced record, or `None` without a change when
    /// no record has the id.
    pub fn replace_record(
        &mut self,
        file_id: i32,
        data: Vec<u8>,
        compression: Option<BinaryCompression>,
        options: &BinaryNosArchiveWriteOptions,
    ) -> (r: Result<Option<BinaryNosArchiveRecord>, BinaryNosArchiveError>)
        ensures
            match id_index_from(old(self).entries_spec(), file_id, 0) {
                None => r is Ok && r->Ok_0 is None && *final(self) == *old(self),
                Some(index) => match decode_records(old(self).bytes(), old(self).entries_spec()) {
                    Err(p) => (r matches Err(e) && reports(e, old(self).path_view(), p)) && *final(self) == *old(self),
                    Ok(rs) => {
                        let after = records_as_write_entries(rs).update(
                            index,
                            BinaryWriteEntryView { file_id, compression, data: data@ },
                        );
                        match write_problem(after, options.compression, options.zlib_level) {
                            Some(e) => r is Err && r->Err_0 == e && *final(self) == *old(self),
                            None => r is Ok && r->Ok_0 is Some && r->Ok_0->Some_0@ == rs[index]
                                && final(self).is_written_from(after, *options) && final(self).path_view() == old(self).path_view(),
                        }
                    },
                },
            },
    {
        proof {
            lemma_id_index_from_bounds(self.entries_spec(), file_id, 0);
            if decode_records(self.bytes(), self.entries_spec()) is Ok {
                lemma_decoded_len(self.bytes(), self.entries_spec());
            }
        }
        let index = match self.find_entry_index(file_id) {
            Some(i) => i,
            None => return Ok(None),
        };
        let old_record = self.replace_record_at(
            index,
            BinaryNosArchiveWriteEntry { file_id, compression, data },
            options,
        )?;
        Ok(Some(old_record))
    }

    /// Removes the first record with file id `file_id` and rebuilds the
    /// archive; returns the removed record, or `None` without a change when
    /// no record has the id.
    pub fn remove_record(&mut self, file_id: i32, options: &BinaryNosArchiveWriteOptions) -> (r:
        Result<Option<BinaryNosArchiveRecord>, BinaryNosArchiveError>)
        ensures
            match id_index_from(old(self).entries_spec(), file_id, 0) {
                None => r is Ok && r->Ok_0 is None && *final(self) == *old(self),
                Some(index) => match decode_records(old(self).bytes(), old(self).entries_spec()) {
                    Err(p) => (r matches Err(e) && reports(e, old(self).path_view(), p)) && *final(self) == *old(self),
                    Ok(rs) => {
                        let after = records_as_write_entries(rs).remove(index);
                        match write_problem(after, options.compression, options.zlib_level) {
                            Some(e) => r is Err && r->Err_0 == e && *final(self) == *old(self),
                            None => r is Ok && r->Ok_0 is Some && r->Ok_0->Some_0@ == rs[index]
                                && final(self).is_written_from(after, *options) && final(self).path_view() == old(self).path_view(),
                        }
                    },
                },
            },
    {
        proof {
            lemma_id_index_from_bounds(self.entries_spec(), file_id, 0);
            if decode_records(self.bytes(), self.entries_spec()) is Ok {
                lemma_decoded_len(self.bytes(), self.entries_spec());
            }
        }
        let index = match self.find_entry_index(file_id) {
            Some(i) => i,
            None => return Ok(None),
        };
        let old_record = self.remove_record_at(index, options)?;
        Ok(Some(old_record))
    }
}

/// Decoded records line up with the entries.
proof fn lemma_decoded_len(d: Seq<u8>, es: Seq<BinaryNosArchiveEntry>)
    requires
        decode_records(d, es) is Ok,
    ensures
        decode_records(d, es)->Ok_0.len() == es.len(),
{
}

/// The decoded record at `k` is the decoded payload of entry `k`.
proof fn lemma_decoded_at(d: Seq<u8>, es: Seq<BinaryNosArchiveEntry>, k: int)
    requires
        0 <= k < es.len(),
        decode_records(d, es) is Ok,
    ensures
        decode_entry(d, es[k]) is Ok,
        decode_records(d, es)->Ok_0[k] == (BinaryRecordView {
            file_id: es[k].file_id,
            compression: es[k].compression,
            data: decode_entry(d, es[k])->Ok_0,
        }),
{
    lemma_first_undecodable_none(d, es, 0, k);
}

/// An entry at or after `j` decodes when none from `j` on fails.
proof fn lemma_first_undecodable_none(d: Seq<u8>, es: Seq<BinaryNosArchiveEntry>, j: int, k: int)
    requires
        0 <= j <= k < es.len(),
        first_undecodable(d, es, j) is None,
    ensures
        decode_entry(d, es[k]) is Ok,
    decreases k - j,
{
    if j < k {
        lemma_first_undecodable_none(d, es, j + 1, k);
    }
}

/// What reading file id `id` from an archive gives: no payload when no
/// entry has the id, else the first such entry's decoded payload or error.
pub open spec fn archive_read(a: BinaryNosArchive, id: i32) -> Result<
    Option<Seq<u8>>,
    BinaryProblem,
> {
    match id_index_from(a.entries_spec(), id, 0) {
        None => Ok(None),
        Some(i) => match decode_entry(a.bytes(), a.entries_spec()[i]) {
            Ok(data) => Ok(Some(data)),
            Err(e) => Err(e),
        },
    }
}

/// The first archive at or after `k` whose read of `id` gives a payload or an error.
pub open spec fn first_answering(archives: Seq<BinaryNosArchive>, id: i32, k: int) -> Option<int>
    decreases archives.len() - k,
{
    if k < 0 || k >= archives.len() {
        None
    } else if archive_read(archives[k], id) != Ok::<Option<Seq<u8>>, BinaryProblem>(None) {
        Some(k)
    } else {
        first_answering(archives, id, k + 1)
    }
}

/// The chunk of a split family that the low byte of a file id selects.
pub open spec fn selected_chunk(id: i32) -> int {
    (crate::bytes::i32_bits(id) % 256) as int
}

/// Whether a payload is the successful read of archive `a` for file id `id`.
pub open spec fn payload_from(p: BinaryEntryPayload, a: BinaryNosArchive, id: i32) -> bool {
    archive_read(a, id) == Ok::<Option<Seq<u8>>, BinaryProblem>(Some(p.data@))
        && p.source.archive@ == a.path_view() && p.source.file_id == id
}

/// `.NOS`
pub open spec fn nos_suffix() -> Seq<char> {
    seq!['.', 'N', 'O', 'S']
}

/// The single-file archive of a family: `<family>.NOS`.
pub fn family_archive_name(family: &str) -> (r: String)
    ensures
        r@ == family@ + nos_suffix(),
{
    let mut cs = crate::chartext::str_chars(family);
    let ghost head = cs@;
    cs.push('.');
    cs.push('N');
    cs.push('O');
    cs.push('S');
    assert(cs@ =~= head + nos_suffix());
    crate::textenc::chars_to_string(cs.as_slice())
}

/// Whether a file name is a chunk of a family: it starts with the family name and ends
/// in `.NOS`, both as written.
pub open spec fn is_family_chunk(name: Seq<char>, family: Seq<char>) -> bool {
    &&& name.len() >= family.len() && name.take(family.len() as int) == family
    &&& name.len() >= 4 && name.skip(name.len() - 4) == nos_suffix()
}

/// Whether a directory entry's file name is a chunk of a family.
pub fn is_family_chunk_name(name: &str, family: &str) -> (r: bool)
    ensures
        r == is_family_chunk(name@, family@),
{
    let n = crate::chartext::str_chars(name);
    let f = crate::chartext::str_chars(family);
    if n.len() < f.len() || n.len() < 4 {
        return false;
    }
    let mut i: usize = 0;
    while i < f.len()
        invariant
            f@.len() <= n@.len(),
            n@ == name@,
            f@ == family@,
            i <= f@.len(),
            forall|k: int| 0 <= k < i ==> n@[k] == f@[k],
        decreases f@.len() - i,
    {
        if n[i] != f[i] {
            assert(n@.take(f@.len() as int)[i as int] == n@[i as int]);
            assert(n@.take(f@.len() as int) != f@);
            return false;
        }
        i = i + 1;
    }
    assert(n@.take(f@.len() as int) =~= f@);
    let m = n.len();
    let ok = n[m - 4] == '.' && n[m - 3] == 'N' && n[m - 2] == 'O' && n[m - 1] == 'S';
    proof {
        if ok {
            assert(n@.skip(m - 4) =~= nos_suffix());
        } else if n@.skip(m - 4) == nos_suffix() {
            assert(n@.skip(m - 4)[0] == n@[m - 4]);
            assert(n@.skip(m - 4)[1] == n@[m - 3]);
            assert(n@.skip(m - 4)[2] == n@[m - 2]);
            assert(n@.skip(m - 4)[3] == n@[m - 1]);
        }
    }
    ok
}

/// Each archive's table entries, each paired with the archive that holds it.
pub open spec fn archive_entry_pairs(archives: Seq<BinaryNosArchive>) -> Seq<Seq<(BinaryNosArchive, BinaryNosArchiveEntry)>> {
    Seq::new(
        archives.len(),
        |k: int| Seq::new(archives[k].entries_spec().len(), |j: int| (archives[k], archives[k].entries_spec()[j])),
    )
}

/// A family of split archives loaded together.
#[derive(Debug, Clone)]
pub struct BinaryNosSplitArchive {
    family: String,
    archives: Vec<BinaryNosArchive>,
}

impl BinaryNosSplitArchive {
    /// The family name.
    pub closed spec fn family_view(&self) -> Seq<char> {
        self.family@
    }

    /// The archives of the family, in load order.
    pub closed spec fn archives_spec(&self) -> Seq<BinaryNosArchive> {
        self.archives@
    }

    /// A family from its archives, in load order.
    pub fn from_archives(family: String, archives: Vec<BinaryNosArchive>) -> (r: Self)
        ensures
            r.family_view() == family@,
            r.archives_spec() == archives@,
    {
        BinaryNosSplitArchive { family, archives }
    }

    /// The family name.
    pub fn family(&self) -> (r: &str)
        ensures
            r@ == self.family_view(),
    {
        self.family.as_str()
    }

    /// The archives of the family, in load order.
    pub fn archives(&self) -> (r: &[BinaryNosArchive])
        ensures
            r@ == self.archives_spec(),
    {
        self.archives.as_slice()
    }

    /// Every table entry of every archive, paired with its archive, in load order.
    pub fn entries(&self) -> (r: Vec<(&BinaryNosArchive, &BinaryNosArchiveEntry)>)
        ensures
            r@.len() == self.archives_spec().map_values(
                |a: BinaryNosArchive| a.entries_spec(),
            ).flatten().len(),
            forall|i: int|
                0 <= i < r@.len() ==> (#[trigger] r@[i]).1 == self.archives_spec().map_values(
                    |a: BinaryNosArchive| a.entries_spec(),
                ).flatten()[i],
            r@.len() == archive_entry_pairs(self.archives_spec()).flatten().len(),
            forall|i: int|
                0 <= i < r@.len() ==> (#[trigger] r@[i]).0 == archive_entry_pairs(self.archives_spec()).flatten()[i].0
                    && r@[i].1 == archive_entry_pairs(self.archives_spec()).flatten()[i].1,
    {
        let ghost all = self.archives@.map_values(|a: BinaryNosArchive| a.entries_spec());
        let ghost pairs = archive_entry_pairs(self.archives@);
        proof {
            assert(pairs.take(0) =~= Seq::<Seq<(BinaryNosArchive, BinaryNosArchiveEntry)>>::empty());
        }
        proof {
            assert(all.take(0) =~= Seq::<Seq<BinaryNosArchiveEntry>>::empty());
        }
        let mut out: Vec<(&BinaryNosArchive, &BinaryNosArchiveEntry)> = Vec::new();
        let mut i: usize = 0;
        while i < self.archives.len()
            invariant
                i <= self.archives@.len(),
                all == self.archives@.map_values(|a: BinaryNosArchive| a.entries_spec()),
                pairs == archive_entry_pairs(self.archives@),
                out@.len() == all.take(i as int).flatten().len(),
                out@.len() == pairs.take(i as int).flatten().len(),
                forall|k: int| 0 <= k < out@.len() ==> (#[trigger] out@[k]).1 == all.take(
                    i as int,
                ).flatten()[k],
                forall|k: int| 0 <= k < out@.len() ==> (#[trigger] out@[k]).0 == pairs.take(
                    i as int,
                ).flatten()[k].0 && out@[k].1 == pairs.take(i as int).flatten()[k].1,
            decreases self.archives@.len() - i,
        {
            let archive = &self.archives[i];
            let entries = archive.entries();
            let ghost start = out@;
            let ghost prefix = all.take(i as int).flatten();
            let ghost pprefix = pairs.take(i as int).flatten();
            assert(forall|k: int| 0 <= k < start.len() ==> (#[trigger] start[k]).1 == prefix[k]);
            assert(forall|k: int| 0 <= k < start.len() ==> (#[trigger] start[k]).0 == pprefix[k].0 && start[k].1 == pprefix[k].1);
            let mut j: usize = 0;
            while j < entries.len()
                invariant
                    j <= entries@.len(),
                    out@.len() == start.len() + j,
                    forall|k: int| 0 <= k < start.len() ==> out@[k] == start[k],
                    forall|k: int| 0 <= k < j ==> (#[trigger] out@[start.len() + k]).1 == entries@[k],
                    forall|k: int| 0 <= k < j ==> (#[trigger] out@[start.len() + k]).0 == *archive,
                decreases entries@.len() - j,
            {
                out.push((archive, &entries[j]));
                j = j + 1;
            }
            proof {
                assert(all.take(i + 1) =~= all.take(i as int).push(all[i as int]));
                all.take(i as int).lemma_flatten_push(all[i as int]);
                let flat = all.take(i + 1).flatten();
                assert(all[i as int] == entries@);
                assert(flat =~= prefix + entries@);
                assert forall|k: int| 0 <= k < out@.len() implies (#[trigger] out@[k]).1 == flat[k] by {
                    if k >= start.len() {
                        assert(out@[start.len() + (k - start.len())] == out@[k]);
                    } else {
                        assert(start[k].1 == prefix[k]);
                    }
                }
                assert(pairs.take(i + 1) =~= pairs.take(i as int).push(pairs[i as int]));
                pairs.take(i as int).lemma_flatten_push(pairs[i as int]);
                let pflat = pairs.take(i + 1).flatten();
                assert(pflat =~= pprefix + pairs[i as int]);
                assert(pairs[i as int].len() == entries@.len());
                assert forall|k: int| 0 <= k < out@.len() implies (#[trigger] out@[k]).0 == pflat[k].0
                    && out@[k].1 == pflat[k].1 by {
                    if k >= start.len() {
                        let m = k - start.len();
                        assert(out@[start.len() + m] == out@[k]);
                        assert(out@[k].0 == *archive);
                        assert(out@[k].1 == entries@[m]);
                        assert(*archive == self.archives@[i as int]);
                        assert(pairs[i as int][m] == (self.archives@[i as int], self.archives@[i as int].entries_spec()[m]));
                        assert(pflat[k] == pairs[i as int][m]);
                    } else {
                        assert(out@[k] == start[k]);
                        assert(start[k].0 == pprefix[k].0 && start[k].1 == pprefix[k].1);
                        assert(pflat[k] == pprefix[k]);
                    }
                }
            }
            i = i + 1;
        }
        assert(all.take(self.archives@.len() as int) =~= all);
        assert(pairs.take(self.archives@.len() as int) =~= pairs);
        out
    }

    /// Reads file id `file_id`: first from the chunk that the id's low byte
    /// selects when the family has several chunks, then from every chunk in
    /// load order; the first chunk that holds the id, or fails to decode it,
    /// decides.
    pub fn read_entry(&self, file_id: i32) -> (r: Result<BinaryEntryPayload, BinaryNosArchiveError>)
        ensures
            ({
                let archives = self.archives_spec();
                let sel = selected_chunk(file_id);
                if archives.len() > 1 && sel < archives.len() && archive_read(archives[sel], file_id)
                    != Ok::<Option<Seq<u8>>, BinaryProblem>(None) {
                    match archive_read(archives[sel], file_id) {
                        Err(p) => (r matches Err(e) && reports(e, archives[sel].path_view(), p)),
                        Ok(_) => r is Ok && payload_from(r->Ok_0, archives[sel], file_id),
                    }
                } else {
                    match first_answering(archives, file_id, 0) {
                        Some(k) => match archive_read(archives[k], file_id) {
                            Err(p) => (r matches Err(e) && reports(e, archives[k].path_view(), p)),
                            Ok(_) => r is Ok && payload_from(r->Ok_0, archives[k], file_id),
                        },
                        None => r is Err && (r->Err_0 matches BinaryNosArchiveError::MissingFileId {
                            family,
                            file_id: missing,
                        } && family@ == self.family_view() && missing == file_id),
                    }
                }
            }),
    {
        let ghost archives = self.archives@;
        if self.archives.len() > 1 {
            let unsigned: u32 = if file_id >= 0 {
                file_id as u32
            } else {
                ((file_id as i64) + 0x1_0000_0000) as u32
            };
            let selected = (unsigned % 256) as usize;
            assert(selected == selected_chunk(file_id));
            if selected < self.archives.len() {
                match self.archives[selected].read_entry(file_id)? {
                    Some(payload) => return Ok(payload),
                    None => {},
                }
            }
        }
        let mut k: usize = 0;
        while k < self.archives.len()
            invariant
                k <= archives.len(),
                archives == self.archives@,
                !(archives.len() > 1 && selected_chunk(file_id) < archives.len() && archive_read(
                    archives[selected_chunk(file_id)],
                    file_id,
                ) != Ok::<Option<Seq<u8>>, BinaryProblem>(None)),
                first_answering(archives, file_id, 0) == first_answering(archives, file_id, k as int),
            decreases archives.len() - k,
        {
            match self.archives[k].read_entry(file_id)? {
                Some(payload) => return Ok(payload),
                None => {},
            }
            k = k + 1;
        }
        Err(BinaryNosArchiveError::MissingFileId { family: self.family.clone(), file_id })
    }
}

} // verus!
