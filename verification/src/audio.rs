//! The client sound table `sndinfo.lst`.
//!
//! The table is an `i32` row count, fixed 124-byte rows and any bytes that
//! follow the rows. A row holds a three-part key, a sound id, an unknown
//! `i32`, a Delphi `string[50]` filename (a length byte and 50 storage
//! bytes) and 53 unknown bytes. Parsing keeps every stored byte, so writing
//! a parsed table gives back the bytes it was parsed from.
use vstd::prelude::*;

use crate::bytes::{
    bytes_to_vec, copy_range, extend_bytes, i32_at, i32_le_bytes, push_i32_le, read_i32_le_at,
};
use crate::common::AssetId;
use crate::textenc::{euc_kr_string, euc_kr_text};

verus! {

/// Length of the row count that starts the table.
pub const SOUND_INFO_HEADER_LEN: usize = 4;

/// Length of one row.
pub const SOUND_INFO_ENTRY_LEN: usize = 0x7c;

/// Storage capacity of the filename field.
pub const SOUND_INFO_FILENAME_CAPACITY: usize = 50;

/// Length of the unknown bytes that end a row.
pub const SOUND_INFO_UNKNOWN_47_LEN: usize = 53;

/// Errors produced while parsing or writing a sound table.
#[derive(Debug, Clone, Copy, PartialEq, Eq)]
pub enum SoundInfoError {
    /// The data is shorter than the row count.
    TruncatedHeader { needed: usize, actual: usize },
    /// The row count is negative.
    InvalidEntryCount { count: i32 },
    /// The table size overflows.
    TableSizeOverflow { count: usize },
    /// The rows run past the end of the data.
    TruncatedTable { needed: usize, actual: usize },
    /// A row's filename length exceeds the field.
    InvalidFilenameLength { entry: usize, length: usize, capacity: usize },
    /// A filename is longer than the field.
    FilenameTooLong { length: usize, capacity: usize },
    /// A filename's storage padding has the wrong length.
    InvalidFilenamePadding { expected: usize, actual: usize },
    /// There are more rows than an `i32` count can hold.
    TooManyEntries { count: usize },
}

/// The three-part key by which the client looks sounds up.
#[derive(Debug, Clone, Copy, PartialEq, Eq, Hash, Structural)]
pub struct SoundKey {
    pub group: i32,
    pub primary: i32,
    pub secondary: i32,
}

impl SoundKey {
    /// A key from its three parts.
    pub fn new(group: i32, primary: i32, secondary: i32) -> (r: Self)
        ensures
            r == (SoundKey { group, primary, secondary }),
    {
        SoundKey { group, primary, secondary }
    }
}

/// A validated `string[50]` filename with its unused storage bytes.
#[derive(Debug, Clone, PartialEq, Eq)]
pub struct SoundFilename {
    bytes: Vec<u8>,
    padding: Vec<u8>,
}

/// The mathematical content of a filename.
pub struct SoundFilenameView {
    pub bytes: Seq<u8>,
    pub padding: Seq<u8>,
}

impl View for SoundFilename {
    type V = SoundFilenameView;

    closed spec fn view(&self) -> SoundFilenameView {
        SoundFilenameView { bytes: self.bytes@, padding: self.padding@ }
    }
}

/// Whether a filename fits the field and its padding fills the rest.
pub open spec fn filename_fits(f: SoundFilenameView) -> bool {
    f.bytes.len() <= 50 && f.bytes.len() + f.padding.len() == 50
}

impl SoundFilename {
    /// Creates a filename and zero-fills the rest of the field.
    pub fn new(bytes: Vec<u8>) -> (r: Result<Self, SoundInfoError>)
        ensures
            bytes@.len() > 50 ==> r == Err::<Self, SoundInfoError>(
                SoundInfoError::FilenameTooLong { length: bytes@.len() as usize, capacity: 50 },
            ),
            bytes@.len() <= 50 ==> r is Ok && r->Ok_0@.bytes == bytes@ && r->Ok_0@.padding
                == Seq::new((50 - bytes@.len()) as nat, |i: int| 0u8),
    {
        if bytes.len() > SOUND_INFO_FILENAME_CAPACITY {
            return Err(
                SoundInfoError::FilenameTooLong {
                    length: bytes.len(),
                    capacity: SOUND_INFO_FILENAME_CAPACITY,
                },
            );
        }
        let n = SOUND_INFO_FILENAME_CAPACITY - bytes.len();
        let mut padding: Vec<u8> = Vec::new();
        let mut i: usize = 0;
        while i < n
            invariant
                i <= n,
                padding@ == Seq::new(i as nat, |k: int| 0u8),
            decreases n - i,
        {
            padding.push(0u8);
            i = i + 1;
            assert(padding@ =~= Seq::new(i as nat, |k: int| 0u8));
        }
        Ok(SoundFilename { bytes, padding })
    }

    /// Creates a filename that keeps the given storage padding.
    pub fn from_parts(bytes: Vec<u8>, padding: Vec<u8>) -> (r: Result<Self, SoundInfoError>)
        ensures
            bytes@.len() > 50 ==> r == Err::<Self, SoundInfoError>(
                SoundInfoError::FilenameTooLong { length: bytes@.len() as usize, capacity: 50 },
            ),
            bytes@.len() <= 50 && padding@.len() != 50 - bytes@.len() ==> r == Err::<
                Self,
                SoundInfoError,
            >(
                SoundInfoError::InvalidFilenamePadding {
                    expected: (50 - bytes@.len()) as usize,
                    actual: padding@.len() as usize,
                },
            ),
            bytes@.len() <= 50 && padding@.len() == 50 - bytes@.len() ==> r is Ok && r->Ok_0@.bytes
                == bytes@ && r->Ok_0@.padding == padding@,
    {
        if bytes.len() > SOUND_INFO_FILENAME_CAPACITY {
            return Err(
                SoundInfoError::FilenameTooLong {
                    length: bytes.len(),
                    capacity: SOUND_INFO_FILENAME_CAPACITY,
                },
            );
        }
        let expected = SOUND_INFO_FILENAME_CAPACITY - bytes.len();
        if padding.len() != expected {
            return Err(SoundInfoError::InvalidFilenamePadding { expected, actual: padding.len() });
        }
        Ok(SoundFilename { bytes, padding })
    }

    /// The filename bytes.
    pub fn as_bytes(&self) -> (r: &[u8])
        ensures
            r@ == self@.bytes,
    {
        self.bytes.as_slice()
    }

    /// The unused storage bytes after the filename.
    pub fn padding(&self) -> (r: &[u8])
        ensures
            r@ == self@.padding,
    {
        self.padding.as_slice()
    }

    /// The filename decoded with the client's EUC-KR code page.
    pub fn display_name(&self) -> (r: String)
        ensures
            r@ == euc_kr_text(self@.bytes),
    {
        euc_kr_string(self.bytes.as_slice())
    }

    /// Replaces the filename and zero-fills the rest of the field; on error
    /// the filename is unchanged.
    pub fn set_bytes(&mut self, bytes: Vec<u8>) -> (r: Result<(), SoundInfoError>)
        ensures
            bytes@.len() > 50 ==> r == Err::<(), SoundInfoError>(
                SoundInfoError::FilenameTooLong { length: bytes@.len() as usize, capacity: 50 },
            ) && final(self)@ == old(self)@,
            bytes@.len() <= 50 ==> r is Ok && final(self)@.bytes == bytes@ && final(self)@.padding
                == Seq::new((50 - bytes@.len()) as nat, |i: int| 0u8),
    {
        let replacement = Self::new(bytes)?;
        *self = replacement;
        Ok(())
    }
}

/// One row of the table.
#[derive(Debug, Clone, PartialEq, Eq)]
pub struct SoundInfoEntry {
    pub key: SoundKey,
    pub sound_id: AssetId,
    pub unknown_10: i32,
    pub filename: SoundFilename,
    pub unknown_47: [u8; 53],
}

/// The mathematical content of a row.
pub struct SoundInfoEntryView {
    pub key: SoundKey,
    pub sound_id: AssetId,
    pub unknown_10: i32,
    pub filename: SoundFilenameView,
    pub unknown_47: Seq<u8>,
}

impl View for SoundInfoEntry {
    type V = SoundInfoEntryView;

    open spec fn view(&self) -> SoundInfoEntryView {
        SoundInfoEntryView {
            key: self.key,
            sound_id: self.sound_id,
            unknown_10: self.unknown_10,
            filename: self.filename@,
            unknown_47: self.unknown_47@,
        }
    }
}

/// The views of a list of rows.
pub open spec fn sound_entries_view(es: Seq<SoundInfoEntry>) -> Seq<SoundInfoEntryView> {
    Seq::new(es.len(), |i: int| es[i]@)
}

impl SoundInfoEntry {
    /// A row with zeroed unknown fields.
    pub fn new(key: SoundKey, sound_id: AssetId, filename: SoundFilename) -> (r: Self)
        ensures
            r.key == key,
            r.sound_id == sound_id,
            r.unknown_10 == 0,
            r.filename@ == filename@,
            r.unknown_47@ == Seq::new(53, |i: int| 0u8),
    {
        let r = SoundInfoEntry { key, sound_id, unknown_10: 0, filename, unknown_47: [0u8; 53] };
        assert(r.unknown_47@ =~= Seq::new(53, |i: int| 0u8));
        r
    }

    /// Whether the row plays a sound: its sound id is not `-1`.
    pub fn is_enabled(&self) -> (r: bool)
        ensures
            r == (self.sound_id.0 != -1),
    {
        self.sound_id.0 != -1
    }
}

/// The row stored at `s`.
pub open spec fn row_entry(d: Seq<u8>, s: int) -> SoundInfoEntryView {
    let n = d[s + 20] as int;
    SoundInfoEntryView {
        key: SoundKey { group: i32_at(d, s), primary: i32_at(d, s + 4), secondary: i32_at(d, s + 8) },
        sound_id: AssetId(i32_at(d, s + 12)),
        unknown_10: i32_at(d, s + 16),
        filename: SoundFilenameView {
            bytes: d.subrange(s + 21, s + 21 + n),
            padding: d.subrange(s + 21 + n, s + 71),
        },
        unknown_47: d.subrange(s + 71, s + 124),
    }
}

/// The first row at or after `i`, of `n`, whose filename length exceeds the field.
pub open spec fn first_long_name(d: Seq<u8>, i: int, n: int) -> Option<int>
    decreases n - i,
{
    if i < 0 || i >= n {
        None
    } else if d[4 + 124 * i + 20] > 50 {
        Some(i)
    } else {
        first_long_name(d, i + 1, n)
    }
}

/// What parsing table bytes returns: the rows and the bytes after them, or
/// the first problem found.
pub open spec fn parse_sound_info(d: Seq<u8>) -> Result<
    (Seq<SoundInfoEntryView>, Seq<u8>),
    SoundInfoError,
> {
    let count = i32_at(d, 0);
    let end = 4 + 124 * count;
    if d.len() < 4 {
        Err(SoundInfoError::TruncatedHeader { needed: 4, actual: d.len() as usize })
    } else if count < 0 {
        Err(SoundInfoError::InvalidEntryCount { count })
    } else if 124 * count > usize::MAX || end > usize::MAX {
        Err(SoundInfoError::TableSizeOverflow { count: count as usize })
    } else if d.len() < end {
        Err(SoundInfoError::TruncatedTable { needed: end as usize, actual: d.len() as usize })
    } else {
        match first_long_name(d, 0, count as int) {
            Some(i) => Err(
                SoundInfoError::InvalidFilenameLength {
                    entry: i as usize,
                    length: d[4 + 124 * i + 20] as usize,
                    capacity: 50,
                },
            ),
            None => Ok(
                (
                    Seq::new(count as nat, |i: int| row_entry(d, 4 + 124 * i)),
                    d.subrange(end, d.len() as int),
                ),
            ),
        }
    }
}

/// The 124 bytes of a row.
pub open spec fn row_bytes(e: SoundInfoEntryView) -> Seq<u8> {
    i32_le_bytes(e.key.group) + i32_le_bytes(e.key.primary) + i32_le_bytes(e.key.secondary)
        + i32_le_bytes(e.sound_id.0) + i32_le_bytes(e.unknown_10) + seq![
        e.filename.bytes.len() as u8,
    ] + e.filename.bytes + e.filename.padding + e.unknown_47
}

/// The bytes of a list of rows, in order.
pub open spec fn rows_bytes(es: Seq<SoundInfoEntryView>) -> Seq<u8> {
    es.flat_map(|e: SoundInfoEntryView| row_bytes(e))
}

/// The bytes of a table with rows `es` followed by `trailing`.
pub open spec fn table_bytes(es: Seq<SoundInfoEntryView>, trailing: Seq<u8>) -> Seq<u8> {
    i32_le_bytes(es.len() as i32) + rows_bytes(es) + trailing
}

/// What writing the filename of a row reports, if anything.
pub open spec fn filename_problem(f: SoundFilenameView) -> Option<SoundInfoError> {
    if f.bytes.len() > 50 {
        Some(SoundInfoError::FilenameTooLong { length: f.bytes.len() as usize, capacity: 50 })
    } else if f.padding.len() != 50 - f.bytes.len() {
        Some(
            SoundInfoError::InvalidFilenamePadding {
                expected: (50 - f.bytes.len()) as usize,
                actual: f.padding.len() as usize,
            },
        )
    } else {
        None
    }
}

/// The first filename problem of rows `i..`, if any.
pub open spec fn rows_write_problem(es: Seq<SoundInfoEntryView>, i: int) -> Option<SoundInfoError>
    decreases es.len() - i,
{
    if i < 0 || i >= es.len() {
        None
    } else if filename_problem(es[i].filename) is Some {
        filename_problem(es[i].filename)
    } else {
        rows_write_problem(es, i + 1)
    }
}

/// What writing rows `es` and bytes `trailing` reports, if anything.
pub open spec fn table_write_problem(es: Seq<SoundInfoEntryView>, trailing: Seq<u8>) -> Option<
    SoundInfoError,
> {
    if es.len() > 0x7fff_ffff {
        Some(SoundInfoError::TooManyEntries { count: es.len() as usize })
    } else if 124 * es.len() > usize::MAX || 4 + 124 * es.len() + trailing.len() > usize::MAX {
        Some(SoundInfoError::TableSizeOverflow { count: es.len() as usize })
    } else {
        rows_write_problem(es, 0)
    }
}

/// An editable table that keeps every stored byte.
#[derive(Debug, Clone, PartialEq, Eq)]
pub struct SoundInfoTable {
    entries: Vec<SoundInfoEntry>,
    trailing_bytes: Vec<u8>,
}

/// The mathematical content of a table.
pub struct SoundInfoTableView {
    pub entries: Seq<SoundInfoEntryView>,
    pub trailing_bytes: Seq<u8>,
}

impl View for SoundInfoTable {
    type V = SoundInfoTableView;

    closed spec fn view(&self) -> SoundInfoTableView {
        SoundInfoTableView {
            entries: sound_entries_view(self.entries@),
            trailing_bytes: self.trailing_bytes@,
        }
    }
}

/// Every filename of a list of rows fits its field.
pub open spec fn filenames_fit(es: Seq<SoundInfoEntryView>) -> bool {
    forall|i: int| 0 <= i < es.len() ==> filename_fits(#[trigger] es[i].filename)
}

/// The first row at or after `i` whose key is `key`.
pub open spec fn key_index_from(es: Seq<SoundInfoEntryView>, key: SoundKey, i: int) -> Option<
    int,
>
    decreases es.len() - i,
{
    if i < 0 || i >= es.len() {
        None
    } else if es[i].key == key {
        Some(i)
    } else {
        key_index_from(es, key, i + 1)
    }
}

/// The first row at or after `i` whose sound id is `id`.
pub open spec fn sound_id_index_from(es: Seq<SoundInfoEntryView>, id: AssetId, i: int) -> Option<
    int,
>
    decreases es.len() - i,
{
    if i < 0 || i >= es.len() {
        None
    } else if es[i].sound_id == id {
        Some(i)
    } else {
        sound_id_index_from(es, id, i + 1)
    }
}

fn parse_row(data: &[u8], start: usize, index: usize) -> (r: Result<SoundInfoEntry, SoundInfoError>)
    requires
        start + 124 <= data.len(),
    ensures
        data@[start + 20] > 50 ==> r == Err::<SoundInfoEntry, SoundInfoError>(
            SoundInfoError::InvalidFilenameLength {
                entry: index,
                length: data@[start + 20] as usize,
                capacity: 50,
            },
        ),
        data@[start + 20] <= 50 ==> r is Ok && r->Ok_0@ == row_entry(data@, start as int),
{
    let n = data[start + 20] as usize;
    if n > SOUND_INFO_FILENAME_CAPACITY {
        return Err(
            SoundInfoError::InvalidFilenameLength {
                entry: index,
                length: n,
                capacity: SOUND_INFO_FILENAME_CAPACITY,
            },
        );
    }
    let bytes = copy_range(data, start + 21, n);
    let padding = copy_range(data, start + 21 + n, 50 - n);
    let filename = match SoundFilename::from_parts(bytes, padding) {
        Ok(f) => f,
        Err(e) => return Err(e),
    };
    let mut unknown_47 = [0u8; 53];
    let mut k: usize = 0;
    while k < 53
        invariant
            k <= 53,
            start + 124 <= data.len(),
            forall|j: int| 0 <= j < k ==> unknown_47@[j] == data@[start + 71 + j],
        decreases 53 - k,
    {
        unknown_47[k] = data[start + 71 + k];
        k = k + 1;
    }
    assert(unknown_47@ =~= data@.subrange(start + 71, start + 124));
    let key = SoundKey {
        group: read_i32_le_at(data, start),
        primary: read_i32_le_at(data, start + 4),
        secondary: read_i32_le_at(data, start + 8),
    };
    let entry = SoundInfoEntry {
        key,
        sound_id: AssetId(read_i32_le_at(data, start + 12)),
        unknown_10: read_i32_le_at(data, start + 16),
        filename,
        unknown_47,
    };
    Ok(entry)
}

/// Appends the bytes of a row whose filename fits its field.
fn append_row(out: &mut Vec<u8>, entry: &SoundInfoEntry)
    requires
        filename_fits(entry.filename@),
    ensures
        final(out)@ == old(out)@ + row_bytes(entry@),
{
    let ghost before = out@;
    push_i32_le(out, entry.key.group);
    push_i32_le(out, entry.key.primary);
    push_i32_le(out, entry.key.secondary);
    push_i32_le(out, entry.sound_id.0);
    push_i32_le(out, entry.unknown_10);
    out.push(entry.filename.as_bytes().len() as u8);
    extend_bytes(out, entry.filename.as_bytes());
    extend_bytes(out, entry.filename.padding());
    extend_bytes(out, entry.unknown_47.as_slice());
    assert(out@ =~= before + row_bytes(entry@));
}

impl SoundInfoTable {
    /// A table with the given rows and no trailing bytes.
    pub fn new(entries: Vec<SoundInfoEntry>) -> (r: Self)
        ensures
            r@.entries == sound_entries_view(entries@),
            r@.trailing_bytes == Seq::<u8>::empty(),
    {
        SoundInfoTable { entries, trailing_bytes: Vec::new() }
    }

    /// Parses table bytes.
    pub fn from_bytes(data: &[u8]) -> (r: Result<Self, SoundInfoError>)
        ensures
            match parse_sound_info(data@) {
                Ok((es, trailing)) => r is Ok && r->Ok_0@.entries == es && r->Ok_0@.trailing_bytes
                    == trailing,
                Err(e) => r == Err::<Self, SoundInfoError>(e),
            },
    {
        let ghost d = data@;
        if data.len() < SOUND_INFO_HEADER_LEN {
            return Err(SoundInfoError::TruncatedHeader { needed: 4, actual: data.len() });
        }
        let count = read_i32_le_at(data, 0);
        if count < 0 {
            return Err(SoundInfoError::InvalidEntryCount { count });
        }
        let n = count as usize;
        if n > usize::MAX / SOUND_INFO_ENTRY_LEN {
            return Err(SoundInfoError::TableSizeOverflow { count: n });
        }
        let rows_len = n * SOUND_INFO_ENTRY_LEN;
        if rows_len > usize::MAX - SOUND_INFO_HEADER_LEN {
            return Err(SoundInfoError::TableSizeOverflow { count: n });
        }
        let table_end = SOUND_INFO_HEADER_LEN + rows_len;
        if data.len() < table_end {
            return Err(SoundInfoError::TruncatedTable { needed: table_end, actual: data.len() });
        }
        let mut entries: Vec<SoundInfoEntry> = Vec::new();
        let mut index: usize = 0;
        while index < n
            invariant
                index <= n,
                d == data@,
                table_end == 4 + 124 * n,
                table_end <= d.len(),
                n == i32_at(d, 0),
                first_long_name(d, 0, n as int) == first_long_name(d, index as int, n as int),
                sound_entries_view(entries@) == Seq::new(
                    index as nat,
                    |i: int| row_entry(d, 4 + 124 * i),
                ),
            decreases n - index,
        {
            let start = SOUND_INFO_HEADER_LEN + index * SOUND_INFO_ENTRY_LEN;
            let ghost before = sound_entries_view(entries@);
            let entry = parse_row(data, start, index)?;
            entries.push(entry);
            assert(sound_entries_view(entries@) =~= Seq::new(
                (index + 1) as nat,
                |i: int| row_entry(d, 4 + 124 * i),
            )) by {
                assert(sound_entries_view(entries@) =~= before.push(entry@));
            }
            index = index + 1;
        }
        let trailing_bytes = copy_range(data, table_end, data.len() - table_end);
        Ok(SoundInfoTable { entries, trailing_bytes })
    }

    /// The rows, in table order.
    pub fn entries(&self) -> (r: &[SoundInfoEntry])
        ensures
            sound_entries_view(r@) == self@.entries,
    {
        self.entries.as_slice()
    }

    /// The rows, for editing in place.
    pub fn entries_mut(&mut self) -> (r: &mut [SoundInfoEntry])
        ensures
            sound_entries_view(r@) == old(self)@.entries,
            final(self)@.entries == sound_entries_view(final(r)@),
            final(self)@.trailing_bytes == old(self)@.trailing_bytes,
    {
        self.entries.as_mut_slice()
    }

    /// Appends a row.
    pub fn push(&mut self, entry: SoundInfoEntry)
        ensures
            final(self)@.entries == old(self)@.entries.push(entry@),
            final(self)@.trailing_bytes == old(self)@.trailing_bytes,
    {
        let ghost before = self@.entries;
        self.entries.push(entry);
        assert(self@.entries =~= before.push(entry@));
    }

    /// Consumes the table and returns its rows.
    pub fn into_entries(self) -> (r: Vec<SoundInfoEntry>)
        ensures
            sound_entries_view(r@) == self@.entries,
    {
        self.entries
    }

    /// The bytes stored after the last row.
    pub fn trailing_bytes(&self) -> (r: &[u8])
        ensures
            r@ == self@.trailing_bytes,
    {
        self.trailing_bytes.as_slice()
    }

    /// Replaces the bytes stored after the last row.
    pub fn set_trailing_bytes(&mut self, trailing_bytes: Vec<u8>)
        ensures
            final(self)@.entries == old(self)@.entries,
            final(self)@.trailing_bytes == trailing_bytes@,
    {
        self.trailing_bytes = trailing_bytes;
    }

    /// The first row, in table order, whose key is `key`.
    pub fn entry_by_key(&self, key: SoundKey) -> (r: Option<&SoundInfoEntry>)
        ensures
            match key_index_from(self@.entries, key, 0) {
                Some(i) => r is Some && r->Some_0@ == self@.entries[i],
                None => r is None,
            },
    {
        let ghost es = self@.entries;
        let mut i: usize = 0;
        while i < self.entries.len()
            invariant
                i <= self.entries@.len(),
                es == sound_entries_view(self.entries@),
                key_index_from(es, key, 0) == key_index_from(es, key, i as int),
            decreases self.entries@.len() - i,
        {
            assert(es[i as int] == self.entries@[i as int]@);
            if self.entries[i].key == key {
                return Some(&self.entries[i]);
            }
            i = i + 1;
        }
        None
    }

    /// The first row, in table order, whose sound id is `sound_id`.
    pub fn entry_by_sound_id(&self, sound_id: AssetId) -> (r: Option<&SoundInfoEntry>)
        ensures
            match sound_id_index_from(self@.entries, sound_id, 0) {
                Some(i) => r is Some && r->Some_0@ == self@.entries[i],
                None => r is None,
            },
    {
        let ghost es = self@.entries;
        let mut i: usize = 0;
        while i < self.entries.len()
            invariant
                i <= self.entries@.len(),
                es == sound_entries_view(self.entries@),
                sound_id_index_from(es, sound_id, 0) == sound_id_index_from(es, sound_id, i as int),
            decreases self.entries@.len() - i,
        {
            assert(es[i as int] == self.entries@[i as int]@);
            if self.entries[i].sound_id == sound_id {
                return Some(&self.entries[i]);
            }
            i = i + 1;
        }
        None
    }

    /// Writes the table: the row count, the rows and the trailing bytes.
    pub fn to_bytes(&self) -> (r: Result<Vec<u8>, SoundInfoError>)
        ensures
            match table_write_problem(self@.entries, self@.trailing_bytes) {
                Some(e) => r == Err::<Vec<u8>, SoundInfoError>(e),
                None => r is Ok && r->Ok_0@ == table_bytes(self@.entries, self@.trailing_bytes),
            },
    {
        let ghost es = self@.entries;
        let n = self.entries.len();
        if n > 0x7fff_ffff {
            return Err(SoundInfoError::TooManyEntries { count: n });
        }
        if n > usize::MAX / SOUND_INFO_ENTRY_LEN {
            return Err(SoundInfoError::TableSizeOverflow { count: n });
        }
        let rows_len = n * SOUND_INFO_ENTRY_LEN;
        if rows_len > usize::MAX - SOUND_INFO_HEADER_LEN || SOUND_INFO_HEADER_LEN + rows_len
            > usize::MAX - self.trailing_bytes.len() {
            return Err(SoundInfoError::TableSizeOverflow { count: n });
        }
        let mut out: Vec<u8> = Vec::new();
        push_i32_le(&mut out, n as i32);
        let mut i: usize = 0;
        while i < n
            invariant
                i <= n,
                n == self.entries@.len(),
                n <= 0x7fff_ffff,
                es == sound_entries_view(self.entries@),
                out@ == i32_le_bytes(n as i32) + rows_bytes(es.take(i as int)),
                rows_write_problem(es, 0) == rows_write_problem(es, i as int),
                124 * n <= usize::MAX,
                4 + 124 * n + self@.trailing_bytes.len() <= usize::MAX,
            decreases n - i,
        {
            let entry = &self.entries[i];
            assert(es[i as int] == entry@);
            let name_len = entry.filename.as_bytes().len();
            if name_len > SOUND_INFO_FILENAME_CAPACITY {
                return Err(
                    SoundInfoError::FilenameTooLong {
                        length: name_len,
                        capacity: SOUND_INFO_FILENAME_CAPACITY,
                    },
                );
            }
            let expected = SOUND_INFO_FILENAME_CAPACITY - name_len;
            if entry.filename.padding().len() != expected {
                return Err(
                    SoundInfoError::InvalidFilenamePadding {
                        expected,
                        actual: entry.filename.padding().len(),
                    },
                );
            }
            let ghost before = out@;
            append_row(&mut out, entry);
            proof {
                es.lemma_flat_map_take_append(|e: SoundInfoEntryView| row_bytes(e), i as int);
                assert(out@ =~= i32_le_bytes(n as i32) + rows_bytes(es.take(i + 1)));
            }
            i = i + 1;
        }
        assert(es.take(n as int) =~= es);
        extend_bytes(&mut out, self.trailing_bytes.as_slice());
        Ok(out)
    }
}

/// Rows without a long filename from `i` on have fitting names.
proof fn lemma_no_long_name(d: Seq<u8>, i: int, n: int)
    requires
        0 <= i,
        first_long_name(d, i, n) is None,
    ensures
        forall|k: int| i <= k < n ==> #[trigger] d[4 + 124 * k + 20] <= 50,
    decreases n - i,
{
    if i < n {
        lemma_no_long_name(d, i + 1, n);
    }
}

/// Rows with fitting filenames give no write problem.
proof fn lemma_fitting_rows_no_problem(es: Seq<SoundInfoEntryView>, i: int)
    requires
        0 <= i,
        filenames_fit(es),
    ensures
        rows_write_problem(es, i) is None,
    decreases es.len() - i,
{
    if i < es.len() {
        assert(filename_fits(es[i].filename));
        lemma_fitting_rows_no_problem(es, i + 1);
    }
}

/// A stored row encodes back to the bytes it was read from.
proof fn lemma_row_entry_encode(d: Seq<u8>, s: int)
    requires
        0 <= s,
        s + 124 <= d.len(),
        d[s + 20] <= 50,
    ensures
        row_bytes(row_entry(d, s)) == d.subrange(s, s + 124),
        filename_fits(row_entry(d, s).filename),
{
    crate::bytes::lemma_i32_bytes_round_trip(d.subrange(s, s + 4));
    crate::bytes::lemma_i32_bytes_round_trip(d.subrange(s + 4, s + 8));
    crate::bytes::lemma_i32_bytes_round_trip(d.subrange(s + 8, s + 12));
    crate::bytes::lemma_i32_bytes_round_trip(d.subrange(s + 12, s + 16));
    crate::bytes::lemma_i32_bytes_round_trip(d.subrange(s + 16, s + 20));
    let n = d[s + 20] as int;
    assert(d.subrange(s, s + 124) =~= d.subrange(s, s + 4) + d.subrange(s + 4, s + 8)
        + d.subrange(s + 8, s + 12) + d.subrange(s + 12, s + 16) + d.subrange(s + 16, s + 20)
        + seq![d[s + 20]] + d.subrange(s + 21, s + 21 + n) + d.subrange(s + 21 + n, s + 71)
        + d.subrange(s + 71, s + 124));
}

/// The rows parsed from the first `k` row slots encode back to those slots.
proof fn lemma_parsed_rows_encode(d: Seq<u8>, n: int, k: int)
    requires
        0 <= k <= n,
        4 + 124 * n <= d.len(),
        forall|j: int| 0 <= j < n ==> #[trigger] d[4 + 124 * j + 20] <= 50,
    ensures
        rows_bytes(Seq::new(n as nat, |i: int| row_entry(d, 4 + 124 * i)).take(k)) == d.subrange(
            4,
            4 + 124 * k,
        ),
    decreases k,
{
    let es = Seq::new(n as nat, |i: int| row_entry(d, 4 + 124 * i));
    if k == 0 {
        assert(es.take(0) =~= Seq::<SoundInfoEntryView>::empty());
        assert(es.take(0).map_values(|e: SoundInfoEntryView| row_bytes(e)) =~= Seq::<
            Seq<u8>,
        >::empty());
        assert(d.subrange(4, 4) =~= Seq::<u8>::empty());
    } else {
        lemma_parsed_rows_encode(d, n, k - 1);
        es.lemma_flat_map_take_append(|e: SoundInfoEntryView| row_bytes(e), k - 1);
        assert(d[4 + 124 * (k - 1) + 20] <= 50);
        lemma_row_entry_encode(d, 4 + 124 * (k - 1));
        assert(d.subrange(4, 4 + 124 * k) =~= d.subrange(4, 4 + 124 * (k - 1)) + d.subrange(
            4 + 124 * (k - 1),
            4 + 124 * (k - 1) + 124,
        ));
    }
}

/// Writing a parsed table gives back every byte it was parsed from.
pub proof fn lemma_parse_then_write_table(d: Seq<u8>)
    requires
        d.len() <= usize::MAX,
        parse_sound_info(d) is Ok,
    ensures
        table_write_problem(parse_sound_info(d)->Ok_0.0, parse_sound_info(d)->Ok_0.1) is None,
        table_bytes(parse_sound_info(d)->Ok_0.0, parse_sound_info(d)->Ok_0.1) == d,
{
    let n = i32_at(d, 0) as int;
    let es = parse_sound_info(d)->Ok_0.0;
    lemma_no_long_name(d, 0, n);
    lemma_parsed_rows_encode(d, n, n);
    assert(es.take(n) =~= es);
    assert forall|i: int| 0 <= i < es.len() implies filename_fits(#[trigger] es[i].filename) by {
        assert(d[4 + 124 * i + 20] <= 50);
        lemma_row_entry_encode(d, 4 + 124 * i);
    }
    lemma_fitting_rows_no_problem(es, 0);
    crate::bytes::lemma_i32_bytes_round_trip(d.subrange(0, 4));
    assert(d =~= d.subrange(0, 4) + d.subrange(4, 4 + 124 * n) + d.subrange(
        4 + 124 * n,
        d.len() as int,
    ));
}

/// Whether every row's unknown tail has its 53 bytes, as every row value does.
pub open spec fn rows_shaped(es: Seq<SoundInfoEntryView>) -> bool {
    forall|i: int| 0 <= i < es.len() ==> (#[trigger] es[i]).unknown_47.len() == 53
}

/// Rows with no write problem have fitting filenames.
proof fn lemma_no_problem_rows_fit(es: Seq<SoundInfoEntryView>, i: int)
    requires
        0 <= i,
        rows_write_problem(es, i) is None,
    ensures
        forall|k: int| i <= k < es.len() ==> filename_fits(#[trigger] es[k].filename),
    decreases es.len() - i,
{
    if i < es.len() {
        lemma_no_problem_rows_fit(es, i + 1);
    }
}

/// The bytes of the rows hold row `k` at offset `124 * k`.
proof fn lemma_rows_bytes_layout(es: Seq<SoundInfoEntryView>, m: int)
    requires
        0 <= m <= es.len(),
        rows_shaped(es),
        filenames_fit(es),
    ensures
        rows_bytes(es.take(m)).len() == 124 * m,
        forall|k: int|
            0 <= k < m ==> rows_bytes(es.take(m)).subrange(124 * k, 124 * k + 124) == row_bytes(
                #[trigger] es[k],
            ),
    decreases m,
{
    if m == 0 {
        assert(es.take(0).map_values(|e: SoundInfoEntryView| row_bytes(e)) =~= Seq::<
            Seq<u8>,
        >::empty());
    } else {
        lemma_rows_bytes_layout(es, m - 1);
        es.lemma_flat_map_take_append(|e: SoundInfoEntryView| row_bytes(e), m - 1);
        let prev = rows_bytes(es.take(m - 1));
        let last = row_bytes(es[m - 1]);
        assert(es[m - 1].unknown_47.len() == 53);
        assert(filename_fits(es[m - 1].filename));
        crate::bytes::lemma_i32_round_trip(es[m - 1].key.group);
        crate::bytes::lemma_i32_round_trip(es[m - 1].key.primary);
        crate::bytes::lemma_i32_round_trip(es[m - 1].key.secondary);
        crate::bytes::lemma_i32_round_trip(es[m - 1].sound_id.0);
        crate::bytes::lemma_i32_round_trip(es[m - 1].unknown_10);
        assert(last.len() == 124);
        let whole = rows_bytes(es.take(m));
        assert forall|k: int| 0 <= k < m implies whole.subrange(124 * k, 124 * k + 124)
            == row_bytes(#[trigger] es[k]) by {
            if k < m - 1 {
                assert(whole.subrange(124 * k, 124 * k + 124) =~= prev.subrange(
                    124 * k,
                    124 * k + 124,
                ));
            } else {
                assert(whole.subrange(124 * k, 124 * k + 124) =~= last);
            }
        }
    }
}

/// The bytes of a row decode back to the row.
proof fn lemma_row_bytes_decode(d: Seq<u8>, s: int, e: SoundInfoEntryView)
    requires
        0 <= s,
        s + 124 <= d.len(),
        e.unknown_47.len() == 53,
        filename_fits(e.filename),
        d.subrange(s, s + 124) == row_bytes(e),
    ensures
        row_entry(d, s) == e,
        d[s + 20] <= 50,
{
    crate::bytes::lemma_i32_round_trip(e.key.group);
    crate::bytes::lemma_i32_round_trip(e.key.primary);
    crate::bytes::lemma_i32_round_trip(e.key.secondary);
    crate::bytes::lemma_i32_round_trip(e.sound_id.0);
    crate::bytes::lemma_i32_round_trip(e.unknown_10);
    let r = d.subrange(s, s + 124);
    let n = e.filename.bytes.len() as int;
    assert(d[s + 20] == r[20]);
    assert(d.subrange(s, s + 4) =~= r.subrange(0, 4));
    assert(d.subrange(s + 4, s + 8) =~= r.subrange(4, 8));
    assert(d.subrange(s + 8, s + 12) =~= r.subrange(8, 12));
    assert(d.subrange(s + 12, s + 16) =~= r.subrange(12, 16));
    assert(d.subrange(s + 16, s + 20) =~= r.subrange(16, 20));
    assert(r.subrange(0, 4) =~= i32_le_bytes(e.key.group));
    assert(r.subrange(4, 8) =~= i32_le_bytes(e.key.primary));
    assert(r.subrange(8, 12) =~= i32_le_bytes(e.key.secondary));
    assert(r.subrange(12, 16) =~= i32_le_bytes(e.sound_id.0));
    assert(r.subrange(16, 20) =~= i32_le_bytes(e.unknown_10));
    let pre = i32_le_bytes(e.key.group) + i32_le_bytes(e.key.primary) + i32_le_bytes(
        e.key.secondary,
    ) + i32_le_bytes(e.sound_id.0) + i32_le_bytes(e.unknown_10) + seq![
        e.filename.bytes.len() as u8,
    ];
    assert(pre.len() == 21);
    assert(r =~= pre + e.filename.bytes + e.filename.padding + e.unknown_47);
    assert(r.subrange(21, 21 + n) =~= e.filename.bytes);
    assert(r.subrange(21 + n, 71) =~= e.filename.padding);
    assert(r.subrange(71, 124) =~= e.unknown_47);
    assert(d.subrange(s + 21, s + 21 + n) =~= r.subrange(21, 21 + n));
    assert(d.subrange(s + 21 + n, s + 71) =~= r.subrange(21 + n, 71));
    assert(d.subrange(s + 71, s + 124) =~= r.subrange(71, 124));
}

/// Parsing a written table gives back its rows and trailing bytes.
pub proof fn lemma_write_then_parse_table(es: Seq<SoundInfoEntryView>, trailing: Seq<u8>)
    requires
        rows_shaped(es),
        table_write_problem(es, trailing) is None,
    ensures
        parse_sound_info(table_bytes(es, trailing)) == Ok::<
            (Seq<SoundInfoEntryView>, Seq<u8>),
            SoundInfoError,
        >((es, trailing)),
{
    let d = table_bytes(es, trailing);
    let n = es.len() as int;
    lemma_no_problem_rows_fit(es, 0);
    lemma_rows_bytes_layout(es, n);
    assert(es.take(n) =~= es);
    let rows = rows_bytes(es);
    crate::bytes::lemma_i32_round_trip(n as i32);
    assert(d.subrange(0, 4) =~= i32_le_bytes(n as i32));
    assert forall|k: int| 0 <= k < n implies row_entry(d, 4 + 124 * k) == es[k] && #[trigger] d[4
        + 124 * k + 20] <= 50 by {
        assert(d.subrange(4 + 124 * k, 4 + 124 * k + 124) =~= rows.subrange(124 * k, 124 * k + 124));
        lemma_row_bytes_decode(d, 4 + 124 * k, es[k]);
    }
    lemma_long_name_none(d, 0, n);
    assert(Seq::new(n as nat, |i: int| row_entry(d, 4 + 124 * i)) =~= es);
    assert(d.subrange(4 + 124 * n, d.len() as int) =~= trailing);
}

/// Rows whose names fit give no long filename from `i` on.
proof fn lemma_long_name_none(d: Seq<u8>, i: int, n: int)
    requires
        0 <= i,
        forall|k: int| 0 <= k < n ==> #[trigger] d[4 + 124 * k + 20] <= 50,
    ensures
        first_long_name(d, i, n) is None,
    decreases n - i,
{
    if i < n {
        assert(d[4 + 124 * i + 20] <= 50);
        lemma_long_name_none(d, i + 1, n);
    }
}

/// `.wav`
pub open spec fn wav_word() -> Seq<u8> {
    seq![46u8, 119, 97, 118]
}

/// The offset of the first `.wav` in `b` at or after `i`.
pub open spec fn first_wav_offset(b: Seq<u8>, i: int) -> Option<int>
    decreases b.len() - i,
{
    if i < 0 || i + 4 > b.len() {
        None
    } else if b.subrange(i, i + 4) == wav_word() {
        Some(i)
    } else {
        first_wav_offset(b, i + 1)
    }
}

impl SoundFilename {
    /// The filename up to its first `.wav`, decoded with the client's EUC-KR code page:
    /// the second name a sound file is looked up under.
    pub fn stripped_wav_name(&self) -> (r: Option<String>)
        ensures
            match first_wav_offset(self@.bytes, 0) {
                Some(k) => r matches Some(s) && 0 <= k <= self@.bytes.len() && s@ == euc_kr_text(self@.bytes.take(k)),
                None => r is None,
            },
    {
        let b = self.bytes.as_slice();
        let n = b.len();
        let mut i: usize = 0;
        while n >= 4 && i <= n - 4
            invariant
                i <= n,
                n == b@.len(),
                b@ == self@.bytes,
                first_wav_offset(b@, 0) == first_wav_offset(b@, i as int),
            decreases n - i,
        {
            if b[i] == 46 && b[i + 1] == 119 && b[i + 2] == 97 && b[i + 3] == 118 {
                assert(b@.subrange(i as int, i + 4) =~= wav_word());
                let head = vstd::slice::slice_subrange(b, 0, i);
                assert(head@ =~= b@.take(i as int));
                return Some(euc_kr_string(head));
            }
            assert(b@.subrange(i as int, i + 4) != wav_word()) by {
                if b@.subrange(i as int, i + 4) == wav_word() {
                    assert(b@.subrange(i as int, i + 4)[0] == b@[i as int]);
                    assert(b@.subrange(i as int, i + 4)[1] == b@[i + 1]);
                    assert(b@.subrange(i as int, i + 4)[2] == b@[i + 2]);
                    assert(b@.subrange(i as int, i + 4)[3] == b@[i + 3]);
                }
            }
            i = i + 1;
        }
        None
    }
}

/// The index of the first name holding `pat`, from `i` on.
pub open spec fn first_containing(names: Seq<Seq<char>>, pat: Seq<char>, i: int) -> Option<int>
    decreases names.len() - i,
{
    if i < 0 || i >= names.len() {
        None
    } else if crate::binary_preset::contains_text(names[i], pat) {
        Some(i)
    } else {
        first_containing(names, pat, i + 1)
    }
}

/// The texts of a list of strings.
pub open spec fn string_texts(names: Seq<String>) -> Seq<Seq<char>> {
    Seq::new(names.len(), |i: int| names[i]@)
}

/// The last lookup of a sound file: among the `.wav` file names of the wave directory,
/// in sorted order, the first that holds the entry's sound id in decimal.
pub fn first_file_with_sound_id(names: &[String], sound_id: AssetId) -> (r: Option<usize>)
    ensures
        match first_containing(
            string_texts(names@),
            crate::textenc::ascii_chars(crate::numtext::int_text(sound_id.0 as int)),
            0,
        ) {
            Some(k) => r == Some(k as usize),
            None => r is None,
        },
{
    let mut digits: Vec<u8> = Vec::new();
    crate::numtext::push_decimal_i64(&mut digits, sound_id.0 as i64);
    assert(digits@ =~= crate::numtext::int_text(sound_id.0 as int));
    let mut pat: Vec<char> = Vec::new();
    let mut j: usize = 0;
    while j < digits.len()
        invariant
            j <= digits@.len(),
            pat@ == crate::textenc::ascii_chars(digits@.take(j as int)),
        decreases digits@.len() - j,
    {
        pat.push(digits[j] as char);
        j = j + 1;
        assert(pat@ =~= crate::textenc::ascii_chars(digits@.take(j as int)));
    }
    assert(digits@.take(j as int) =~= digits@);
    let ghost texts = string_texts(names@);
    let mut i: usize = 0;
    while i < names.len()
        invariant
            i <= names@.len(),
            texts == string_texts(names@),
            pat@ == crate::textenc::ascii_chars(crate::numtext::int_text(sound_id.0 as int)),
            first_containing(texts, pat@, 0) == first_containing(texts, pat@, i as int),
        decreases names@.len() - i,
    {
        let cs = crate::chartext::str_chars(names[i].as_str());
        if crate::binary_preset::contains_chars(cs.as_slice(), pat.as_slice()) {
            return Some(i);
        }
        i = i + 1;
    }
    None
}

} // verus!
