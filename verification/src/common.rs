//! Shared value types and the bounds-checked byte reader.
use vstd::prelude::*;

use crate::bytes::{i32_at, read_i32_le_at, read_u16_le_at, read_u32_le_at, u16_at, u32_at};

verus! {

/// A numeric asset identifier.
#[derive(Debug, Clone, Copy, PartialEq, Eq, Hash, Structural)]
pub struct AssetId(pub i32);

/// How serious a diagnostic is.
#[derive(Debug, Clone, Copy, PartialEq, Eq, Structural)]
pub enum Severity {
    Info,
    Warning,
    Error,
}

/// A coded message reported to users.
#[derive(Debug, Clone)]
pub struct Diagnostic {
    pub severity: Severity,
    pub code: String,
    pub message: String,
}

impl Diagnostic {
    /// An informational diagnostic.
    pub fn info(code: &str, message: String) -> (d: Self)
        ensures
            d.severity == Severity::Info,
            d.code@ == code@,
            d.message@ == message@,
    {
        Diagnostic { severity: Severity::Info, code: code.to_owned(), message }
    }

    /// A warning diagnostic.
    pub fn warning(code: &str, message: String) -> (d: Self)
        ensures
            d.severity == Severity::Warning,
            d.code@ == code@,
            d.message@ == message@,
    {
        Diagnostic { severity: Severity::Warning, code: code.to_owned(), message }
    }

    /// An error diagnostic.
    pub fn error(code: &str, message: String) -> (d: Self)
        ensures
            d.severity == Severity::Error,
            d.code@ == code@,
            d.message@ == message@,
    {
        Diagnostic { severity: Severity::Error, code: code.to_owned(), message }
    }
}

/// Progress notifications for long operations.
#[derive(Debug, Clone)]
pub enum ProgressEvent {
    Started { operation: String },
    Message { message: String },
    Finished { operation: String },
}

/// The archive and file ID that a payload came from.
#[derive(Debug, Clone)]
pub struct SourceRef {
    pub archive: String,
    pub file_id: i32,
}

/// Why a path cannot serve as the game's data directory.
#[derive(Debug, Clone, PartialEq, Eq)]
pub enum DataPathError {
    /// Nothing exists at the path.
    MissingDataDir(String),
    /// Something exists at the path, but it is not a directory.
    NotDirectory(String),
}

/// Accepts a data directory path from what the file system reports of it:
/// whether anything exists there, and whether that is a directory.
pub fn validate_data_dir(path: String, exists: bool, is_dir: bool) -> (r: Result<String, DataPathError>)
    ensures
        !exists ==> r == Err::<String, DataPathError>(DataPathError::MissingDataDir(path)),
        exists && !is_dir ==> r == Err::<String, DataPathError>(DataPathError::NotDirectory(path)),
        exists && is_dir ==> r == Ok::<String, DataPathError>(path),
{
    if !exists {
        return Err(DataPathError::MissingDataDir(path));
    }
    if !is_dir {
        return Err(DataPathError::NotDirectory(path));
    }
    Ok(path)
}

/// A read that ran past the end of its buffer.
#[derive(Debug, Clone, PartialEq, Eq)]
pub struct ByteReadError {
    pub field: &'static str,
    pub offset: usize,
    pub needed: usize,
    pub actual: usize,
}

/// A cursor over a byte slice whose reads fail instead of running past the end.
#[derive(Debug, Clone, Copy)]
pub struct ByteReader<'a> {
    data: &'a [u8],
    offset: usize,
}

impl<'a> ByteReader<'a> {
    /// The bytes being read.
    pub closed spec fn bytes(&self) -> Seq<u8> {
        self.data@
    }

    /// The current read position.
    pub closed spec fn pos(&self) -> int {
        self.offset as int
    }

    /// Whether `len` more bytes can be read from the current position.
    pub open spec fn can_read(&self, len: int) -> bool {
        self.pos() + len <= self.bytes().len()
    }

    /// The error that a read of `len` bytes reports when it cannot be served.
    pub open spec fn short_read(&self, field: &'static str, len: int) -> ByteReadError {
        ByteReadError {
            field,
            offset: self.pos() as usize,
            needed: len as usize,
            actual: if self.pos() <= self.bytes().len() {
                (self.bytes().len() - self.pos()) as usize
            } else {
                0
            },
        }
    }

    /// A reader positioned at the start of `data`.
    pub fn new(data: &'a [u8]) -> (r: Self)
        ensures
            r.bytes() == data@,
            r.pos() == 0,
    {
        ByteReader { data, offset: 0 }
    }

    /// A reader positioned at `offset`, which may lie past the end.
    pub fn new_at(data: &'a [u8], offset: usize) -> (r: Self)
        ensures
            r.bytes() == data@,
            r.pos() == offset,
    {
        ByteReader { data, offset }
    }

    /// The current read position.
    pub fn offset(&self) -> (r: usize)
        ensures
            r == self.pos(),
    {
        self.offset
    }

    /// The number of unread bytes, zero when the position lies past the end.
    pub fn remaining(&self) -> (r: usize)
        ensures
            r == (if self.pos() <= self.bytes().len() {
                self.bytes().len() - self.pos()
            } else {
                0
            }),
    {
        if self.offset <= self.data.len() {
            self.data.len() - self.offset
        } else {
            0
        }
    }

    fn ensure(&self, field: &'static str, len: usize) -> (r: Result<(), ByteReadError>)
        ensures
            r is Ok <==> self.can_read(len as int),
            self.bytes().len() <= usize::MAX,
            r is Err ==> r == Err::<(), ByteReadError>(self.short_read(field, len as int)),
    {
        if self.offset > self.data.len() || len > self.data.len() - self.offset {
            return Err(
                ByteReadError {
                    field,
                    offset: self.offset,
                    needed: len,
                    actual: if self.offset <= self.data.len() {
                        self.data.len() - self.offset
                    } else {
                        0
                    },
                },
            );
        }
        Ok(())
    }

    /// Advances past `len` bytes.
    pub fn skip(&mut self, field: &'static str, len: usize) -> (r: Result<(), ByteReadError>)
        ensures
            final(self).bytes() == old(self).bytes(),
            old(self).can_read(len as int) ==> r is Ok && final(self).pos() == old(self).pos()
                + len,
            !old(self).can_read(len as int) ==> r == Err::<(), ByteReadError>(
                old(self).short_read(field, len as int),
            ) && final(self).pos() == old(self).pos(),
    {
        self.ensure(field, len)?;
        self.offset = self.offset + len;
        Ok(())
    }

    /// Reads `len` bytes.
    pub fn read_bytes(&mut self, field: &'static str, len: usize) -> (r: Result<
        &'a [u8],
        ByteReadError,
    >)
        ensures
            final(self).bytes() == old(self).bytes(),
            old(self).can_read(len as int) ==> r is Ok && r->Ok_0@ == old(self).bytes().subrange(
                old(self).pos(),
                old(self).pos() + len,
            ) && final(self).pos() == old(self).pos() + len,
            !old(self).can_read(len as int) ==> r == Err::<&'a [u8], ByteReadError>(
                old(self).short_read(field, len as int),
            ) && final(self).pos() == old(self).pos(),
    {
        self.ensure(field, len)?;
        let start = self.offset;
        self.offset = self.offset + len;
        Ok(&self.data[start..start + len])
    }

    /// Reads one byte.
    pub fn read_u8(&mut self, field: &'static str) -> (r: Result<u8, ByteReadError>)
        ensures
            final(self).bytes() == old(self).bytes(),
            old(self).can_read(1) ==> r == Ok::<u8, ByteReadError>(old(self).bytes()[old(
                self,
            ).pos()]) && final(self).pos() == old(self).pos() + 1,
            !old(self).can_read(1) ==> r == Err::<u8, ByteReadError>(
                old(self).short_read(field, 1),
            ) && final(self).pos() == old(self).pos(),
    {
        self.ensure(field, 1)?;
        let b = self.data[self.offset];
        self.offset = self.offset + 1;
        Ok(b)
    }

    /// Reads one byte as a signed value.
    pub fn read_i8(&mut self, field: &'static str) -> (r: Result<i8, ByteReadError>)
        ensures
            final(self).bytes() == old(self).bytes(),
            old(self).can_read(1) ==> r is Ok && r->Ok_0 as int == (if old(self).bytes()[old(
                self,
            ).pos()] < 128 {
                old(self).bytes()[old(self).pos()] as int
            } else {
                old(self).bytes()[old(self).pos()] as int - 256
            }) && final(self).pos() == old(self).pos() + 1,
            !old(self).can_read(1) ==> r == Err::<i8, ByteReadError>(
                old(self).short_read(field, 1),
            ) && final(self).pos() == old(self).pos(),
    {
        let b = self.read_u8(field)?;
        if b < 128 {
            Ok(b as i8)
        } else {
            Ok(((b as i16) - 256) as i8)
        }
    }

    /// Reads a two-byte little-endian unsigned value.
    pub fn read_u16_le(&mut self, field: &'static str) -> (r: Result<u16, ByteReadError>)
        ensures
            final(self).bytes() == old(self).bytes(),
            old(self).can_read(2) ==> r == Ok::<u16, ByteReadError>(
                u16_at(old(self).bytes(), old(self).pos()),
            ) && final(self).pos() == old(self).pos() + 2,
            !old(self).can_read(2) ==> r == Err::<u16, ByteReadError>(
                old(self).short_read(field, 2),
            ) && final(self).pos() == old(self).pos(),
    {
        self.ensure(field, 2)?;
        let v = read_u16_le_at(self.data, self.offset);
        self.offset = self.offset + 2;
        Ok(v)
    }

    /// Reads a two-byte little-endian signed value.
    pub fn read_i16_le(&mut self, field: &'static str) -> (r: Result<i16, ByteReadError>)
        ensures
            final(self).bytes() == old(self).bytes(),
            old(self).can_read(2) ==> r is Ok && r->Ok_0 as int == (if u16_at(
                old(self).bytes(),
                old(self).pos(),
            ) < 0x8000 {
                u16_at(old(self).bytes(), old(self).pos()) as int
            } else {
                u16_at(old(self).bytes(), old(self).pos()) as int - 0x1_0000
            }) && final(self).pos() == old(self).pos() + 2,
            !old(self).can_read(2) ==> r == Err::<i16, ByteReadError>(
                old(self).short_read(field, 2),
            ) && final(self).pos() == old(self).pos(),
    {
        let v = self.read_u16_le(field)?;
        if v < 0x8000 {
            Ok(v as i16)
        } else {
            Ok(((v as i32) - 0x1_0000) as i16)
        }
    }

    /// Reads a four-byte little-endian unsigned value.
    pub fn read_u32_le(&mut self, field: &'static str) -> (r: Result<u32, ByteReadError>)
        ensures
            final(self).bytes() == old(self).bytes(),
            old(self).can_read(4) ==> r == Ok::<u32, ByteReadError>(
                u32_at(old(self).bytes(), old(self).pos()),
            ) && final(self).pos() == old(self).pos() + 4,
            !old(self).can_read(4) ==> r == Err::<u32, ByteReadError>(
                old(self).short_read(field, 4),
            ) && final(self).pos() == old(self).pos(),
    {
        self.ensure(field, 4)?;
        let v = read_u32_le_at(self.data, self.offset);
        self.offset = self.offset + 4;
        Ok(v)
    }

    /// Reads an eight-byte little-endian unsigned value.
    pub fn read_u64_le(&mut self, field: &'static str) -> (r: Result<u64, ByteReadError>)
        ensures
            final(self).bytes() == old(self).bytes(),
            old(self).can_read(8) ==> r is Ok && r->Ok_0 as int == u32_at(
                old(self).bytes(),
                old(self).pos(),
            ) as int + 0x1_0000_0000 * (u32_at(old(self).bytes(), old(self).pos() + 4) as int)
                && final(self).pos() == old(self).pos() + 8,
            !old(self).can_read(8) ==> r == Err::<u64, ByteReadError>(
                old(self).short_read(field, 8),
            ) && final(self).pos() == old(self).pos(),
    {
        self.ensure(field, 8)?;
        let lo = read_u32_le_at(self.data, self.offset) as u64;
        let hi = read_u32_le_at(self.data, self.offset + 4) as u64;
        self.offset = self.offset + 8;
        assert(hi * 0x1_0000_0000 + lo <= u64::MAX) by (nonlinear_arith)
            requires
                hi < 0x1_0000_0000,
                lo < 0x1_0000_0000,
        ;
        Ok(lo + 0x1_0000_0000 * hi)
    }

    /// Reads a four-byte little-endian signed value.
    pub fn read_i32_le(&mut self, field: &'static str) -> (r: Result<i32, ByteReadError>)
        ensures
            final(self).bytes() == old(self).bytes(),
            old(self).can_read(4) ==> r == Ok::<i32, ByteReadError>(
                i32_at(old(self).bytes(), old(self).pos()),
            ) && final(self).pos() == old(self).pos() + 4,
            !old(self).can_read(4) ==> r == Err::<i32, ByteReadError>(
                old(self).short_read(field, 4),
            ) && final(self).pos() == old(self).pos(),
    {
        self.ensure(field, 4)?;
        let v = read_i32_le_at(self.data, self.offset);
        self.offset = self.offset + 4;
        Ok(v)
    }

    /// Reads `N` bytes into an array.
    pub fn read_array<const N: usize>(&mut self, field: &'static str) -> (r: Result<
        [u8; N],
        ByteReadError,
    >)
        ensures
            final(self).bytes() == old(self).bytes(),
            old(self).can_read(N as int) ==> r is Ok && r->Ok_0@ == old(self).bytes().subrange(
                old(self).pos(),
                old(self).pos() + N,
            ) && final(self).pos() == old(self).pos() + N,
            !old(self).can_read(N as int) ==> r == Err::<[u8; N], ByteReadError>(
                old(self).short_read(field, N as int),
            ) && final(self).pos() == old(self).pos(),
    {
        let bytes = self.read_bytes(field, N)?;
        let mut value = [0u8;N];
        let mut i: usize = 0;
        while i < N
            invariant
                i <= N,
                bytes@.len() == N,
                value@.len() == N,
                forall|k: int| 0 <= k < i ==> value@[k] == bytes@[k],
            decreases N - i,
        {
            value[i] = bytes[i];
            i = i + 1;
        }
        assert(value@ =~= bytes@);
        Ok(value)
    }
}

} // verus!
