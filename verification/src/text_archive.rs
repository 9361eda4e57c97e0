//! Text `.NOS` record archives such as `NSlangData.NOS`.
//!
//! A text archive is an `i32` record count and the records: an id, a
//! length-prefixed name, a packed flag and a length-prefixed payload. An
//! archive may end with a 12-byte trailer: an 8-byte timestamp and the
//! marker `ee 3e 32 01`. Payload decoding is not part of this module.
use vstd::prelude::*;
use vstd::string::StrSliceExecFns;

use crate::bytes::{
    bytes_to_vec, copy_range, extend_bytes, i32_at, i32_le_bytes, push_i32_le, read_i32_le_at,
};
use crate::textenc::{lossy_string, utf8_lossy};

verus! {

/// Errors produced while parsing or writing a text archive.
#[derive(Debug, Clone, PartialEq, Eq)]
pub enum TextNosArchiveError {
    /// The record count is negative.
    InvalidRecordCount { count: i32 },
    /// A length field is negative.
    InvalidLength { field: &'static str, value: i32 },
    /// A field runs past the end of the data.
    TruncatedArchive { field: &'static str, offset: usize, needed: usize, actual: usize },
    /// There are more records than an `i32` count can hold.
    TooManyRecords { count: usize },
    /// A record's name or payload is longer than an `i32` length can hold.
    RecordTooLarge { name: String, field: &'static str, size: usize },
}

/// How a record's payload is encoded.
#[derive(Debug, Clone, Copy, PartialEq, Eq, Structural)]
pub enum TextPayloadKind {
    /// A packed `.dat` payload.
    Dat,
    /// A `.lst` line list.
    List,
    /// Bytes stored as they are.
    Raw,
}

/// One named record of a text archive.
#[derive(Debug, Clone)]
pub struct TextNosRecord {
    pub id: i32,
    pub name: String,
    pub name_bytes: Vec<u8>,
    pub packed_flag: i32,
    pub payload: Vec<u8>,
}

/// The mathematical content of a record.
pub struct TextRecordView {
    pub id: i32,
    pub name: Seq<char>,
    pub name_bytes: Seq<u8>,
    pub packed_flag: i32,
    pub payload: Seq<u8>,
}

impl View for TextNosRecord {
    type V = TextRecordView;

    open spec fn view(&self) -> TextRecordView {
        TextRecordView {
            id: self.id,
            name: self.name@,
            name_bytes: self.name_bytes@,
            packed_flag: self.packed_flag,
            payload: self.payload@,
        }
    }
}

/// The views of a list of records.
pub open spec fn text_records_view(rs: Seq<TextNosRecord>) -> Seq<TextRecordView> {
    Seq::new(rs.len(), |i: int| rs[i]@)
}

/// A character with ASCII capitals made small.
pub open spec fn ascii_lower(c: char) -> char {
    if 'A' <= c && c <= 'Z' {
        ((c as u32) + 32) as char
    } else {
        c
    }
}

/// Whether `s` ends with `suffix`, ignoring ASCII case; `suffix` is lower case.
pub open spec fn ends_with_ignoring_case(s: Seq<char>, suffix: Seq<char>) -> bool {
    s.len() >= suffix.len() && forall|i: int|
        0 <= i < suffix.len() ==> ascii_lower(#[trigger] s[s.len() - suffix.len() + i])
            == suffix[i]
}

/// The payload kind of a record: packed records and `.dat` names are `Dat`,
/// `.lst` names are `List`, the rest is `Raw`.
pub open spec fn payload_kind_of(packed_flag: i32, name: Seq<char>) -> TextPayloadKind {
    if packed_flag != 0 || ends_with_ignoring_case(name, seq!['.', 'd', 'a', 't']) {
        TextPayloadKind::Dat
    } else if ends_with_ignoring_case(name, seq!['.', 'l', 's', 't']) {
        TextPayloadKind::List
    } else {
        TextPayloadKind::Raw
    }
}

/// Whether `c` is the ASCII letter whose lowercase code is `lower`, in either case.
pub open spec fn is_letter_either_case(c: char, lower: u32) -> bool {
    c as u32 == lower || c as u32 + 32 == lower
}

/// A packed record is always a DAT payload; an unpacked record is one exactly when its
/// name ends in `.dat`, and a list when it ends in `.lst`, the letters in any ASCII case.
pub proof fn lemma_payload_kinds(stem: Seq<char>, x: char, y: char, z: char, flag: i32)
    ensures
        flag != 0 ==> payload_kind_of(flag, stem + seq!['.', x, y, z]) == TextPayloadKind::Dat,
        is_letter_either_case(x, 100) && is_letter_either_case(y, 97) && is_letter_either_case(z, 116)
            ==> payload_kind_of(flag, stem + seq!['.', x, y, z]) == TextPayloadKind::Dat,
        flag == 0 && is_letter_either_case(x, 108) && is_letter_either_case(y, 115) && is_letter_either_case(z, 116)
            ==> payload_kind_of(flag, stem + seq!['.', x, y, z]) == TextPayloadKind::List,
{
    let name = stem + seq!['.', x, y, z];
    let n = name.len() as int;
    assert(name[n - 4] == '.' && name[n - 3] == x && name[n - 2] == y && name[n - 1] == z);
    let dat = seq!['.', 'd', 'a', 't'];
    let lst = seq!['.', 'l', 's', 't'];
    assert(dat[0] == '.' && dat[1] == 'd' && dat[2] == 'a' && dat[3] == 't');
    assert(lst[0] == '.' && lst[1] == 'l' && lst[2] == 's' && lst[3] == 't');
    if is_letter_either_case(x, 100) && is_letter_either_case(y, 97) && is_letter_either_case(z, 116) {
        assert forall|i: int| 0 <= i < 4 implies ascii_lower(#[trigger] name[n - 4 + i]) == dat[i] by {
            if i == 0 {
            } else if i == 1 {
            } else if i == 2 {
            } else {
            }
        }
        assert(ends_with_ignoring_case(name, dat));
    }
    if flag == 0 && is_letter_either_case(x, 108) && is_letter_either_case(y, 115) && is_letter_either_case(z, 116) {
        if ends_with_ignoring_case(name, dat) {
            assert(ascii_lower(name[name.len() - dat.len() + 1]) == dat[1]);
            assert(false);
        }
        assert forall|i: int| 0 <= i < 4 implies ascii_lower(#[trigger] name[n - 4 + i]) == lst[i] by {
            if i == 0 {
            } else if i == 1 {
            } else if i == 2 {
            } else {
            }
        }
        assert(ends_with_ignoring_case(name, lst));
    }
}

/// An unpacked record whose name is shorter than four characters, or does not end in
/// `t` or `T`, is a raw payload.
pub proof fn lemma_other_names_are_raw(name: Seq<char>)
    ensures
        name.len() < 4 ==> payload_kind_of(0, name) == TextPayloadKind::Raw,
        name.len() >= 1 && !is_letter_either_case(name.last(), 116) ==> payload_kind_of(0, name)
            == TextPayloadKind::Raw,
{
    let dat = seq!['.', 'd', 'a', 't'];
    let lst = seq!['.', 'l', 's', 't'];
    assert(dat.len() == 4 && dat[3] == 't' && lst.len() == 4 && lst[3] == 't');
    if name.len() >= 4 && ends_with_ignoring_case(name, dat) {
        assert(ascii_lower(name[name.len() - dat.len() + 3]) == dat[3]);
    }
    if name.len() >= 4 && ends_with_ignoring_case(name, lst) {
        assert(ascii_lower(name[name.len() - lst.len() + 3]) == lst[3]);
    }
}

pub(crate) fn ascii_lower_exec(c: char) -> (r: char)
    ensures
        r == ascii_lower(c),
{
    if 'A' <= c && c <= 'Z' {
        ((c as u8) + 32) as char
    } else {
        c
    }
}

/// Whether `s` ends with the four lower-case characters of `suffix`, ignoring ASCII case.
pub(crate) fn ends_with_ignoring_case_exec(s: &str, suffix: [char; 4]) -> (r: bool)
    ensures
        r == ends_with_ignoring_case(s@, suffix@),
{
    let n = s.unicode_len();
    if n < 4 {
        return false;
    }
    let mut i: usize = 0;
    while i < 4
        invariant
            i <= 4,
            n == s@.len(),
            n >= 4,
            suffix@.len() == 4,
            forall|k: int| 0 <= k < i ==> ascii_lower(#[trigger] s@[n - 4 + k]) == suffix@[k],
        decreases 4 - i,
    {
        let c = s.get_char(n - 4 + i);
        if ascii_lower_exec(c) != suffix[i] {
            assert(ascii_lower(s@[n - 4 + i]) != suffix@[i as int]);
            return false;
        }
        i = i + 1;
    }
    true
}

impl TextNosRecord {
    /// Whether the record's payload is packed.
    pub fn is_packed(&self) -> (r: bool)
        ensures
            r == (self.packed_flag != 0),
    {
        self.packed_flag != 0
    }

    /// The kind of the record's payload, from its packed flag and name.
    pub fn payload_kind(&self) -> (r: TextPayloadKind)
        ensures
            r == payload_kind_of(self.packed_flag, self.name@),
    {
        let dat = ['.', 'd', 'a', 't'];
        let lst = ['.', 'l', 's', 't'];
        assert(dat@ == seq!['.', 'd', 'a', 't']);
        assert(lst@ == seq!['.', 'l', 's', 't']);
        if self.is_packed() || ends_with_ignoring_case_exec(self.name.as_str(), dat) {
            TextPayloadKind::Dat
        } else if ends_with_ignoring_case_exec(self.name.as_str(), lst) {
            TextPayloadKind::List
        } else {
            TextPayloadKind::Raw
        }
    }
}

/// Record input used to rebuild a text archive.
#[derive(Debug, Clone)]
pub struct TextNosRecordInput {
    pub name: String,
    pub name_bytes: Vec<u8>,
    pub packed_flag: i32,
    pub payload: Vec<u8>,
}

/// The mathematical content of a record input.
pub struct TextInputView {
    pub name: Seq<char>,
    pub name_bytes: Seq<u8>,
    pub packed_flag: i32,
    pub payload: Seq<u8>,
}

impl View for TextNosRecordInput {
    type V = TextInputView;

    open spec fn view(&self) -> TextInputView {
        TextInputView {
            name: self.name@,
            name_bytes: self.name_bytes@,
            packed_flag: self.packed_flag,
            payload: self.payload@,
        }
    }
}

/// The views of a list of record inputs.
pub open spec fn text_inputs_view(rs: Seq<TextNosRecordInput>) -> Seq<TextInputView> {
    Seq::new(rs.len(), |i: int| rs[i]@)
}

/// The bytes of record input `r` written with id `id`.
pub open spec fn text_record_bytes(r: TextInputView, id: i32) -> Seq<u8> {
    i32_le_bytes(id) + i32_le_bytes(r.name_bytes.len() as i32) + r.name_bytes + i32_le_bytes(
        r.packed_flag,
    ) + i32_le_bytes(r.payload.len() as i32) + r.payload
}

/// The bytes of the first `k` record inputs, numbered from one.
pub open spec fn text_records_bytes(rs: Seq<TextInputView>, k: int) -> Seq<u8>
    decreases k,
{
    if k <= 0 {
        Seq::empty()
    } else {
        text_records_bytes(rs, k - 1) + text_record_bytes(rs[k - 1], k as i32)
    }
}

/// The bytes written for record inputs.
pub open spec fn text_archive_bytes(rs: Seq<TextInputView>) -> Seq<u8> {
    i32_le_bytes(rs.len() as i32) + text_records_bytes(rs, rs.len() as int)
}

/// The first record input at or after `k` whose name or payload is too long.
pub open spec fn first_oversized(rs: Seq<TextInputView>, k: int) -> Option<int>
    decreases rs.len() - k,
{
    if k < 0 || k >= rs.len() {
        None
    } else if rs[k].name_bytes.len() > 0x7fff_ffff || rs[k].payload.len() > 0x7fff_ffff {
        Some(k)
    } else {
        first_oversized(rs, k + 1)
    }
}

/// Whether an error is the one writing reports for record input `r`.
pub open spec fn is_oversized_error(e: TextNosArchiveError, r: TextInputView) -> bool {
    if r.name_bytes.len() > 0x7fff_ffff {
        e matches TextNosArchiveError::RecordTooLarge { name, field, size } && name@ == r.name
            && field == "name" && size == r.name_bytes.len()
    } else {
        e matches TextNosArchiveError::RecordTooLarge { name, field, size } && name@ == r.name
            && field == "payload" && size == r.payload.len()
    }
}

/// Appends the bytes of a record input written with id `id`.
fn append_text_record(out: &mut Vec<u8>, record: &TextNosRecordInput, id: i32)
    requires
        record.name_bytes@.len() <= 0x7fff_ffff,
        record.payload@.len() <= 0x7fff_ffff,
    ensures
        final(out)@ == old(out)@ + text_record_bytes(record@, id),
{
    let ghost before = out@;
    push_i32_le(out, id);
    push_i32_le(out, record.name_bytes.len() as i32);
    extend_bytes(out, record.name_bytes.as_slice());
    push_i32_le(out, record.packed_flag);
    push_i32_le(out, record.payload.len() as i32);
    extend_bytes(out, record.payload.as_slice());
    assert(out@ =~= before + text_record_bytes(record@, id));
}

/// Rebuilds text archive bytes from record inputs, numbering records from one.
pub fn write_text_nos_archive_bytes(records: &[TextNosRecordInput]) -> (r: Result<
    Vec<u8>,
    TextNosArchiveError,
>)
    ensures
        ({
            let rs = text_inputs_view(records@);
            if rs.len() > 0x7fff_ffff {
                r == Err::<Vec<u8>, TextNosArchiveError>(
                    TextNosArchiveError::TooManyRecords { count: rs.len() as usize },
                )
            } else {
                match first_oversized(rs, 0) {
                    Some(k) => r is Err && is_oversized_error(r->Err_0, rs[k]),
                    None => r is Ok && r->Ok_0@ == text_archive_bytes(rs),
                }
            }
        }),
{
    let ghost rs = text_inputs_view(records@);
    let n = records.len();
    if n > 0x7fff_ffff {
        return Err(TextNosArchiveError::TooManyRecords { count: n });
    }
    let mut out: Vec<u8> = Vec::new();
    push_i32_le(&mut out, n as i32);
    let mut k: usize = 0;
    while k < n
        invariant
            k <= n,
            n == rs.len(),
            n <= 0x7fff_ffff,
            rs == text_inputs_view(records@),
            out@ == i32_le_bytes(n as i32) + text_records_bytes(rs, k as int),
            first_oversized(rs, 0) == first_oversized(rs, k as int),
        decreases n - k,
    {
        let record = &records[k];
        assert(rs[k as int] == record@);
        if record.name_bytes.len() > 0x7fff_ffff {
            return Err(
                TextNosArchiveError::RecordTooLarge {
                    name: record.name.clone(),
                    field: "name",
                    size: record.name_bytes.len(),
                },
            );
        }
        if record.payload.len() > 0x7fff_ffff {
            return Err(
                TextNosArchiveError::RecordTooLarge {
                    name: record.name.clone(),
                    field: "payload",
                    size: record.payload.len(),
                },
            );
        }
        append_text_record(&mut out, record, (k + 1) as i32);
        k = k + 1;
    }
    Ok(out)
}

/// The error for a field of `n` bytes at `pos` that runs past the end.
pub open spec fn text_truncated(d: Seq<u8>, pos: int, field: &'static str, n: int) -> TextNosArchiveError {
    TextNosArchiveError::TruncatedArchive {
        field,
        offset: pos as usize,
        needed: n as usize,
        actual: (d.len() - pos) as usize,
    }
}

/// The record stored at `pos` and the position after it.
pub open spec fn parse_text_record(d: Seq<u8>, pos: int) -> Result<(TextRecordView, int), TextNosArchiveError> {
    let name_len = i32_at(d, pos + 4);
    let p = pos + 8 + name_len;
    let payload_len = i32_at(d, p + 4);
    if pos + 4 > d.len() {
        Err(text_truncated(d, pos, "record.id", 4))
    } else if pos + 8 > d.len() {
        Err(text_truncated(d, pos + 4, "record.name_len", 4))
    } else if name_len < 0 {
        Err(TextNosArchiveError::InvalidLength { field: "record.name_len", value: name_len })
    } else if pos + 8 + name_len > d.len() {
        Err(text_truncated(d, pos + 8, "record.name", name_len as int))
    } else if p + 4 > d.len() {
        Err(text_truncated(d, p, "record.packed_flag", 4))
    } else if p + 8 > d.len() {
        Err(text_truncated(d, p + 4, "record.payload_len", 4))
    } else if payload_len < 0 {
        Err(TextNosArchiveError::InvalidLength { field: "record.payload_len", value: payload_len })
    } else if p + 8 + payload_len > d.len() {
        Err(text_truncated(d, p + 8, "record.payload", payload_len as int))
    } else {
        Ok(
            (
                TextRecordView {
                    id: i32_at(d, pos),
                    name: utf8_lossy(d.subrange(pos + 8, p)),
                    name_bytes: d.subrange(pos + 8, p),
                    packed_flag: i32_at(d, p),
                    payload: d.subrange(p + 8, p + 8 + payload_len),
                },
                p + 8 + payload_len,
            ),
        )
    }
}

/// Records `i..n`, read from `pos` on, and the position after them.
pub open spec fn parse_text_records(d: Seq<u8>, pos: int, i: int, n: int) -> Result<
    (Seq<TextRecordView>, int),
    TextNosArchiveError,
>
    decreases n - i,
{
    if i >= n {
        Ok((Seq::empty(), pos))
    } else {
        match parse_text_record(d, pos) {
            Err(e) => Err(e),
            Ok((r, p)) => match parse_text_records(d, p, i + 1, n) {
                Ok((rs, e)) => Ok((seq![r] + rs, e)),
                Err(e) => Err(e),
            },
        }
    }
}

/// The trailer marker `ee 3e 32 01`.
pub open spec fn trailer_marker() -> Seq<u8> {
    seq![0xeeu8, 0x3e, 0x32, 0x01]
}

/// The mathematical content of a parsed text archive: its records, the
/// eight timestamp bytes of a trailer when there is one, and the number of
/// other bytes after the records.
pub struct TextArchiveView {
    pub records: Seq<TextRecordView>,
    pub timestamp_bytes: Option<Seq<u8>>,
    pub trailing_bytes: usize,
}

/// What the bytes after the records make of a parse.
pub open spec fn with_trailer(d: Seq<u8>, rs: Seq<TextRecordView>, end: int) -> TextArchiveView {
    let rest = d.subrange(end, d.len() as int);
    if rest.len() == 12 && rest.subrange(8, 12) == trailer_marker() {
        TextArchiveView { records: rs, timestamp_bytes: Some(rest.subrange(0, 8)), trailing_bytes: 0 }
    } else {
        TextArchiveView { records: rs, timestamp_bytes: None, trailing_bytes: rest.len() as usize }
    }
}

/// What parsing text archive bytes returns.
pub open spec fn parse_text_archive(d: Seq<u8>) -> Result<TextArchiveView, TextNosArchiveError> {
    let count = i32_at(d, 0);
    let minimum = 4 + 16 * count;
    let needed = if minimum > usize::MAX {
        usize::MAX as int
    } else {
        minimum
    };
    if d.len() < 4 {
        Err(text_truncated(d, 0, "record_count", 4))
    } else if count < 0 {
        Err(TextNosArchiveError::InvalidRecordCount { count })
    } else if needed > d.len() {
        Err(
            TextNosArchiveError::TruncatedArchive {
                field: "record_table",
                offset: d.len() as usize,
                needed: needed as usize,
                actual: d.len() as usize,
            },
        )
    } else {
        match parse_text_records(d, 4, 0, count as int) {
            Err(e) => Err(e),
            Ok((rs, end)) => Ok(with_trailer(d, rs, end)),
        }
    }
}

fn text_truncated_exec(data: &[u8], pos: usize, field: &'static str, n: usize) -> (r: TextNosArchiveError)
    requires
        pos <= data@.len(),
    ensures
        r == text_truncated(data@, pos as int, field, n as int),
{
    TextNosArchiveError::TruncatedArchive { field, offset: pos, needed: n, actual: data.len() - pos }
}

fn read_text_record(data: &[u8], pos: usize) -> (r: Result<(TextNosRecord, usize), TextNosArchiveError>)
    requires
        pos <= data@.len(),
    ensures
        match parse_text_record(data@, pos as int) {
            Ok((v, p)) => r is Ok && r->Ok_0.0@ == v && r->Ok_0.1 == p && p <= data@.len(),
            Err(e) => r is Err && r->Err_0 == e,
        },
{
    let len = data.len();
    if len - pos < 4 {
        return Err(text_truncated_exec(data, pos, "record.id", 4));
    }
    if len - pos < 8 {
        return Err(text_truncated_exec(data, pos + 4, "record.name_len", 4));
    }
    let id = read_i32_le_at(data, pos);
    let name_len = read_i32_le_at(data, pos + 4);
    if name_len < 0 {
        return Err(TextNosArchiveError::InvalidLength { field: "record.name_len", value: name_len });
    }
    let name_len = name_len as usize;
    if len - (pos + 8) < name_len {
        return Err(text_truncated_exec(data, pos + 8, "record.name", name_len));
    }
    let p = pos + 8 + name_len;
    if len - p < 4 {
        return Err(text_truncated_exec(data, p, "record.packed_flag", 4));
    }
    if len - p < 8 {
        return Err(text_truncated_exec(data, p + 4, "record.payload_len", 4));
    }
    let packed_flag = read_i32_le_at(data, p);
    let payload_len = read_i32_le_at(data, p + 4);
    if payload_len < 0 {
        return Err(
            TextNosArchiveError::InvalidLength { field: "record.payload_len", value: payload_len },
        );
    }
    let payload_len = payload_len as usize;
    if len - (p + 8) < payload_len {
        return Err(text_truncated_exec(data, p + 8, "record.payload", payload_len));
    }
    let name_bytes = copy_range(data, pos + 8, name_len);
    let name = lossy_string(name_bytes.as_slice());
    let payload = copy_range(data, p + 8, payload_len);
    Ok((TextNosRecord { id, name, name_bytes, packed_flag, payload }, p + 8 + payload_len))
}

/// A parsed text archive.
#[derive(Debug, Clone)]
pub struct TextNosArchive {
    path: String,
    records: Vec<TextNosRecord>,
    timestamp_bytes: Option<[u8; 8]>,
    trailing_bytes: usize,
}

impl View for TextNosArchive {
    type V = TextArchiveView;

    closed spec fn view(&self) -> TextArchiveView {
        TextArchiveView {
            records: text_records_view(self.records@),
            timestamp_bytes: match self.timestamp_bytes {
                Some(b) => Some(b@),
                None => None,
            },
            trailing_bytes: self.trailing_bytes,
        }
    }
}

impl TextNosArchive {
    /// The logical path.
    pub closed spec fn path_view(&self) -> Seq<char> {
        self.path@
    }

    /// Parses text archive bytes while keeping their logical path.
    pub fn from_bytes(path: String, data: Vec<u8>) -> (r: Result<Self, TextNosArchiveError>)
        ensures
            match parse_text_archive(data@) {
                Ok(v) => r is Ok && r->Ok_0@ == v && r->Ok_0.path_view() == path@,
                Err(e) => r is Err && r->Err_0 == e,
            },
    {
        let ghost d = data@;
        if data.len() < 4 {
            return Err(text_truncated_exec(data.as_slice(), 0, "record_count", 4));
        }
        let count = read_i32_le_at(data.as_slice(), 0);
        if count < 0 {
            return Err(TextNosArchiveError::InvalidRecordCount { count });
        }
        let n = count as usize;
        let needed: usize = if n > (usize::MAX - 4) / 16 {
            usize::MAX
        } else {
            4 + 16 * n
        };
        if needed > data.len() {
            return Err(
                TextNosArchiveError::TruncatedArchive {
                    field: "record_table",
                    offset: data.len(),
                    needed,
                    actual: data.len(),
                },
            );
        }
        let mut records: Vec<TextNosRecord> = Vec::new();
        let mut pos: usize = 4;
        let mut i: usize = 0;
        while i < n
            invariant
                i <= n,
                pos <= d.len(),
                d == data@,
                match parse_text_records(d, 4, 0, n as int) {
                    Ok((all, end)) => match parse_text_records(d, pos as int, i as int, n as int) {
                        Ok((rest, e2)) => all == text_records_view(records@) + rest && end == e2,
                        Err(_) => false,
                    },
                    Err(e) => parse_text_records(d, pos as int, i as int, n as int) == Err::<
                        (Seq<TextRecordView>, int),
                        TextNosArchiveError,
                    >(e),
                },
                parse_text_archive(d) == match parse_text_records(d, 4, 0, n as int) {
                    Err(e) => Err(e),
                    Ok((rs, end)) => Ok(with_trailer(d, rs, end)),
                },
            decreases n - i,
        {
            let ghost before = text_records_view(records@);
            let (record, next) = match read_text_record(data.as_slice(), pos) {
                Ok(found) => found,
                Err(e) => return Err(e),
            };
            records.push(record);
            proof {
                let after = text_records_view(records@);
                assert(after =~= before.push(record@));
                match parse_text_records(d, next as int, i + 1, n as int) {
                    Ok((rest, e2)) => {
                        assert(before + (seq![record@] + rest) =~= after + rest);
                    },
                    Err(_) => {},
                }
            }
            pos = next;
            i = i + 1;
        }
        let ghost rs = text_records_view(records@);
        assert(rs + Seq::<TextRecordView>::empty() =~= rs);
        let rest_len = data.len() - pos;
        let ghost rest = d.subrange(pos as int, d.len() as int);
        let mut marker_matches = rest_len == 12;
        if marker_matches {
            let marker: [u8; 4] = [0xee, 0x3e, 0x32, 0x01];
            let mut j: usize = 0;
            while j < 4
                invariant
                    j <= 4,
                    pos + 12 == d.len(),
                    pos + 12 == data.len(),
                    d == data@,
                    rest == d.subrange(pos as int, d.len() as int),
                    marker@ == trailer_marker(),
                    marker_matches == (forall|k: int| 0 <= k < j ==> rest[8 + k] == marker@[k]),
                decreases 4 - j,
            {
                if data[pos + 8 + j] != marker[j] {
                    marker_matches = false;
                }
                j = j + 1;
            }
            assert(marker_matches == (rest.subrange(8, 12) == trailer_marker())) by {
                if rest.subrange(8, 12) == trailer_marker() {
                    assert forall|k: int| 0 <= k < 4 implies rest[8 + k] == trailer_marker()[k] by {
                        assert(rest.subrange(8, 12)[k] == rest[8 + k]);
                    }
                }
                if marker_matches {
                    assert(rest.subrange(8, 12) =~= trailer_marker());
                }
            }
        }
        if marker_matches {
            let mut stamp = [0u8; 8];
            let mut j: usize = 0;
            while j < 8
                invariant
                    j <= 8,
                    pos + 12 == d.len(),
                    pos + 12 == data.len(),
                    d == data@,
                    forall|k: int| 0 <= k < j ==> stamp@[k] == d[pos + k],
                decreases 8 - j,
            {
                stamp[j] = data[pos + j];
                j = j + 1;
            }
            assert(stamp@ =~= rest.subrange(0, 8));
            Ok(TextNosArchive { path, records, timestamp_bytes: Some(stamp), trailing_bytes: 0 })
        } else {
            Ok(TextNosArchive { path, records, timestamp_bytes: None, trailing_bytes: rest_len })
        }
    }

    /// The logical path associated with this archive.
    pub fn path(&self) -> (r: &str)
        ensures
            r@ == self.path_view(),
    {
        self.path.as_str()
    }

    /// The parsed records, in stored order.
    pub fn records(&self) -> (r: &[TextNosRecord])
        ensures
            text_records_view(r@) == self@.records,
    {
        self.records.as_slice()
    }

    /// The eight timestamp bytes of the archive's trailer, when it has one.
    pub fn timestamp_bytes(&self) -> (r: Option<[u8; 8]>)
        ensures
            match r {
                Some(b) => self@.timestamp_bytes == Some(b@),
                None => self@.timestamp_bytes is None,
            },
    {
        self.timestamp_bytes
    }

    /// The number of unrecognized bytes after the records.
    pub fn trailing_bytes(&self) -> (r: usize)
        ensures
            r == self@.trailing_bytes,
    {
        self.trailing_bytes
    }
}

/// The records a parse finds in written record inputs: numbered from one, with the
/// written name bytes, packed flags and payloads.
pub open spec fn written_text_records(rs: Seq<TextInputView>) -> Seq<TextRecordView> {
    Seq::new(
        rs.len(),
        |i: int|
            TextRecordView {
                id: (i + 1) as i32,
                name: utf8_lossy(rs[i].name_bytes),
                name_bytes: rs[i].name_bytes,
                packed_flag: rs[i].packed_flag,
                payload: rs[i].payload,
            },
    )
}

/// The bytes of record inputs `k..n`, numbered from `k + 1`.
spec fn text_records_from(rs: Seq<TextInputView>, k: int, n: int) -> Seq<u8>
    decreases n - k,
{
    if k >= n {
        Seq::empty()
    } else {
        text_record_bytes(rs[k], (k + 1) as i32) + text_records_from(rs, k + 1, n)
    }
}

proof fn lemma_records_split(rs: Seq<TextInputView>, k: int, n: int)
    requires
        0 <= k <= n,
    ensures
        text_records_bytes(rs, n) == text_records_bytes(rs, k) + text_records_from(rs, k, n),
    decreases n - k,
{
    if k < n {
        lemma_records_split(rs, k + 1, n);
        assert(text_records_bytes(rs, k + 1) == text_records_bytes(rs, k) + text_record_bytes(rs[k], (k + 1) as i32));
        assert(text_records_bytes(rs, k) + text_records_from(rs, k, n) =~= text_records_bytes(rs, k)
            + text_record_bytes(rs[k], (k + 1) as i32) + text_records_from(rs, k + 1, n));
    } else {
        assert(text_records_bytes(rs, k) + text_records_from(rs, k, n) =~= text_records_bytes(rs, k));
    }
}

proof fn lemma_record_bytes_len(r: TextInputView, id: i32)
    ensures
        text_record_bytes(r, id).len() == 16 + r.name_bytes.len() + r.payload.len(),
{
    crate::bytes::lemma_i32_round_trip(id);
    crate::bytes::lemma_i32_round_trip(r.name_bytes.len() as i32);
    crate::bytes::lemma_i32_round_trip(r.packed_flag);
    crate::bytes::lemma_i32_round_trip(r.payload.len() as i32);
}

proof fn lemma_records_from_len(rs: Seq<TextInputView>, k: int, n: int)
    requires
        0 <= k <= n,
    ensures
        text_records_from(rs, k, n).len() >= 16 * (n - k),
    decreases n - k,
{
    if k < n {
        lemma_records_from_len(rs, k + 1, n);
        lemma_record_bytes_len(rs[k], (k + 1) as i32);
    }
}

#[verifier::spinoff_prover]
#[verifier::rlimit(80)]
proof fn lemma_parse_written_record(d: Seq<u8>, pos: int, r: TextInputView, id: i32)
    requires
        0 <= pos,
        pos + text_record_bytes(r, id).len() <= d.len(),
        d.subrange(pos, pos + text_record_bytes(r, id).len()) == text_record_bytes(r, id),
        r.name_bytes.len() <= 0x7fff_ffff,
        r.payload.len() <= 0x7fff_ffff,
    ensures
        parse_text_record(d, pos) == Ok::<(TextRecordView, int), TextNosArchiveError>(
            (
                TextRecordView {
                    id,
                    name: utf8_lossy(r.name_bytes),
                    name_bytes: r.name_bytes,
                    packed_flag: r.packed_flag,
                    payload: r.payload,
                },
                pos + text_record_bytes(r, id).len(),
            ),
        ),
{
    let b = text_record_bytes(r, id);
    let nl = r.name_bytes.len() as int;
    let pl = r.payload.len() as int;
    lemma_record_bytes_len(r, id);
    crate::bytes::lemma_i32_round_trip(id);
    crate::bytes::lemma_i32_round_trip(nl as i32);
    crate::bytes::lemma_i32_round_trip(r.packed_flag);
    crate::bytes::lemma_i32_round_trip(pl as i32);
    assert(d.subrange(pos, pos + 4) =~= b.subrange(0, 4));
    assert(b.subrange(0, 4) =~= i32_le_bytes(id));
    assert(d.subrange(pos + 4, pos + 8) =~= b.subrange(4, 8));
    assert(b.subrange(4, 8) =~= i32_le_bytes(nl as i32));
    let p = pos + 8 + nl;
    assert(d.subrange(pos + 8, p) =~= b.subrange(8, 8 + nl));
    assert(b.subrange(8, 8 + nl) =~= r.name_bytes);
    assert(d.subrange(p, p + 4) =~= b.subrange(8 + nl, 12 + nl));
    assert(b.subrange(8 + nl, 12 + nl) =~= i32_le_bytes(r.packed_flag));
    assert(d.subrange(p + 4, p + 8) =~= b.subrange(12 + nl, 16 + nl));
    assert(b.subrange(12 + nl, 16 + nl) =~= i32_le_bytes(pl as i32));
    assert(d.subrange(p + 8, p + 8 + pl) =~= b.subrange(16 + nl, 16 + nl + pl));
    assert(b.subrange(16 + nl, 16 + nl + pl) =~= r.payload);
}

#[verifier::spinoff_prover]
#[verifier::rlimit(80)]
proof fn lemma_parse_written_records(d: Seq<u8>, pos: int, rs: Seq<TextInputView>, k: int, n: int)
    requires
        0 <= k <= n,
        n == rs.len(),
        n <= 0x7fff_ffff,
        first_oversized(rs, 0) is None,
        0 <= pos,
        pos + text_records_from(rs, k, n).len() <= d.len(),
        d.subrange(pos, pos + text_records_from(rs, k, n).len()) == text_records_from(rs, k, n),
    ensures
        parse_text_records(d, pos, k, n) == Ok::<(Seq<TextRecordView>, int), TextNosArchiveError>(
            (written_text_records(rs).subrange(k, n), pos + text_records_from(rs, k, n).len()),
        ),
    decreases n - k,
{
    if k < n {
        lemma_no_oversized_at(rs, 0, k);
        let b = text_record_bytes(rs[k], (k + 1) as i32);
        let rest = text_records_from(rs, k + 1, n);
        assert(text_records_from(rs, k, n) == b + rest);
        lemma_split_window(d, pos, b, rest);
        lemma_parse_written_record(d, pos, rs[k], (k + 1) as i32);
        lemma_parse_written_records(d, pos + b.len(), rs, k + 1, n);
        assert(written_text_records(rs).subrange(k, n) =~= seq![written_text_records(rs)[k]] + written_text_records(rs).subrange(k + 1, n));
    } else {
        assert(written_text_records(rs).subrange(k, n) =~= Seq::<TextRecordView>::empty());
    }
}

proof fn lemma_split_window(d: Seq<u8>, pos: int, x: Seq<u8>, y: Seq<u8>)
    requires
        0 <= pos,
        pos + x.len() + y.len() <= d.len(),
        d.subrange(pos, pos + x.len() + y.len()) == x + y,
    ensures
        d.subrange(pos, pos + x.len()) == x,
        d.subrange(pos + x.len(), pos + x.len() + y.len()) == y,
{
    assert(d.subrange(pos, pos + x.len()) =~= x) by {
        assert forall|i: int| 0 <= i < x.len() implies d.subrange(pos, pos + x.len())[i] == x[i] by {
            assert(d.subrange(pos, pos + x.len() + y.len())[i] == (x + y)[i]);
        }
    }
    assert(d.subrange(pos + x.len(), pos + x.len() + y.len()) =~= y) by {
        assert forall|i: int| 0 <= i < y.len() implies d.subrange(pos + x.len(), pos + x.len() + y.len())[i] == y[i] by {
            assert(d.subrange(pos, pos + x.len() + y.len())[x.len() + i] == (x + y)[x.len() + i]);
            assert(d.subrange(pos, pos + x.len() + y.len())[x.len() + i] == d[pos + x.len() + i]);
            assert(d.subrange(pos + x.len(), pos + x.len() + y.len())[i] == d[pos + x.len() + i]);
        }
    }
}

proof fn lemma_no_oversized_at(rs: Seq<TextInputView>, j: int, k: int)
    requires
        0 <= j <= k < rs.len(),
        first_oversized(rs, j) is None,
    ensures
        rs[k].name_bytes.len() <= 0x7fff_ffff,
        rs[k].payload.len() <= 0x7fff_ffff,
    decreases k - j,
{
    if j < k {
        lemma_no_oversized_at(rs, j + 1, k);
    }
}

/// Parsing the bytes written for record inputs finds the records numbered from one,
/// each with its written name bytes, packed flag and payload, and nothing after them.
pub proof fn lemma_write_then_parse_text(rs: Seq<TextInputView>)
    requires
        rs.len() <= 0x7fff_ffff,
        first_oversized(rs, 0) is None,
    ensures
        parse_text_archive(text_archive_bytes(rs)) == Ok::<TextArchiveView, TextNosArchiveError>(
            TextArchiveView { records: written_text_records(rs), timestamp_bytes: None, trailing_bytes: 0 },
        ),
{
    let n = rs.len() as int;
    let d = text_archive_bytes(rs);
    crate::bytes::lemma_i32_round_trip(n as i32);
    lemma_records_split(rs, 0, n);
    assert(text_records_bytes(rs, 0) =~= Seq::<u8>::empty());
    let body = text_records_from(rs, 0, n);
    assert(text_records_bytes(rs, n) =~= body);
    assert(d.subrange(0, 4) =~= i32_le_bytes(n as i32));
    lemma_records_from_len(rs, 0, n);
    assert(d.subrange(4, 4 + body.len() as int) =~= body);
    lemma_parse_written_records(d, 4, rs, 0, n);
    assert(written_text_records(rs).subrange(0, n) =~= written_text_records(rs));
    assert(d.subrange(d.len() as int, d.len() as int) =~= Seq::<u8>::empty());
}

} // verus!
