//! CCINF `.NOS` files such as `NSmnData.NOS` and `NSpnData.NOS`.
//!
//! A CCINF file is a 25-byte wrapper (a 16-byte signature, the unpacked and
//! stored body sizes and a compression flag) around a body: an entry count
//! and the entries. Each entry holds four `i32` fields and seven counted lists
//! of six-byte cells. Known files are raw: both sizes equal the body length
//! and the compression flag is zero. Entries are sorted by their id read as
//! an unsigned value, and the cells of each list by selector.
use vstd::prelude::*;

use crate::bytes::{
    i32_at, i32_bits, i32_le_bytes, push_i32_le, push_u16_le, push_u32_le, read_i32_le_at,
    read_u16_le_at, read_u32_le_at, u16_at, u16_le_bytes, u32_at, u32_le_bytes, extend_bytes,
};

verus! {

/// The 16-byte signature of known CCINF files.
pub const CCINF_HEADER: [u8; 16] = [67, 67, 73, 78, 70, 32, 86, 49, 46, 50, 48, 26, 20, 17, 4, 32];

/// Length of the wrapper before the entry count and entry records.
pub const CCINF_PREFIX_LEN: usize = 0x19;

/// Number of counted cell lists stored in every entry.
pub const CCINF_CELL_LIST_COUNT: usize = 7;

/// The signature bytes `CCINF V1.20\x1a\x14\x11\x04 `.
pub open spec fn ccinf_header() -> Seq<u8> {
    seq![67u8, 67, 73, 78, 70, 32, 86, 49, 46, 50, 48, 26, 20, 17, 4, 32]
}

/// What is wrong with CCINF bytes, or with entries that are to be written.
#[derive(Debug, Clone, PartialEq, Eq)]
pub enum CcinfProblem {
    /// The file is shorter than the wrapper.
    TooSmall,
    /// The file does not start with the signature.
    InvalidHeader,
    /// The compression flag is not zero.
    UnsupportedCompression { flag: u8 },
    /// A declared size differs from the body length.
    SizeMismatch { field: &'static str, declared: usize, actual: usize },
    /// The entry count is negative or too large.
    InvalidEntryCount { count: i32 },
    /// A field runs past the end of the file.
    TruncatedFile { field: &'static str, offset: usize, needed: usize, actual: usize },
    /// Bytes follow the last entry.
    TrailingBytes { count: usize },
    /// Entries are not sorted by unsigned id; `index` is the later of the pair.
    UnsortedEntries { index: usize, previous: i32, current: i32 },
    /// A cell list is not sorted by selector; `list_index` counts from one.
    UnsortedCellList {
        entry_id: i32,
        list_index: usize,
        index: usize,
        previous: u16,
        current: u16,
    },
    /// There are more entries than an `i32` count can hold.
    TooManyEntries { count: usize },
    /// The body is larger than a `u32` size can hold.
    BodyTooLarge { size: usize },
    /// A cell list has more cells than a `u8` count can hold.
    TooManyCells { entry_id: i32, list_index: usize, count: usize },
}

/// Errors produced while parsing or writing a CCINF file; those found in a
/// file's bytes name the file.
#[derive(Debug, Clone, PartialEq, Eq)]
pub enum CcinfError {
    /// The file is shorter than the wrapper.
    TooSmall { path: String },
    /// The file does not start with the signature.
    InvalidHeader { path: String },
    /// The compression flag is not zero.
    UnsupportedCompression { path: String, flag: u8 },
    /// A declared size differs from the body length.
    SizeMismatch { path: String, field: &'static str, declared: usize, actual: usize },
    /// The entry count is negative or too large.
    InvalidEntryCount { path: String, count: i32 },
    /// A field runs past the end of the file.
    TruncatedFile { path: String, field: &'static str, offset: usize, needed: usize, actual: usize },
    /// Bytes follow the last entry.
    TrailingBytes { path: String, count: usize },
    /// Entries are not sorted by unsigned id; `index` is the later of the pair.
    UnsortedEntries { index: usize, previous: i32, current: i32 },
    /// A cell list is not sorted by selector; `list_index` counts from one.
    UnsortedCellList {
        entry_id: i32,
        list_index: usize,
        index: usize,
        previous: u16,
        current: u16,
    },
    /// There are more entries than an `i32` count can hold.
    TooManyEntries { count: usize },
    /// The body is larger than a `u32` size can hold.
    BodyTooLarge { size: usize },
    /// A cell list has more cells than a `u8` count can hold.
    TooManyCells { entry_id: i32, list_index: usize, count: usize },
}

/// Whether a problem is one found in a file's bytes, which its error locates by path.
pub open spec fn is_located(p: CcinfProblem) -> bool {
    ||| p is TooSmall
    ||| p is InvalidHeader
    ||| p is UnsupportedCompression
    ||| p is SizeMismatch
    ||| p is InvalidEntryCount
    ||| p is TruncatedFile
    ||| p is TrailingBytes
}

/// Whether `e` reports problem `p`, which is not located in a file.
pub open spec fn names(e: CcinfError, p: CcinfProblem) -> bool {
    match p {
        CcinfProblem::UnsortedEntries { index, previous, current } => e matches CcinfError::UnsortedEntries {
            index: i,
            previous: a,
            current: b,
        } && i == index && a == previous && b == current,
        CcinfProblem::UnsortedCellList { entry_id, list_index, index, previous, current } => e matches CcinfError::UnsortedCellList {
            entry_id: id,
            list_index: l,
            index: i,
            previous: a,
            current: b,
        } && id == entry_id && l == list_index && i == index && a == previous && b == current,
        CcinfProblem::TooManyEntries { count } => e matches CcinfError::TooManyEntries { count: c } && c == count,
        CcinfProblem::BodyTooLarge { size } => e matches CcinfError::BodyTooLarge { size: z } && z == size,
        CcinfProblem::TooManyCells { entry_id, list_index, count } => e matches CcinfError::TooManyCells {
            entry_id: id,
            list_index: l,
            count: c,
        } && id == entry_id && l == list_index && c == count,
        _ => false,
    }
}

/// Whether `e` reports problem `p` of the file at `path`.
pub open spec fn reports(e: CcinfError, path: Seq<char>, p: CcinfProblem) -> bool {
    match p {
        CcinfProblem::TooSmall => e matches CcinfError::TooSmall { path: q } && q@ == path,
        CcinfProblem::InvalidHeader => e matches CcinfError::InvalidHeader { path: q } && q@ == path,
        CcinfProblem::UnsupportedCompression { flag } => e matches CcinfError::UnsupportedCompression {
            path: q,
            flag: f,
        } && q@ == path && f == flag,
        CcinfProblem::SizeMismatch { field, declared, actual } => e matches CcinfError::SizeMismatch {
            path: q,
            field: f,
            declared: x,
            actual: a,
        } && q@ == path && f == field && x == declared && a == actual,
        CcinfProblem::InvalidEntryCount { count } => e matches CcinfError::InvalidEntryCount {
            path: q,
            count: c,
        } && q@ == path && c == count,
        CcinfProblem::TruncatedFile { field, offset, needed, actual } => e matches CcinfError::TruncatedFile {
            path: q,
            field: f,
            offset: o,
            needed: n,
            actual: a,
        } && q@ == path && f == field && o == offset && n == needed && a == actual,
        CcinfProblem::TrailingBytes { count } => e matches CcinfError::TrailingBytes { path: q, count: c }
            && q@ == path && c == count,
        _ => names(e, p),
    }
}

/// The error that reports problem `p` of the file at `path`.
fn located(path: String, p: CcinfProblem) -> (e: CcinfError)
    ensures
        reports(e, path@, p),
{
    match p {
        CcinfProblem::TooSmall => CcinfError::TooSmall { path },
        CcinfProblem::InvalidHeader => CcinfError::InvalidHeader { path },
        CcinfProblem::UnsupportedCompression { flag } => CcinfError::UnsupportedCompression { path, flag },
        CcinfProblem::SizeMismatch { field, declared, actual } => CcinfError::SizeMismatch {
            path,
            field,
            declared,
            actual,
        },
        CcinfProblem::InvalidEntryCount { count } => CcinfError::InvalidEntryCount { path, count },
        CcinfProblem::TruncatedFile { field, offset, needed, actual } => CcinfError::TruncatedFile {
            path,
            field,
            offset,
            needed,
            actual,
        },
        CcinfProblem::TrailingBytes { count } => CcinfError::TrailingBytes { path, count },
        CcinfProblem::UnsortedEntries { index, previous, current } => CcinfError::UnsortedEntries {
            index,
            previous,
            current,
        },
        CcinfProblem::UnsortedCellList { entry_id, list_index, index, previous, current } => CcinfError::UnsortedCellList {
            entry_id,
            list_index,
            index,
            previous,
            current,
        },
        CcinfProblem::TooManyEntries { count } => CcinfError::TooManyEntries { count },
        CcinfProblem::BodyTooLarge { size } => CcinfError::BodyTooLarge { size },
        CcinfProblem::TooManyCells { entry_id, list_index, count } => CcinfError::TooManyCells {
            entry_id,
            list_index,
            count,
        },
    }
}

/// The error that reports a problem not located in a file.
fn unlocated(p: CcinfProblem) -> (e: CcinfError)
    requires
        !is_located(p),
    ensures
        names(e, p),
{
    match p {
        CcinfProblem::UnsortedEntries { index, previous, current } => CcinfError::UnsortedEntries {
            index,
            previous,
            current,
        },
        CcinfProblem::UnsortedCellList { entry_id, list_index, index, previous, current } => CcinfError::UnsortedCellList {
            entry_id,
            list_index,
            index,
            previous,
            current,
        },
        CcinfProblem::TooManyEntries { count } => CcinfError::TooManyEntries { count },
        CcinfProblem::BodyTooLarge { size } => CcinfError::BodyTooLarge { size },
        CcinfProblem::TooManyCells { entry_id, list_index, count } => CcinfError::TooManyCells {
            entry_id,
            list_index,
            count,
        },
        _ => vstd::pervasive::unreached(),
    }
}

/// One packed six-byte cell of an entry's cell list.
#[derive(Debug, Clone, Copy, PartialEq, Eq)]
pub struct CcinfCell {
    pub selector: u16,
    pub texture_resource_key: i32,
}

/// One entry of the index.
#[derive(Debug, Clone, PartialEq, Eq)]
pub struct CcinfEntry {
    pub entry_id: i32,
    pub base_resource_key: i32,
    pub remap_table_file_id: i32,
    pub animation_file_id: i32,
    pub cell_lists: [Vec<CcinfCell>; 7],
}

/// The mathematical content of an entry.
pub struct CcinfEntryView {
    pub entry_id: i32,
    pub base_resource_key: i32,
    pub remap_table_file_id: i32,
    pub animation_file_id: i32,
    pub cell_lists: Seq<Seq<CcinfCell>>,
}

impl View for CcinfEntry {
    type V = CcinfEntryView;

    open spec fn view(&self) -> CcinfEntryView {
        CcinfEntryView {
            entry_id: self.entry_id,
            base_resource_key: self.base_resource_key,
            remap_table_file_id: self.remap_table_file_id,
            animation_file_id: self.animation_file_id,
            cell_lists: Seq::new(7, |j: int| self.cell_lists@[j]@),
        }
    }
}

/// The views of a list of entries.
pub open spec fn entries_view(es: Seq<CcinfEntry>) -> Seq<CcinfEntryView> {
    Seq::new(es.len(), |i: int| es[i]@)
}

/// Whether `data` starts with the signature.
pub open spec fn starts_with_header(data: Seq<u8>) -> bool {
    data.len() >= 16 && data.subrange(0, 16) == ccinf_header()
}

/// Whether a byte slice begins with the signature. This is a shallow check;
/// parsing validates the whole file.
pub fn has_ccinf_header(data: &[u8]) -> (r: bool)
    ensures
        r == starts_with_header(data@),
{
    if data.len() < 16 {
        return false;
    }
    let header = CCINF_HEADER;
    assert(header@ == ccinf_header());
    let mut i: usize = 0;
    while i < 16
        invariant
            i <= 16,
            data@.len() >= 16,
            header@ == ccinf_header(),
            data@.subrange(0, i as int) == ccinf_header().subrange(0, i as int),
        decreases 16 - i,
    {
        if data[i] != header[i] {
            assert(data@.subrange(0, 16)[i as int] != ccinf_header()[i as int]);
            return false;
        }
        assert(data@.subrange(0, i + 1) =~= data@.subrange(0, i as int).push(data@[i as int]));
        assert(ccinf_header().subrange(0, i + 1) =~= ccinf_header().subrange(0, i as int).push(
            ccinf_header()[i as int],
        ));
        i = i + 1;
    }
    assert(ccinf_header().subrange(0, 16) =~= ccinf_header());
    true
}

/// The unsigned value of an entry id, by which entries are ordered.
pub open spec fn unsigned_id(id: i32) -> u32 {
    i32_bits(id)
}

fn unsigned_id_exec(id: i32) -> (r: u32)
    ensures
        r == unsigned_id(id),
{
    if id >= 0 {
        id as u32
    } else {
        ((id as i64) + 0x1_0000_0000) as u32
    }
}

/// The first index `i >= k` whose cell sorts before the cell in front of it.
pub open spec fn unsorted_cell_from(cs: Seq<CcinfCell>, k: int) -> Option<int>
    decreases cs.len() - k,
{
    if k < 1 || k >= cs.len() {
        None
    } else if cs[k - 1].selector > cs[k].selector {
        Some(k)
    } else {
        unsorted_cell_from(cs, k + 1)
    }
}

/// The error for the first unsorted cell of list `j` of entry `id`, if any.
pub open spec fn cell_order_problem(id: i32, j: int, cs: Seq<CcinfCell>) -> Option<CcinfProblem> {
    match unsorted_cell_from(cs, 1) {
        Some(k) => Some(
            CcinfProblem::UnsortedCellList {
                entry_id: id,
                list_index: (j + 1) as usize,
                index: k as usize,
                previous: cs[k - 1].selector,
                current: cs[k].selector,
            },
        ),
        None => None,
    }
}

/// The first index `i >= k` whose entry sorts before the entry in front of it.
pub open spec fn unsorted_entry_from(es: Seq<CcinfEntryView>, k: int) -> Option<int>
    decreases es.len() - k,
{
    if k < 1 || k >= es.len() {
        None
    } else if unsigned_id(es[k - 1].entry_id) > unsigned_id(es[k].entry_id) {
        Some(k)
    } else {
        unsorted_entry_from(es, k + 1)
    }
}

/// The error for the first unsorted entry, if any.
pub open spec fn entry_order_problem(es: Seq<CcinfEntryView>) -> Option<CcinfProblem> {
    match unsorted_entry_from(es, 1) {
        Some(k) => Some(
            CcinfProblem::UnsortedEntries {
                index: k as usize,
                previous: es[k - 1].entry_id,
                current: es[k].entry_id,
            },
        ),
        None => None,
    }
}

/// Whether an unsorted cell index found from `k` on lies in the list.
proof fn lemma_unsorted_cell_bounds(cs: Seq<CcinfCell>, k: int)
    ensures
        unsorted_cell_from(cs, k) matches Some(i) ==> 1 <= k <= i < cs.len()
            && cs[i - 1].selector > cs[i].selector,
    decreases cs.len() - k,
{
    if 1 <= k < cs.len() && cs[k - 1].selector <= cs[k].selector {
        lemma_unsorted_cell_bounds(cs, k + 1);
    }
}

/// Whether an unsorted entry index found from `k` on lies in the list.
proof fn lemma_unsorted_entry_bounds(es: Seq<CcinfEntryView>, k: int)
    ensures
        unsorted_entry_from(es, k) matches Some(i) ==> 1 <= k <= i < es.len(),
    decreases es.len() - k,
{
    if 1 <= k < es.len() && unsigned_id(es[k - 1].entry_id) <= unsigned_id(es[k].entry_id) {
        lemma_unsorted_entry_bounds(es, k + 1);
    }
}

fn check_cell_order(entry_id: i32, list_index: usize, cells: &[CcinfCell]) -> (r: Result<
    (),
    CcinfProblem,
>)
    requires
        list_index < 7,
    ensures
        match cell_order_problem(entry_id, list_index as int, cells@) {
            Some(e) => r == Err::<(), CcinfProblem>(e),
            None => r is Ok,
        },
{
    let mut k: usize = 1;
    while k < cells.len()
        invariant
            1 <= k,
            list_index < 7,
            unsorted_cell_from(cells@, 1) == unsorted_cell_from(cells@, k as int),
        decreases cells@.len() - k,
    {
        if cells[k - 1].selector > cells[k].selector {
            return Err(
                CcinfProblem::UnsortedCellList {
                    entry_id,
                    list_index: list_index + 1,
                    index: k,
                    previous: cells[k - 1].selector,
                    current: cells[k].selector,
                },
            );
        }
        k = k + 1;
    }
    Ok(())
}

fn check_entry_order(entries: &[CcinfEntry]) -> (r: Result<(), CcinfProblem>)
    ensures
        match entry_order_problem(entries_view(entries@)) {
            Some(e) => r == Err::<(), CcinfProblem>(e),
            None => r is Ok,
        },
{
    let ghost es = entries_view(entries@);
    let mut k: usize = 1;
    while k < entries.len()
        invariant
            1 <= k,
            es == entries_view(entries@),
            unsorted_entry_from(es, 1) == unsorted_entry_from(es, k as int),
        decreases entries@.len() - k,
    {
        assert(es[k - 1] == entries@[k - 1]@);
        assert(es[k as int] == entries@[k as int]@);
        if unsigned_id_exec(entries[k - 1].entry_id) > unsigned_id_exec(entries[k].entry_id) {
            return Err(
                CcinfProblem::UnsortedEntries {
                    index: k,
                    previous: entries[k - 1].entry_id,
                    current: entries[k].entry_id,
                },
            );
        }
        k = k + 1;
    }
    Ok(())
}

/// The six bytes of a cell: its selector, then its texture resource key.
pub open spec fn cell_bytes(c: CcinfCell) -> Seq<u8> {
    u16_le_bytes(c.selector) + i32_le_bytes(c.texture_resource_key)
}

/// The bytes of a list's cells, in order.
pub open spec fn cells_bytes(cs: Seq<CcinfCell>) -> Seq<u8> {
    cs.flat_map(|c: CcinfCell| cell_bytes(c))
}

/// A counted cell list: its count byte, then its cells.
pub open spec fn list_bytes(cs: Seq<CcinfCell>) -> Seq<u8> {
    seq![cs.len() as u8] + cells_bytes(cs)
}

/// The bytes of an entry's cell lists, in order.
pub open spec fn lists_bytes(ls: Seq<Seq<CcinfCell>>) -> Seq<u8> {
    ls.flat_map(|cs: Seq<CcinfCell>| list_bytes(cs))
}

/// The four fixed fields of an entry.
pub open spec fn entry_head_bytes(e: CcinfEntryView) -> Seq<u8> {
    i32_le_bytes(e.entry_id) + i32_le_bytes(e.base_resource_key) + i32_le_bytes(
        e.remap_table_file_id,
    ) + i32_le_bytes(e.animation_file_id)
}

/// The bytes of an entry.
pub open spec fn entry_bytes(e: CcinfEntryView) -> Seq<u8> {
    entry_head_bytes(e) + lists_bytes(e.cell_lists)
}

/// The bytes of a list of entries, in order.
pub open spec fn entries_bytes(es: Seq<CcinfEntryView>) -> Seq<u8> {
    es.flat_map(|e: CcinfEntryView| entry_bytes(e))
}

/// The body of a file holding `es`: the entry count, then the entries.
pub open spec fn body_bytes(es: Seq<CcinfEntryView>) -> Seq<u8> {
    i32_le_bytes(es.len() as i32) + entries_bytes(es)
}

/// A raw file holding `es`.
pub open spec fn ccinf_file(es: Seq<CcinfEntryView>) -> Seq<u8> {
    let body = body_bytes(es);
    ccinf_header() + u32_le_bytes(body.len() as u32) + u32_le_bytes(body.len() as u32) + seq![0u8]
        + body
}

/// The first problem that writing list `j` or a later list of `e` reports.
pub open spec fn lists_write_problem(e: CcinfEntryView, j: int) -> Option<CcinfProblem>
    decreases 7 - j,
{
    if j < 0 || j >= 7 {
        None
    } else {
        match cell_order_problem(e.entry_id, j, e.cell_lists[j]) {
            Some(p) => Some(p),
            None => if e.cell_lists[j].len() > 255 {
                Some(
                    CcinfProblem::TooManyCells {
                        entry_id: e.entry_id,
                        list_index: (j + 1) as usize,
                        count: e.cell_lists[j].len() as usize,
                    },
                )
            } else {
                lists_write_problem(e, j + 1)
            },
        }
    }
}

/// The first problem that writing entry `i` or a later entry reports.
pub open spec fn entries_write_problem(es: Seq<CcinfEntryView>, i: int) -> Option<CcinfProblem>
    decreases es.len() - i,
{
    if i < 0 || i >= es.len() {
        None
    } else {
        match lists_write_problem(es[i], 0) {
            Some(p) => Some(p),
            None => entries_write_problem(es, i + 1),
        }
    }
}

/// What writing `es` reports, if anything.
pub open spec fn write_problem(es: Seq<CcinfEntryView>) -> Option<CcinfProblem> {
    if entry_order_problem(es) is Some {
        entry_order_problem(es)
    } else if es.len() > 0x7fff_ffff {
        Some(CcinfProblem::TooManyEntries { count: es.len() as usize })
    } else if entries_write_problem(es, 0) is Some {
        entries_write_problem(es, 0)
    } else if body_bytes(es).len() > 0xffff_ffff {
        Some(CcinfProblem::BodyTooLarge { size: body_bytes(es).len() as usize })
    } else {
        None
    }
}

/// Appends one cell list, validated, to `body`.
fn write_list(body: &mut Vec<u8>, entry_id: i32, list_index: usize, cells: &[CcinfCell]) -> (r:
    Result<(), CcinfProblem>)
    requires
        list_index < 7,
    ensures
        match cell_order_problem(entry_id, list_index as int, cells@) {
            Some(p) => r == Err::<(), CcinfProblem>(p),
            None => if cells@.len() > 255 {
                r == Err::<(), CcinfProblem>(
                    CcinfProblem::TooManyCells {
                        entry_id,
                        list_index: (list_index + 1) as usize,
                        count: cells@.len() as usize,
                    },
                )
            } else {
                r is Ok && final(body)@ == old(body)@ + list_bytes(cells@)
            },
        },
{
    check_cell_order(entry_id, list_index, cells)?;
    if cells.len() > 255 {
        return Err(
            CcinfProblem::TooManyCells { entry_id, list_index: list_index + 1, count: cells.len() },
        );
    }
    let ghost start = body@;
    body.push(cells.len() as u8);
    let mut k: usize = 0;
    while k < cells.len()
        invariant
            k <= cells@.len(),
            cells@.len() <= 255,
            body@ == start + seq![cells@.len() as u8] + cells_bytes(cells@.take(k as int)),
        decreases cells@.len() - k,
    {
        let ghost before = body@;
        push_u16_le(body, cells[k].selector);
        push_i32_le(body, cells[k].texture_resource_key);
        proof {
            cells@.lemma_flat_map_take_append(|c: CcinfCell| cell_bytes(c), k as int);
            assert(body@ =~= start + seq![cells@.len() as u8] + cells_bytes(
                cells@.take(k + 1),
            ));
        }
        k = k + 1;
    }
    assert(cells@.take(cells@.len() as int) =~= cells@);
    assert(body@ =~= start + list_bytes(cells@));
    Ok(())
}

/// Rebuild raw file bytes from entries.
pub fn write_ccinf_bytes(entries: &[CcinfEntry]) -> (r: Result<Vec<u8>, CcinfError>)
    ensures
        match write_problem(entries_view(entries@)) {
            Some(p) => (r matches Err(e) && names(e, p)),
            None => r is Ok && r->Ok_0@ == ccinf_file(entries_view(entries@)),
        },
{
    proof {
        lemma_write_problem_unlocated(entries_view(entries@));
    }
    match write_file(entries) {
        Ok(bytes) => Ok(bytes),
        Err(p) => Err(unlocated(p)),
    }
}

/// A problem that writing reports is never one located in a file.
proof fn lemma_write_problem_unlocated(es: Seq<CcinfEntryView>)
    ensures
        write_problem(es) matches Some(p) ==> !is_located(p),
{
    lemma_entries_problem_unlocated(es, 0);
}

proof fn lemma_entries_problem_unlocated(es: Seq<CcinfEntryView>, i: int)
    ensures
        entries_write_problem(es, i) matches Some(p) ==> !is_located(p),
    decreases es.len() - i,
{
    if 0 <= i < es.len() {
        lemma_lists_problem_unlocated(es[i], 0);
        lemma_entries_problem_unlocated(es, i + 1);
    }
}

proof fn lemma_lists_problem_unlocated(e: CcinfEntryView, j: int)
    ensures
        lists_write_problem(e, j) matches Some(p) ==> !is_located(p),
    decreases 7 - j,
{
    if 0 <= j < 7 {
        lemma_lists_problem_unlocated(e, j + 1);
    }
}

/// The file bytes for entries, or the first problem that writing them reports.
fn write_file(entries: &[CcinfEntry]) -> (r: Result<Vec<u8>, CcinfProblem>)
    ensures
        match write_problem(entries_view(entries@)) {
            Some(e) => r == Err::<Vec<u8>, CcinfProblem>(e),
            None => r is Ok && r->Ok_0@ == ccinf_file(entries_view(entries@)),
        },
{
    let ghost es = entries_view(entries@);
    check_entry_order(entries)?;
    if entries.len() > 0x7fff_ffff {
        return Err(CcinfProblem::TooManyEntries { count: entries.len() });
    }
    let mut body: Vec<u8> = Vec::new();
    push_i32_le(&mut body, entries.len() as i32);
    let mut i: usize = 0;
    while i < entries.len()
        invariant
            i <= entries@.len(),
            entries@.len() <= 0x7fff_ffff,
            es == entries_view(entries@),
            body@ == i32_le_bytes(es.len() as i32) + entries_bytes(es.take(i as int)),
            entries_write_problem(es, 0) == entries_write_problem(es, i as int),
            entry_order_problem(es) is None,
        decreases entries@.len() - i,
    {
        let entry = &entries[i];
        assert(es[i as int] == entry@);
        let ghost before = body@;
        push_i32_le(&mut body, entry.entry_id);
        push_i32_le(&mut body, entry.base_resource_key);
        push_i32_le(&mut body, entry.remap_table_file_id);
        push_i32_le(&mut body, entry.animation_file_id);
        assert(body@ =~= before + entry_head_bytes(entry@));
        let lists = entry.cell_lists.as_slice();
        let mut j: usize = 0;
        while j < 7
            invariant
                j <= 7,
                lists@ == entry.cell_lists@,
                lists@.len() == 7,
                body@ == before + entry_head_bytes(entry@) + lists_bytes(
                    entry@.cell_lists.take(j as int),
                ),
                lists_write_problem(entry@, 0) == lists_write_problem(entry@, j as int),
                es == entries_view(entries@),
                i < es.len(),
                es[i as int] == entry@,
                es.len() <= 0x7fff_ffff,
                entries_write_problem(es, 0) == entries_write_problem(es, i as int),
                entry_order_problem(es) is None,
            decreases 7 - j,
        {
            let ghost mid = body@;
            assert(entry@.cell_lists[j as int] == lists@[j as int]@);
            write_list(&mut body, entry.entry_id, j, lists[j].as_slice())?;
            proof {
                entry@.cell_lists.lemma_flat_map_take_append(
                    |cs: Seq<CcinfCell>| list_bytes(cs),
                    j as int,
                );
                assert(body@ =~= before + entry_head_bytes(entry@) + lists_bytes(
                    entry@.cell_lists.take(j + 1),
                ));
            }
            j = j + 1;
        }
        proof {
            assert(entry@.cell_lists.take(7) =~= entry@.cell_lists);
            es.lemma_flat_map_take_append(|e: CcinfEntryView| entry_bytes(e), i as int);
            assert(body@ =~= i32_le_bytes(es.len() as i32) + entries_bytes(es.take(i + 1)));
        }
        i = i + 1;
    }
    assert(es.take(es.len() as int) =~= es);
    assert(body@ == body_bytes(es));
    if body.len() > 0xffff_ffff {
        return Err(CcinfProblem::BodyTooLarge { size: body.len() });
    }
    let size = body.len() as u32;
    let mut out: Vec<u8> = Vec::new();
    let header = CCINF_HEADER;
    extend_bytes(&mut out, header.as_slice());
    push_u32_le(&mut out, size);
    push_u32_le(&mut out, size);
    out.push(0u8);
    extend_bytes(&mut out, body.as_slice());
    assert(out@ =~= ccinf_file(es));
    Ok(out)
}

/// The error for a field of `n` bytes at `pos` that runs past the end.
pub open spec fn truncated(d: Seq<u8>, pos: int, field: &'static str, n: int) -> CcinfProblem {
    CcinfProblem::TruncatedFile {
        field,
        offset: pos as usize,
        needed: n as usize,
        actual: (d.len() - pos) as usize,
    }
}

/// The cell stored at `pos`.
pub open spec fn cell_at(d: Seq<u8>, pos: int) -> CcinfCell {
    CcinfCell { selector: u16_at(d, pos), texture_resource_key: i32_at(d, pos + 2) }
}

/// Puts `a` in front of the items of a parse result.
pub open spec fn prepend_parsed<T>(a: Seq<T>, r: Result<(Seq<T>, int), CcinfProblem>) -> Result<
    (Seq<T>, int),
    CcinfProblem,
> {
    match r {
        Ok((b, e)) => Ok((a + b, e)),
        Err(e) => Err(e),
    }
}

/// Cells `k..n` of a list, read from `pos` on, and the position after them.
pub open spec fn parse_cells(d: Seq<u8>, pos: int, k: int, n: int) -> Result<
    (Seq<CcinfCell>, int),
    CcinfProblem,
>
    decreases n - k,
{
    if k >= n {
        Ok((Seq::empty(), pos))
    } else if pos + 2 > d.len() {
        Err(truncated(d, pos, "cell.selector", 2))
    } else if pos + 6 > d.len() {
        Err(truncated(d, pos + 2, "cell.texture_resource_key", 4))
    } else {
        prepend_parsed(seq![cell_at(d, pos)], parse_cells(d, pos + 6, k + 1, n))
    }
}

/// Cell list `j` of entry `id`, read from `pos` on and checked for order.
pub open spec fn parse_list(d: Seq<u8>, pos: int, id: i32, j: int) -> Result<
    (Seq<CcinfCell>, int),
    CcinfProblem,
> {
    if pos + 1 > d.len() {
        Err(truncated(d, pos, "cell_list.count", 1))
    } else {
        match parse_cells(d, pos + 1, 0, d[pos] as int) {
            Err(e) => Err(e),
            Ok((cs, p)) => match cell_order_problem(id, j, cs) {
                Some(e) => Err(e),
                None => Ok((cs, p)),
            },
        }
    }
}

/// Cell lists `j..7` of entry `id`, read from `pos` on.
pub open spec fn parse_lists(d: Seq<u8>, pos: int, id: i32, j: int) -> Result<
    (Seq<Seq<CcinfCell>>, int),
    CcinfProblem,
>
    decreases 7 - j,
{
    if j >= 7 {
        Ok((Seq::empty(), pos))
    } else {
        match parse_list(d, pos, id, j) {
            Err(e) => Err(e),
            Ok((cs, p)) => prepend_parsed(seq![cs], parse_lists(d, p, id, j + 1)),
        }
    }
}

/// The entry stored at `pos` and the position after it.
pub open spec fn parse_entry(d: Seq<u8>, pos: int) -> Result<(CcinfEntryView, int), CcinfProblem> {
    if pos + 4 > d.len() {
        Err(truncated(d, pos, "entry.id", 4))
    } else if pos + 8 > d.len() {
        Err(truncated(d, pos + 4, "entry.base_resource_key", 4))
    } else if pos + 12 > d.len() {
        Err(truncated(d, pos + 8, "entry.remap_table_file_id", 4))
    } else if pos + 16 > d.len() {
        Err(truncated(d, pos + 12, "entry.animation_file_id", 4))
    } else {
        match parse_lists(d, pos + 16, i32_at(d, pos), 0) {
            Err(e) => Err(e),
            Ok((ls, p)) => Ok(
                (
                    CcinfEntryView {
                        entry_id: i32_at(d, pos),
                        base_resource_key: i32_at(d, pos + 4),
                        remap_table_file_id: i32_at(d, pos + 8),
                        animation_file_id: i32_at(d, pos + 12),
                        cell_lists: ls,
                    },
                    p,
                ),
            ),
        }
    }
}

/// Entries `i..n`, read from `pos` on, and the position after them.
pub open spec fn parse_entries(d: Seq<u8>, pos: int, i: int, n: int) -> Result<
    (Seq<CcinfEntryView>, int),
    CcinfProblem,
>
    decreases n - i,
{
    if i >= n {
        Ok((Seq::empty(), pos))
    } else {
        match parse_entry(d, pos) {
            Err(e) => Err(e),
            Ok((e, p)) => prepend_parsed(seq![e], parse_entries(d, p, i + 1, n)),
        }
    }
}

/// What parsing file bytes returns: the entries, or the first problem found.
pub open spec fn parse_ccinf(d: Seq<u8>) -> Result<Seq<CcinfEntryView>, CcinfProblem> {
    let body = d.len() - 25;
    let count = i32_at(d, 25);
    if d.len() < 25 {
        Err(CcinfProblem::TooSmall)
    } else if !starts_with_header(d) {
        Err(CcinfProblem::InvalidHeader)
    } else if d[24] != 0 {
        Err(CcinfProblem::UnsupportedCompression { flag: d[24] })
    } else if u32_at(d, 0x14) != body {
        Err(
            CcinfProblem::SizeMismatch {
                field: "stored_size",
                declared: u32_at(d, 0x14) as usize,
                actual: body as usize,
            },
        )
    } else if u32_at(d, 0x10) != body {
        Err(
            CcinfProblem::SizeMismatch {
                field: "unpacked_size",
                declared: u32_at(d, 0x10) as usize,
                actual: body as usize,
            },
        )
    } else if d.len() < 29 {
        Err(truncated(d, 25, "entry_count", 4))
    } else if count < 0 {
        Err(CcinfProblem::InvalidEntryCount { count })
    } else if 23 * count > usize::MAX {
        Err(CcinfProblem::InvalidEntryCount { count: 0x7fff_ffff })
    } else if 23 * count > d.len() - 29 {
        Err(
            CcinfProblem::TruncatedFile {
                field: "entry_records",
                offset: 29,
                needed: (23 * count) as usize,
                actual: (d.len() - 29) as usize,
            },
        )
    } else {
        finish_parse(d, parse_entries(d, 29, 0, count as int))
    }
}

/// The end of a parse: the entries must end the file and be sorted.
pub open spec fn finish_parse(d: Seq<u8>, r: Result<(Seq<CcinfEntryView>, int), CcinfProblem>) -> Result<
    Seq<CcinfEntryView>,
    CcinfProblem,
> {
    match r {
        Err(e) => Err(e),
        Ok((es, end)) => if end != d.len() {
            Err(CcinfProblem::TrailingBytes { count: (d.len() - end) as usize })
        } else {
            match entry_order_problem(es) {
                Some(e) => Err(e),
                None => Ok(es),
            }
        },
    }
}

/// Reading one more item moves it from the unread part to the read part.
proof fn lemma_prepend_step<T>(done: Seq<T>, x: T, rest: Result<(Seq<T>, int), CcinfProblem>)
    ensures
        prepend_parsed(done, prepend_parsed(seq![x], rest)) == prepend_parsed(done.push(x), rest),
{
    match rest {
        Ok((a, e)) => {
            assert(done + (seq![x] + a) =~= done.push(x) + a);
        },
        Err(_) => {},
    }
}

/// Nothing read yet leaves a parse result unchanged.
proof fn lemma_prepend_empty<T>(rest: Result<(Seq<T>, int), CcinfProblem>)
    ensures
        prepend_parsed(Seq::<T>::empty(), rest) == rest,
{
    match rest {
        Ok((a, e)) => {
            assert(Seq::<T>::empty() + a =~= a);
        },
        Err(_) => {},
    }
}

fn truncated_exec(data: &[u8], pos: usize, field: &'static str, n: usize) -> (r: CcinfProblem)
    requires
        pos <= data@.len(),
    ensures
        r == truncated(data@, pos as int, field, n as int),
{
    CcinfProblem::TruncatedFile { field, offset: pos, needed: n, actual: data.len() - pos }
}

fn read_cells(data: &[u8], pos: usize, n: usize) -> (r: Result<(Vec<CcinfCell>, usize), CcinfProblem>)
    requires
        pos <= data@.len(),
    ensures
        match parse_cells(data@, pos as int, 0, n as int) {
            Ok((cs, p)) => r is Ok && r->Ok_0.0@ == cs && r->Ok_0.1 == p && p <= data@.len(),
            Err(e) => r == Err::<(Vec<CcinfCell>, usize), CcinfProblem>(e),
        },
{
    let ghost d = data@;
    let mut cells: Vec<CcinfCell> = Vec::new();
    let mut p: usize = pos;
    let mut k: usize = 0;
    proof {
        lemma_prepend_empty(parse_cells(d, pos as int, 0, n as int));
    }
    while k < n
        invariant
            k <= n,
            p <= d.len(),
            d == data@,
            parse_cells(d, pos as int, 0, n as int) == prepend_parsed(
                cells@,
                parse_cells(d, p as int, k as int, n as int),
            ),
        decreases n - k,
    {
        if data.len() - p < 2 {
            return Err(truncated_exec(data, p, "cell.selector", 2));
        }
        if data.len() - p < 6 {
            return Err(truncated_exec(data, p + 2, "cell.texture_resource_key", 4));
        }
        let cell = CcinfCell {
            selector: read_u16_le_at(data, p),
            texture_resource_key: read_i32_le_at(data, p + 2),
        };
        proof {
            lemma_prepend_step(
                cells@,
                cell,
                parse_cells(d, p + 6, k + 1, n as int),
            );
        }
        cells.push(cell);
        p = p + 6;
        k = k + 1;
    }
    assert(cells@ + Seq::<CcinfCell>::empty() =~= cells@);
    Ok((cells, p))
}

fn read_list(data: &[u8], pos: usize, id: i32, j: usize) -> (r: Result<
    (Vec<CcinfCell>, usize),
    CcinfProblem,
>)
    requires
        pos <= data@.len(),
        j < 7,
    ensures
        match parse_list(data@, pos as int, id, j as int) {
            Ok((cs, p)) => r is Ok && r->Ok_0.0@ == cs && r->Ok_0.1 == p && p <= data@.len(),
            Err(e) => r == Err::<(Vec<CcinfCell>, usize), CcinfProblem>(e),
        },
{
    if pos >= data.len() {
        return Err(truncated_exec(data, pos, "cell_list.count", 1));
    }
    let n = data[pos] as usize;
    let (cells, p) = read_cells(data, pos + 1, n)?;
    check_cell_order(id, j, cells.as_slice())?;
    Ok((cells, p))
}

fn lists_array(lists: Vec<Vec<CcinfCell>>) -> (r: [Vec<CcinfCell>; 7])
    requires
        lists@.len() == 7,
    ensures
        forall|j: int| 0 <= j < 7 ==> #[trigger] r@[j]@ == lists@[j]@,
{
    let ghost orig = lists@;
    let mut lists = lists;
    let l6 = lists.pop().unwrap();
    let l5 = lists.pop().unwrap();
    let l4 = lists.pop().unwrap();
    let l3 = lists.pop().unwrap();
    let l2 = lists.pop().unwrap();
    let l1 = lists.pop().unwrap();
    let l0 = lists.pop().unwrap();
    let r = [l0, l1, l2, l3, l4, l5, l6];
    assert(r@ =~= orig);
    r
}

fn read_entry(data: &[u8], pos: usize) -> (r: Result<(CcinfEntry, usize), CcinfProblem>)
    requires
        pos <= data@.len(),
    ensures
        match parse_entry(data@, pos as int) {
            Ok((e, p)) => r is Ok && r->Ok_0.0@ == e && r->Ok_0.1 == p && p <= data@.len(),
            Err(e) => r == Err::<(CcinfEntry, usize), CcinfProblem>(e),
        },
{
    let ghost d = data@;
    let rest = data.len() - pos;
    if rest < 4 {
        return Err(truncated_exec(data, pos, "entry.id", 4));
    }
    if rest < 8 {
        return Err(truncated_exec(data, pos + 4, "entry.base_resource_key", 4));
    }
    if rest < 12 {
        return Err(truncated_exec(data, pos + 8, "entry.remap_table_file_id", 4));
    }
    if rest < 16 {
        return Err(truncated_exec(data, pos + 12, "entry.animation_file_id", 4));
    }
    let entry_id = read_i32_le_at(data, pos);
    let base_resource_key = read_i32_le_at(data, pos + 4);
    let remap_table_file_id = read_i32_le_at(data, pos + 8);
    let animation_file_id = read_i32_le_at(data, pos + 12);
    let start = pos + 16;
    let mut lists: Vec<Vec<CcinfCell>> = Vec::new();
    let mut p: usize = start;
    let mut j: usize = 0;
    proof {
        lemma_prepend_empty(parse_lists(d, start as int, entry_id, 0));
    }
    while j < 7
        invariant
            j <= 7,
            p <= d.len(),
            d == data@,
            lists@.len() == j,
            start == pos + 16,
            start <= d.len(),
            entry_id == i32_at(d, pos as int),
            parse_lists(d, start as int, entry_id, 0) == prepend_parsed(
                Seq::new(lists@.len(), |k: int| lists@[k]@),
                parse_lists(d, p as int, entry_id, j as int),
            ),
        decreases 7 - j,
    {
        let ghost done = Seq::new(lists@.len(), |k: int| lists@[k]@);
        let (cells, next) = read_list(data, p, entry_id, j)?;
        proof {
            lemma_prepend_step(done, cells@, parse_lists(d, next as int, entry_id, j + 1));
        }
        lists.push(cells);
        assert(Seq::new(lists@.len(), |k: int| lists@[k]@) =~= done.push(lists@[j as int]@));
        p = next;
        j = j + 1;
    }
    let ghost ls = Seq::new(lists@.len(), |k: int| lists@[k]@);
    assert(ls + Seq::<Seq<CcinfCell>>::empty() =~= ls);
    let cell_lists = lists_array(lists);
    let entry = CcinfEntry {
        entry_id,
        base_resource_key,
        remap_table_file_id,
        animation_file_id,
        cell_lists,
    };
    assert(entry@.cell_lists =~= ls);
    Ok((entry, p))
}

/// A parsed CCINF file.
#[derive(Debug, Clone)]
pub struct Ccinf {
    path: String,
    data: Vec<u8>,
    unpacked_size: usize,
    stored_size: usize,
    entries: Vec<CcinfEntry>,
}

impl Ccinf {
    /// The file bytes.
    pub closed spec fn bytes(&self) -> Seq<u8> {
        self.data@
    }

    /// The logical path.
    pub closed spec fn path_view(&self) -> Seq<char> {
        self.path@
    }

    /// The parsed entries.
    pub closed spec fn entries_spec(&self) -> Seq<CcinfEntryView> {
        entries_view(self.entries@)
    }

    /// The entries are the parse of the bytes, and both sizes equal the body length.
    pub closed spec fn wf(&self) -> bool {
        &&& parse_ccinf(self.data@) == Ok::<Seq<CcinfEntryView>, CcinfProblem>(
            entries_view(self.entries@),
        )
        &&& self.unpacked_size == self.data@.len() - 25
        &&& self.stored_size == self.data@.len() - 25
    }

    /// Parses file bytes while keeping their logical path.
    pub fn from_bytes(path: String, data: Vec<u8>) -> (r: Result<Self, CcinfError>)
        ensures
            match parse_ccinf(data@) {
                Ok(es) => r is Ok && r->Ok_0.wf() && r->Ok_0.bytes() == data@
                    && r->Ok_0.path_view() == path@ && r->Ok_0.entries_spec() == es,
                Err(p) => (r matches Err(e) && reports(e, path@, p)),
            },
    {
        let shown = path.clone();
        match Self::parse_file(path, data) {
            Ok(c) => Ok(c),
            Err(p) => Err(located(shown, p)),
        }
    }

    /// The parsed file, or the first problem found in its bytes.
    fn parse_file(path: String, data: Vec<u8>) -> (r: Result<Self, CcinfProblem>)
        ensures
            match parse_ccinf(data@) {
                Ok(es) => r is Ok && r->Ok_0.wf() && r->Ok_0.bytes() == data@
                    && r->Ok_0.path_view() == path@ && r->Ok_0.entries_spec() == es,
                Err(e) => r == Err::<Self, CcinfProblem>(e),
            },
    {
        let ghost d = data@;
        if data.len() < CCINF_PREFIX_LEN {
            return Err(CcinfProblem::TooSmall);
        }
        if !has_ccinf_header(data.as_slice()) {
            return Err(CcinfProblem::InvalidHeader);
        }
        let unpacked_size = read_u32_le_at(data.as_slice(), 0x10) as usize;
        let stored_size = read_u32_le_at(data.as_slice(), 0x14) as usize;
        let flag = data[0x18];
        if flag != 0 {
            return Err(CcinfProblem::UnsupportedCompression { flag });
        }
        let body_size = data.len() - CCINF_PREFIX_LEN;
        if stored_size != body_size {
            return Err(
                CcinfProblem::SizeMismatch {
                    field: "stored_size",
                    declared: stored_size,
                    actual: body_size,
                },
            );
        }
        if unpacked_size != body_size {
            return Err(
                CcinfProblem::SizeMismatch {
                    field: "unpacked_size",
                    declared: unpacked_size,
                    actual: body_size,
                },
            );
        }
        if data.len() < 29 {
            return Err(truncated_exec(data.as_slice(), 25, "entry_count", 4));
        }
        let count = read_i32_le_at(data.as_slice(), 25);
        if count < 0 {
            return Err(CcinfProblem::InvalidEntryCount { count });
        }
        let n = count as usize;
        if n > usize::MAX / 23 {
            return Err(CcinfProblem::InvalidEntryCount { count: 0x7fff_ffff });
        }
        let minimum = n * 23;
        if minimum > data.len() - 29 {
            return Err(
                CcinfProblem::TruncatedFile {
                    field: "entry_records",
                    offset: 29,
                    needed: minimum,
                    actual: data.len() - 29,
                },
            );
        }
        let mut entries: Vec<CcinfEntry> = Vec::new();
        let mut p: usize = 29;
        let mut i: usize = 0;
        proof {
            lemma_prepend_empty(parse_entries(d, 29, 0, n as int));
        }
        while i < n
            invariant
                i <= n,
                p <= d.len(),
                d == data@,
                parse_entries(d, 29, 0, n as int) == prepend_parsed(
                    entries_view(entries@),
                    parse_entries(d, p as int, i as int, n as int),
                ),
                parse_ccinf(d) == finish_parse(d, parse_entries(d, 29, 0, n as int)),
            decreases n - i,
        {
            let (entry, next) = read_entry(data.as_slice(), p)?;
            proof {
                lemma_prepend_step(
                    entries_view(entries@),
                    entry@,
                    parse_entries(d, next as int, i + 1, n as int),
                );
            }
            let ghost before = entries_view(entries@);
            entries.push(entry);
            assert(entries_view(entries@) =~= before.push(entry@));
            p = next;
            i = i + 1;
        }
        let ghost es = entries_view(entries@);
        assert(es + Seq::<CcinfEntryView>::empty() =~= es);
        if p != data.len() {
            return Err(CcinfProblem::TrailingBytes { count: data.len() - p });
        }
        check_entry_order(entries.as_slice())?;
        Ok(Ccinf { path, data, unpacked_size, stored_size, entries })
    }
}

/// The first index at or after `k` whose entry has id `id`.
pub open spec fn id_index_from(es: Seq<CcinfEntryView>, id: i32, k: int) -> Option<int>
    decreases es.len() - k,
{
    if k < 0 || k >= es.len() {
        None
    } else if es[k].entry_id == id {
        Some(k)
    } else {
        id_index_from(es, id, k + 1)
    }
}

/// What `id_index_from` finds, stated by quantifiers.
proof fn lemma_id_index_from(es: Seq<CcinfEntryView>, id: i32, k: int)
    requires
        0 <= k,
    ensures
        match id_index_from(es, id, k) {
            Some(m) => k <= m < es.len() && es[m].entry_id == id && forall|j: int|
                k <= j < m ==> #[trigger] es[j].entry_id != id,
            None => forall|j: int| k <= j < es.len() ==> #[trigger] es[j].entry_id != id,
        },
    decreases es.len() - k,
{
    if k < es.len() && es[k].entry_id != id {
        lemma_id_index_from(es, id, k + 1);
    }
}

/// Entries without an unsorted pair are sorted by unsigned id.
proof fn lemma_entries_sorted(es: Seq<CcinfEntryView>, k: int)
    requires
        1 <= k,
        unsorted_entry_from(es, k) is None,
    ensures
        forall|i: int, j: int|
            k - 1 <= i <= j < es.len() ==> unsigned_id(#[trigger] es[i].entry_id) <= unsigned_id(
                #[trigger] es[j].entry_id,
            ),
    decreases es.len() - k,
{
    if k < es.len() {
        lemma_entries_sorted(es, k + 1);
    }
}

/// Two ids with the same unsigned value are equal.
proof fn lemma_unsigned_id_injective(a: i32, b: i32)
    ensures
        unsigned_id(a) == unsigned_id(b) ==> a == b,
{
}

impl Ccinf {
    /// Parses file bytes without an on-disk path.
    pub fn from_memory(data: Vec<u8>) -> (r: Result<Self, CcinfError>)
        ensures
            match parse_ccinf(data@) {
                Ok(es) => r is Ok && r->Ok_0.wf() && r->Ok_0.bytes() == data@
                    && r->Ok_0.path_view() == "<memory>"@ && r->Ok_0.entries_spec() == es,
                Err(p) => (r matches Err(e) && reports(e, "<memory>"@, p)),
            },
    {
        Self::from_bytes(String::from_str("<memory>"), data)
    }

    /// Builds a raw file from entries.
    pub fn from_entries(path: String, entries: Vec<CcinfEntry>) -> (r: Result<Self, CcinfError>)
        ensures
            match write_problem(entries_view(entries@)) {
                Some(p) => (r matches Err(e) && names(e, p)),
                None => r is Ok && r->Ok_0.wf() && r->Ok_0.bytes() == ccinf_file(
                    entries_view(entries@),
                ) && r->Ok_0.path_view() == path@ && r->Ok_0.entries_spec() == entries_view(
                    entries@,
                ),
            },
    {
        let data = write_ccinf_bytes(entries.as_slice())?;
        proof {
            assert(data@.len() == data.len());
            lemma_write_then_parse(entries_view(entries@));
        }
        Self::from_bytes(path, data)
    }

    /// The logical path associated with this file.
    pub fn path(&self) -> (r: &str)
        ensures
            r@ == self.path_view(),
    {
        self.path.as_str()
    }

    /// The file bytes.
    pub fn as_bytes(&self) -> (r: &[u8])
        ensures
            r@ == self.bytes(),
    {
        self.data.as_slice()
    }

    /// Consumes the file and returns its bytes.
    pub fn into_bytes(self) -> (r: Vec<u8>)
        ensures
            r@ == self.bytes(),
    {
        self.data
    }

    /// The signature, which every parsed file starts with.
    pub fn header(&self) -> (r: [u8; 16])
        requires
            self.wf(),
        ensures
            r@ == ccinf_header(),
            r@ == self.bytes().subrange(0, 16),
    {
        let r = CCINF_HEADER;
        assert(r@ == ccinf_header());
        r
    }

    /// The declared unpacked size, which equals the body length.
    pub fn unpacked_size(&self) -> (r: usize)
        requires
            self.wf(),
        ensures
            r == self.bytes().len() - 25,
            r == u32_at(self.bytes(), 0x10),
    {
        self.unpacked_size
    }

    /// The declared stored size, which equals the body length.
    pub fn stored_size(&self) -> (r: usize)
        requires
            self.wf(),
        ensures
            r == self.bytes().len() - 25,
            r == u32_at(self.bytes(), 0x14),
    {
        self.stored_size
    }

    /// The compression flag, which is zero in every parsed file.
    pub fn compression_flag(&self) -> (r: u8)
        requires
            self.wf(),
        ensures
            r == 0,
            r == self.bytes()[24],
    {
        0
    }

    /// The parsed entries.
    pub fn entries(&self) -> (r: &[CcinfEntry])
        ensures
            entries_view(r@) == self.entries_spec(),
    {
        self.entries.as_slice()
    }

    /// Finds an entry by id, searching in the files' unsigned id order; the
    /// first of several entries with the id is returned.
    pub fn find_entry(&self, entry_id: i32) -> (r: Option<&CcinfEntry>)
        requires
            self.wf(),
        ensures
            match id_index_from(self.entries_spec(), entry_id, 0) {
                Some(i) => r is Some && r->Some_0@ == self.entries_spec()[i],
                None => r is None,
            },
    {
        let ghost es = self.entries_spec();
        proof {
            lemma_entries_sorted(es, 1);
            lemma_id_index_from(es, entry_id, 0);
        }
        let target = unsigned_id_exec(entry_id);
        let mut lo: usize = 0;
        let mut hi: usize = self.entries.len();
        while lo < hi
            invariant
                lo <= hi <= self.entries@.len(),
                es == entries_view(self.entries@),
                forall|k: int| 0 <= k < lo ==> unsigned_id(#[trigger] es[k].entry_id) < target,
                forall|k: int|
                    hi <= k < es.len() ==> unsigned_id(#[trigger] es[k].entry_id) >= target,
                forall|i: int, j: int|
                    0 <= i <= j < es.len() ==> unsigned_id(#[trigger] es[i].entry_id)
                        <= unsigned_id(#[trigger] es[j].entry_id),
            decreases hi - lo,
        {
            let mid = lo + (hi - lo) / 2;
            assert(es[mid as int] == self.entries@[mid as int]@);
            if unsigned_id_exec(self.entries[mid].entry_id) < target {
                assert forall|k: int| 0 <= k < mid + 1 implies unsigned_id(
                    #[trigger] es[k].entry_id,
                ) < target by {
                    assert(unsigned_id(es[k].entry_id) <= unsigned_id(es[mid as int].entry_id));
                }
                lo = mid + 1;
            } else {
                assert forall|k: int| mid <= k < es.len() implies unsigned_id(
                    #[trigger] es[k].entry_id,
                ) >= target by {
                    assert(unsigned_id(es[mid as int].entry_id) <= unsigned_id(es[k].entry_id));
                }
                hi = mid;
            }
        }
        if lo < self.entries.len() {
            assert(es[lo as int] == self.entries@[lo as int]@);
            if self.entries[lo].entry_id == entry_id {
                proof {
                    assert(es[lo as int].entry_id == entry_id);
                    match id_index_from(es, entry_id, 0) {
                        Some(m) => {
                            if m < lo {
                                assert(unsigned_id(es[m].entry_id) < target);
                            }
                            if m > lo {
                                assert(es[lo as int].entry_id != entry_id);
                            }
                            assert(m == lo);
                        },
                        None => {
                            assert(es[lo as int].entry_id != entry_id);
                        },
                    }
                }
                return Some(&self.entries[lo]);
            }
            proof {
                match id_index_from(es, entry_id, 0) {
                    Some(m) => {
                        if m < lo {
                        } else {
                            assert(unsigned_id(es[lo as int].entry_id) <= unsigned_id(es[m].entry_id));
                            lemma_unsigned_id_injective(es[lo as int].entry_id, entry_id);
                        }
                    },
                    None => {},
                }
            }
        }
        None
    }

    /// Rebuilds the file bytes from the entries; they are the parsed bytes.
    pub fn to_bytes(&self) -> (r: Result<Vec<u8>, CcinfError>)
        requires
            self.wf(),
        ensures
            r is Ok,
            r->Ok_0@ == self.bytes(),
            r->Ok_0@ == ccinf_file(self.entries_spec()),
    {
        proof {
            lemma_parse_then_write(self.data@);
        }
        write_ccinf_bytes(self.entries.as_slice())
    }
}

/// A non-empty sequence flat-maps to the image of its first item, then the rest.
proof fn lemma_flat_map_first<A, B>(s: Seq<A>, f: spec_fn(A) -> Seq<B>)
    requires
        s.len() > 0,
    ensures
        s.flat_map(f) == f(s[0]) + s.drop_first().flat_map(f),
{
    assert(s.map_values(f).drop_first() =~= s.drop_first().map_values(f));
}

/// An empty sequence flat-maps to nothing.
proof fn lemma_flat_map_empty<A, B>(s: Seq<A>, f: spec_fn(A) -> Seq<B>)
    requires
        s.len() == 0,
    ensures
        s.flat_map(f) == Seq::<B>::empty(),
{
    assert(s.map_values(f) =~= Seq::<Seq<B>>::empty());
}

/// Bytes that hold the image of `x` followed by the images of `rest` hold
/// the images of `x` and `rest` together.
proof fn lemma_encode_step<T>(d: Seq<u8>, pos: int, q: int, p: int, x: T, rest: Seq<T>, f: spec_fn(T) -> Seq<u8>)
    requires
        0 <= pos <= q <= p <= d.len(),
        d.subrange(pos, q) == f(x),
        d.subrange(q, p) == rest.flat_map(f),
    ensures
        d.subrange(pos, p) == (seq![x] + rest).flat_map(f),
        (seq![x] + rest).drop_first() == rest,
        (seq![x] + rest)[0] == x,
{
    let xs = seq![x] + rest;
    lemma_flat_map_first(xs, f);
    assert(xs.drop_first() =~= rest);
    assert(d.subrange(pos, p) =~= d.subrange(pos, q) + d.subrange(q, p));
}

/// The bytes of a cell decode back to the cell.
proof fn lemma_cell_bytes_decode(d: Seq<u8>, pos: int, c: CcinfCell)
    requires
        0 <= pos,
        pos + 6 <= d.len(),
        d.subrange(pos, pos + 6) == cell_bytes(c),
    ensures
        cell_at(d, pos) == c,
{
    crate::bytes::lemma_u16_round_trip(c.selector);
    crate::bytes::lemma_i32_round_trip(c.texture_resource_key);
    let s = d.subrange(pos, pos + 6);
    assert(d.subrange(pos, pos + 2) =~= s.subrange(0, 2));
    assert(d.subrange(pos + 2, pos + 6) =~= s.subrange(2, 6));
    assert(s.subrange(0, 2) =~= u16_le_bytes(c.selector));
    assert(s.subrange(2, 6) =~= i32_le_bytes(c.texture_resource_key));
}

/// The cell at a position encodes back to the bytes it was read from.
proof fn lemma_cell_at_encode(d: Seq<u8>, pos: int)
    requires
        0 <= pos,
        pos + 6 <= d.len(),
    ensures
        cell_bytes(cell_at(d, pos)) == d.subrange(pos, pos + 6),
{
    crate::bytes::lemma_u16_bytes_round_trip(d.subrange(pos, pos + 2));
    crate::bytes::lemma_i32_bytes_round_trip(d.subrange(pos + 2, pos + 6));
    assert(d.subrange(pos + 2, pos + 6) =~= d.subrange(pos + 2, pos + 2 + 4));
    assert(d.subrange(pos, pos + 6) =~= d.subrange(pos, pos + 2) + d.subrange(pos + 2, pos + 6));
}

/// Parsed cells encode back to the bytes they were read from.
proof fn lemma_parse_cells_encode(d: Seq<u8>, pos: int, k: int, n: int)
    requires
        0 <= pos <= d.len(),
        k <= n,
    ensures
        parse_cells(d, pos, k, n) matches Ok((cs, p)) ==> cs.len() == n - k && pos <= p <= d.len()
            && d.subrange(pos, p) == cells_bytes(cs),
    decreases n - k,
{
    if k >= n {
        lemma_flat_map_empty(Seq::<CcinfCell>::empty(), |c: CcinfCell| cell_bytes(c));
        assert(d.subrange(pos, pos) =~= Seq::<u8>::empty());
    } else if pos + 6 <= d.len() {
        lemma_parse_cells_encode(d, pos + 6, k + 1, n);
        match parse_cells(d, pos + 6, k + 1, n) {
            Ok((rest, p)) => {
                lemma_cell_at_encode(d, pos);
                lemma_encode_step(d, pos, pos + 6, p, cell_at(d, pos), rest, |c: CcinfCell| cell_bytes(c));
            },
            Err(_) => {},
        }
    }
}

/// A parsed list encodes back to its bytes and satisfies the writer's checks.
proof fn lemma_parse_list_encode(d: Seq<u8>, pos: int, id: i32, j: int)
    requires
        0 <= pos <= d.len(),
    ensures
        parse_list(d, pos, id, j) matches Ok((cs, p)) ==> cs.len() <= 255 && pos < p <= d.len()
            && d.subrange(pos, p) == list_bytes(cs) && unsorted_cell_from(cs, 1) is None,
{
    if pos + 1 <= d.len() {
        lemma_parse_cells_encode(d, pos + 1, 0, d[pos] as int);
        match parse_cells(d, pos + 1, 0, d[pos] as int) {
            Ok((cs, p)) => {
                assert(d.subrange(pos, p) =~= seq![d[pos]] + d.subrange(pos + 1, p));
            },
            Err(_) => {},
        }
    }
}

/// Whether every list of `ls` passes the writer's checks.
pub open spec fn lists_valid(ls: Seq<Seq<CcinfCell>>) -> bool {
    forall|m: int|
        0 <= m < ls.len() ==> (#[trigger] ls[m]).len() <= 255 && unsorted_cell_from(ls[m], 1) is None
}

/// Parsed lists encode back to their bytes and pass the writer's checks.
proof fn lemma_parse_lists_encode(d: Seq<u8>, pos: int, id: i32, j: int)
    requires
        0 <= pos <= d.len(),
        0 <= j <= 7,
    ensures
        parse_lists(d, pos, id, j) matches Ok((ls, p)) ==> ls.len() == 7 - j && pos <= p <= d.len()
            && d.subrange(pos, p) == lists_bytes(ls) && lists_valid(ls),
    decreases 7 - j,
{
    if j >= 7 {
        lemma_flat_map_empty(Seq::<Seq<CcinfCell>>::empty(), |cs: Seq<CcinfCell>| list_bytes(cs));
        assert(d.subrange(pos, pos) =~= Seq::<u8>::empty());
    } else {
        lemma_parse_list_encode(d, pos, id, j);
        match parse_list(d, pos, id, j) {
            Ok((cs, q)) => {
                lemma_parse_lists_encode(d, q, id, j + 1);
                match parse_lists(d, q, id, j + 1) {
                    Ok((rest, p)) => {
                        let ls = seq![cs] + rest;
                        lemma_encode_step(d, pos, q, p, cs, rest, |cs: Seq<CcinfCell>| list_bytes(cs));
                        assert forall|m: int| 0 <= m < ls.len() implies (#[trigger] ls[m]).len()
                            <= 255 && unsorted_cell_from(ls[m], 1) is None by {
                            if m > 0 {
                                assert(ls[m] == rest[m - 1]);
                            }
                        }
                    },
                    Err(_) => {},
                }
            },
            Err(_) => {},
        }
    }
}

/// Lists that pass the checks give no write problem.
proof fn lemma_lists_valid_no_problem(e: CcinfEntryView, j: int)
    requires
        0 <= j,
        e.cell_lists.len() == 7,
        lists_valid(e.cell_lists),
    ensures
        lists_write_problem(e, j) is None,
    decreases 7 - j,
{
    if j < 7 {
        assert(e.cell_lists[j].len() <= 255);
        lemma_lists_valid_no_problem(e, j + 1);
    }
}

/// A parsed entry encodes back to its bytes and passes the writer's checks.
proof fn lemma_parse_entry_encode(d: Seq<u8>, pos: int)
    requires
        0 <= pos <= d.len(),
    ensures
        parse_entry(d, pos) matches Ok((e, p)) ==> pos <= p <= d.len() && d.subrange(pos, p)
            == entry_bytes(e) && e.cell_lists.len() == 7 && lists_valid(e.cell_lists),
{
    if pos + 16 <= d.len() {
        lemma_parse_lists_encode(d, pos + 16, i32_at(d, pos), 0);
        match parse_entry(d, pos) {
            Ok((e, p)) => {
                crate::bytes::lemma_i32_bytes_round_trip(d.subrange(pos, pos + 4));
                crate::bytes::lemma_i32_bytes_round_trip(d.subrange(pos + 4, pos + 8));
                crate::bytes::lemma_i32_bytes_round_trip(d.subrange(pos + 8, pos + 12));
                crate::bytes::lemma_i32_bytes_round_trip(d.subrange(pos + 12, pos + 16));
                assert(d.subrange(pos + 4, pos + 8) =~= d.subrange(pos + 4, pos + 4 + 4));
                assert(d.subrange(pos + 8, pos + 12) =~= d.subrange(pos + 8, pos + 8 + 4));
                assert(d.subrange(pos + 12, pos + 16) =~= d.subrange(pos + 12, pos + 12 + 4));
                assert(d.subrange(pos, p) =~= d.subrange(pos, pos + 4) + d.subrange(pos + 4, pos + 8)
                    + d.subrange(pos + 8, pos + 12) + d.subrange(pos + 12, pos + 16) + d.subrange(
                    pos + 16,
                    p,
                ));
            },
            Err(_) => {},
        }
    }
}

/// Whether every entry of `es` has seven lists that pass the checks.
pub open spec fn entries_valid(es: Seq<CcinfEntryView>) -> bool {
    forall|m: int|
        0 <= m < es.len() ==> (#[trigger] es[m]).cell_lists.len() == 7 && lists_valid(
            es[m].cell_lists,
        )
}

/// Entries that pass the checks give no write problem.
proof fn lemma_entries_valid_no_problem(es: Seq<CcinfEntryView>, i: int)
    requires
        0 <= i,
        entries_valid(es),
    ensures
        entries_write_problem(es, i) is None,
    decreases es.len() - i,
{
    if i < es.len() {
        assert(es[i].cell_lists.len() == 7);
        lemma_lists_valid_no_problem(es[i], 0);
        lemma_entries_valid_no_problem(es, i + 1);
    }
}

/// Parsed entries encode back to their bytes and pass the writer's checks.
proof fn lemma_parse_entries_encode(d: Seq<u8>, pos: int, i: int, n: int)
    requires
        0 <= pos <= d.len(),
        i <= n,
    ensures
        parse_entries(d, pos, i, n) matches Ok((es, p)) ==> es.len() == n - i && pos <= p
            <= d.len() && d.subrange(pos, p) == entries_bytes(es) && entries_valid(es),
    decreases n - i,
{
    if i >= n {
        lemma_flat_map_empty(Seq::<CcinfEntryView>::empty(), |e: CcinfEntryView| entry_bytes(e));
        assert(d.subrange(pos, pos) =~= Seq::<u8>::empty());
    } else {
        lemma_parse_entry_encode(d, pos);
        match parse_entry(d, pos) {
            Ok((e, q)) => {
                lemma_parse_entries_encode(d, q, i + 1, n);
                match parse_entries(d, q, i + 1, n) {
                    Ok((rest, p)) => {
                        let es = seq![e] + rest;
                        lemma_encode_step(d, pos, q, p, e, rest, |e: CcinfEntryView| entry_bytes(e));
                        assert forall|m: int| 0 <= m < es.len() implies (#[trigger] es[m]).cell_lists.len()
                            == 7 && lists_valid(es[m].cell_lists) by {
                            if m > 0 {
                                assert(es[m] == rest[m - 1]);
                            }
                        }
                    },
                    Err(_) => {},
                }
            },
            Err(_) => {},
        }
    }
}

/// Writing the entries of a file that parses gives back the file's bytes:
/// parsing loses nothing.
pub proof fn lemma_parse_then_write(d: Seq<u8>)
    requires
        parse_ccinf(d) is Ok,
    ensures
        write_problem(parse_ccinf(d)->Ok_0) is None,
        ccinf_file(parse_ccinf(d)->Ok_0) == d,
{
    let count = i32_at(d, 25);
    lemma_parse_entries_encode(d, 29, 0, count as int);
    let es = parse_ccinf(d)->Ok_0;
    lemma_entries_valid_no_problem(es, 0);
    let body = d.subrange(25, d.len() as int);
    crate::bytes::lemma_i32_bytes_round_trip(d.subrange(25, 29));
    crate::bytes::lemma_u32_bytes_round_trip(d.subrange(16, 20));
    crate::bytes::lemma_u32_bytes_round_trip(d.subrange(20, 24));
    assert(body =~= d.subrange(25, 29) + d.subrange(29, d.len() as int));
    assert(body == body_bytes(es));
    assert(d =~= d.subrange(0, 16) + d.subrange(16, 20) + d.subrange(20, 24) + seq![d[24]] + body);
}

/// Bytes that hold the images of a non-empty sequence hold the image of its
/// first item, then the images of the rest.
proof fn lemma_decode_step<T>(d: Seq<u8>, pos: int, xs: Seq<T>, f: spec_fn(T) -> Seq<u8>)
    requires
        0 <= pos,
        xs.len() > 0,
        pos + xs.flat_map(f).len() <= d.len(),
        d.subrange(pos, pos + xs.flat_map(f).len()) == xs.flat_map(f),
    ensures
        xs.flat_map(f).len() == f(xs[0]).len() + xs.drop_first().flat_map(f).len(),
        d.subrange(pos, pos + f(xs[0]).len()) == f(xs[0]),
        d.subrange(pos + f(xs[0]).len(), pos + xs.flat_map(f).len()) == xs.drop_first().flat_map(
            f,
        ),
        seq![xs[0]] + xs.drop_first() == xs,
{
    lemma_flat_map_first(xs, f);
    let a = f(xs[0]);
    let whole = d.subrange(pos, pos + xs.flat_map(f).len());
    assert(d.subrange(pos, pos + a.len()) =~= whole.subrange(0, a.len() as int));
    assert(d.subrange(pos + a.len(), pos + xs.flat_map(f).len()) =~= whole.subrange(
        a.len() as int,
        whole.len() as int,
    ));
    assert(seq![xs[0]] + xs.drop_first() =~= xs);
}

/// Encoded cells parse back to the cells.
proof fn lemma_cells_decode(d: Seq<u8>, pos: int, cs: Seq<CcinfCell>, k: int, n: int)
    requires
        0 <= pos,
        k <= n,
        cs.len() == n - k,
        pos + cells_bytes(cs).len() <= d.len(),
        d.subrange(pos, pos + cells_bytes(cs).len()) == cells_bytes(cs),
    ensures
        parse_cells(d, pos, k, n) == Ok::<(Seq<CcinfCell>, int), CcinfProblem>(
            (cs, pos + cells_bytes(cs).len()),
        ),
    decreases n - k,
{
    if k >= n {
        lemma_flat_map_empty(cs, |c: CcinfCell| cell_bytes(c));
        assert(cs =~= Seq::<CcinfCell>::empty());
    } else {
        let f = |c: CcinfCell| cell_bytes(c);
        crate::bytes::lemma_u16_round_trip(cs[0].selector);
        crate::bytes::lemma_i32_round_trip(cs[0].texture_resource_key);
        lemma_decode_step(d, pos, cs, f);
        lemma_cell_bytes_decode(d, pos, cs[0]);
        lemma_cells_decode(d, pos + 6, cs.drop_first(), k + 1, n);
    }
}

/// An encoded list that passes the checks parses back to the list.
proof fn lemma_list_decode(d: Seq<u8>, pos: int, cs: Seq<CcinfCell>, id: i32, j: int)
    requires
        0 <= pos,
        cs.len() <= 255,
        unsorted_cell_from(cs, 1) is None,
        pos + list_bytes(cs).len() <= d.len(),
        d.subrange(pos, pos + list_bytes(cs).len()) == list_bytes(cs),
    ensures
        parse_list(d, pos, id, j) == Ok::<(Seq<CcinfCell>, int), CcinfProblem>(
            (cs, pos + list_bytes(cs).len()),
        ),
{
    let whole = d.subrange(pos, pos + list_bytes(cs).len());
    assert(d[pos] == whole[0]);
    assert(d.subrange(pos + 1, pos + 1 + cells_bytes(cs).len()) =~= whole.subrange(
        1,
        whole.len() as int,
    ));
    assert(whole.subrange(1, whole.len() as int) =~= cells_bytes(cs));
    lemma_cells_decode(d, pos + 1, cs, 0, cs.len() as int);
}

/// Every list of `ls` from `j` on passes the checks when writing reports nothing.
proof fn lemma_no_problem_lists_valid(e: CcinfEntryView, j: int)
    requires
        0 <= j <= 7,
        e.cell_lists.len() == 7,
        lists_write_problem(e, j) is None,
    ensures
        forall|m: int|
            j <= m < 7 ==> (#[trigger] e.cell_lists[m]).len() <= 255 && unsorted_cell_from(
                e.cell_lists[m],
                1,
            ) is None,
    decreases 7 - j,
{
    if j < 7 {
        lemma_no_problem_lists_valid(e, j + 1);
    }
}

/// Encoded lists that pass the checks parse back to the lists.
proof fn lemma_lists_decode(d: Seq<u8>, pos: int, ls: Seq<Seq<CcinfCell>>, id: i32, j: int)
    requires
        0 <= pos,
        0 <= j <= 7,
        ls.len() == 7 - j,
        lists_valid(ls),
        pos + lists_bytes(ls).len() <= d.len(),
        d.subrange(pos, pos + lists_bytes(ls).len()) == lists_bytes(ls),
    ensures
        parse_lists(d, pos, id, j) == Ok::<(Seq<Seq<CcinfCell>>, int), CcinfProblem>(
            (ls, pos + lists_bytes(ls).len()),
        ),
    decreases 7 - j,
{
    let f = |cs: Seq<CcinfCell>| list_bytes(cs);
    if j >= 7 {
        lemma_flat_map_empty(ls, f);
        assert(ls =~= Seq::<Seq<CcinfCell>>::empty());
    } else {
        lemma_decode_step(d, pos, ls, f);
        assert(ls[0].len() <= 255);
        lemma_list_decode(d, pos, ls[0], id, j);
        let rest = ls.drop_first();
        assert forall|m: int| 0 <= m < rest.len() implies (#[trigger] rest[m]).len() <= 255
            && unsorted_cell_from(rest[m], 1) is None by {
            assert(rest[m] == ls[m + 1]);
        }
        lemma_lists_decode(d, pos + list_bytes(ls[0]).len(), rest, id, j + 1);
    }
}

/// An encoded entry whose lists pass the checks parses back to the entry.
proof fn lemma_entry_decode(d: Seq<u8>, pos: int, e: CcinfEntryView)
    requires
        0 <= pos,
        e.cell_lists.len() == 7,
        lists_valid(e.cell_lists),
        pos + entry_bytes(e).len() <= d.len(),
        d.subrange(pos, pos + entry_bytes(e).len()) == entry_bytes(e),
    ensures
        parse_entry(d, pos) == Ok::<(CcinfEntryView, int), CcinfProblem>(
            (e, pos + entry_bytes(e).len()),
        ),
{
    crate::bytes::lemma_i32_round_trip(e.entry_id);
    crate::bytes::lemma_i32_round_trip(e.base_resource_key);
    crate::bytes::lemma_i32_round_trip(e.remap_table_file_id);
    crate::bytes::lemma_i32_round_trip(e.animation_file_id);
    let whole = d.subrange(pos, pos + entry_bytes(e).len());
    assert(d.subrange(pos, pos + 4) =~= whole.subrange(0, 4));
    assert(d.subrange(pos + 4, pos + 8) =~= whole.subrange(4, 8));
    assert(d.subrange(pos + 8, pos + 12) =~= whole.subrange(8, 12));
    assert(d.subrange(pos + 12, pos + 16) =~= whole.subrange(12, 16));
    assert(whole.subrange(0, 4) =~= i32_le_bytes(e.entry_id));
    assert(whole.subrange(4, 8) =~= i32_le_bytes(e.base_resource_key));
    assert(whole.subrange(8, 12) =~= i32_le_bytes(e.remap_table_file_id));
    assert(whole.subrange(12, 16) =~= i32_le_bytes(e.animation_file_id));
    assert(d.subrange(pos + 16, pos + entry_bytes(e).len()) =~= whole.subrange(
        16,
        whole.len() as int,
    ));
    assert(whole.subrange(16, whole.len() as int) =~= lists_bytes(e.cell_lists));
    lemma_lists_decode(d, pos + 16, e.cell_lists, e.entry_id, 0);
}

/// Whether every entry of `es` has seven cell lists, as every entry value does.
pub open spec fn entries_shaped(es: Seq<CcinfEntryView>) -> bool {
    forall|m: int| 0 <= m < es.len() ==> (#[trigger] es[m]).cell_lists.len() == 7
}

/// Encoded entries that pass the checks parse back to the entries.
proof fn lemma_entries_decode(d: Seq<u8>, pos: int, es: Seq<CcinfEntryView>, i: int, n: int)
    requires
        0 <= pos,
        i <= n,
        es.len() == n - i,
        entries_valid(es),
        pos + entries_bytes(es).len() <= d.len(),
        d.subrange(pos, pos + entries_bytes(es).len()) == entries_bytes(es),
    ensures
        parse_entries(d, pos, i, n) == Ok::<(Seq<CcinfEntryView>, int), CcinfProblem>(
            (es, pos + entries_bytes(es).len()),
        ),
    decreases n - i,
{
    let f = |e: CcinfEntryView| entry_bytes(e);
    if i >= n {
        lemma_flat_map_empty(es, f);
        assert(es =~= Seq::<CcinfEntryView>::empty());
    } else {
        lemma_decode_step(d, pos, es, f);
        assert(es[0].cell_lists.len() == 7);
        lemma_entry_decode(d, pos, es[0]);
        let rest = es.drop_first();
        assert forall|m: int| 0 <= m < rest.len() implies (#[trigger] rest[m]).cell_lists.len()
            == 7 && lists_valid(rest[m].cell_lists) by {
            assert(rest[m] == es[m + 1]);
        }
        lemma_entries_decode(d, pos + entry_bytes(es[0]).len(), rest, i + 1, n);
    }
}

/// Entries with no write problem pass the checks.
proof fn lemma_no_problem_entries_valid(es: Seq<CcinfEntryView>, i: int)
    requires
        0 <= i,
        entries_shaped(es),
        entries_write_problem(es, i) is None,
    ensures
        forall|m: int|
            i <= m < es.len() ==> (#[trigger] es[m]).cell_lists.len() == 7 && lists_valid(
                es[m].cell_lists,
            ),
    decreases es.len() - i,
{
    if i < es.len() {
        lemma_no_problem_entries_valid(es, i + 1);
        assert(es[i].cell_lists.len() == 7);
        lemma_no_problem_lists_valid(es[i], 0);
    }
}

/// Every list encodes to at least its count byte.
proof fn lemma_lists_bytes_len(ls: Seq<Seq<CcinfCell>>)
    ensures
        lists_bytes(ls).len() >= ls.len(),
    decreases ls.len(),
{
    let f = |cs: Seq<CcinfCell>| list_bytes(cs);
    if ls.len() == 0 {
        lemma_flat_map_empty(ls, f);
    } else {
        lemma_flat_map_first(ls, f);
        lemma_lists_bytes_len(ls.drop_first());
    }
}

/// Every shaped entry encodes to at least 23 bytes.
proof fn lemma_entries_bytes_len(es: Seq<CcinfEntryView>)
    requires
        entries_shaped(es),
    ensures
        entries_bytes(es).len() >= 23 * es.len(),
    decreases es.len(),
{
    let f = |e: CcinfEntryView| entry_bytes(e);
    if es.len() == 0 {
        lemma_flat_map_empty(es, f);
    } else {
        lemma_flat_map_first(es, f);
        let rest = es.drop_first();
        assert forall|m: int| 0 <= m < rest.len() implies (#[trigger] rest[m]).cell_lists.len()
            == 7 by {
            assert(rest[m] == es[m + 1]);
        }
        lemma_entries_bytes_len(rest);
        assert(es[0].cell_lists.len() == 7);
        lemma_lists_bytes_len(es[0].cell_lists);
        crate::bytes::lemma_i32_round_trip(es[0].entry_id);
        crate::bytes::lemma_i32_round_trip(es[0].base_resource_key);
        crate::bytes::lemma_i32_round_trip(es[0].remap_table_file_id);
        crate::bytes::lemma_i32_round_trip(es[0].animation_file_id);
    }
}

/// Parsing the file written for entries that pass the writer's checks gives
/// the entries back.
pub proof fn lemma_write_then_parse(es: Seq<CcinfEntryView>)
    requires
        entries_shaped(es),
        write_problem(es) is None,
        ccinf_file(es).len() <= usize::MAX,
    ensures
        parse_ccinf(ccinf_file(es)) == Ok::<Seq<CcinfEntryView>, CcinfProblem>(es),
{
    let d = ccinf_file(es);
    let body = body_bytes(es);
    let size = body.len() as u32;
    crate::bytes::lemma_u32_round_trip(size);
    crate::bytes::lemma_i32_round_trip(es.len() as i32);
    lemma_no_problem_entries_valid(es, 0);
    lemma_entries_bytes_len(es);
    assert(d.subrange(0, 16) =~= ccinf_header());
    assert(d.subrange(16, 20) =~= u32_le_bytes(size));
    assert(d.subrange(20, 24) =~= u32_le_bytes(size));
    assert(d.subrange(25, 29) =~= i32_le_bytes(es.len() as i32));
    assert(d.subrange(29, 29 + entries_bytes(es).len() as int) =~= entries_bytes(es));
    lemma_entries_decode(d, 29, es, 0, es.len() as int);
}

/// Whether `perm` lists `0..keys.len()` once each in key order, equal keys in index order.
pub open spec fn is_stable_u32_order(keys: Seq<u32>, perm: Seq<int>) -> bool {
    &&& perm.len() == keys.len()
    &&& forall|s: int| 0 <= s < perm.len() ==> 0 <= #[trigger] perm[s] < keys.len()
    &&& forall|s: int, t: int| 0 <= s < t < perm.len() ==> #[trigger] perm[s] != #[trigger] perm[t]
    &&& forall|s: int, t: int|
        0 <= s < t < perm.len() ==> keys[#[trigger] perm[s]] <= keys[#[trigger] perm[t]]
    &&& forall|s: int, t: int|
        0 <= s < t < perm.len() && keys[perm[s]] == keys[perm[t]] ==> #[trigger] perm[s] < #[trigger] perm[t]
}

/// The positions of `keys` in key order, equal keys keeping their order.
fn stable_u32_order(keys: &[u32]) -> (r: Vec<usize>)
    ensures
        is_stable_u32_order(keys@, Seq::new(r@.len(), |s: int| r@[s] as int)),
{
    let mut out: Vec<usize> = Vec::new();
    let n = keys.len();
    let mut i: usize = 0;
    while i < n
        invariant
            i <= n,
            n == keys@.len(),
            out@.len() == i,
            forall|s: int| 0 <= s < out@.len() ==> #[trigger] out@[s] < i,
            forall|s: int, t: int| 0 <= s < t < out@.len() ==> #[trigger] out@[s] != #[trigger] out@[t],
            forall|s: int, t: int|
                0 <= s < t < out@.len() ==> keys@[#[trigger] out@[s] as int] <= keys@[#[trigger] out@[t] as int],
            forall|s: int, t: int|
                0 <= s < t < out@.len() && keys@[out@[s] as int] == keys@[out@[t] as int] ==> #[trigger] out@[s] < #[trigger] out@[t],
        decreases n - i,
    {
        let mut pos: usize = out.len();
        while pos > 0 && keys[i] < keys[out[pos - 1]]
            invariant
                pos <= out@.len(),
                i < n,
                n == keys@.len(),
                forall|s: int| 0 <= s < out@.len() ==> #[trigger] out@[s] < i,
                forall|s: int| pos <= s < out@.len() ==> keys@[i as int] < keys@[#[trigger] out@[s] as int],
            decreases pos,
        {
            pos = pos - 1;
        }
        let ghost before = out@;
        out.insert(pos, i);
        proof {
            assert forall|s: int, t: int| 0 <= s < t < out@.len() implies keys@[#[trigger] out@[s] as int]
                <= keys@[#[trigger] out@[t] as int] by {
                if s < pos && t < pos {
                    assert(out@[s] == before[s] && out@[t] == before[t]);
                } else if s < pos && t == pos {
                    assert(out@[s] == before[s]);
                    if s < pos - 1 {
                        assert(keys@[before[s] as int] <= keys@[before[pos - 1] as int]);
                    }
                } else if s < pos && t > pos {
                    assert(out@[s] == before[s] && out@[t] == before[t - 1]);
                } else if s == pos {
                    assert(out@[t] == before[t - 1]);
                } else {
                    assert(out@[s] == before[s - 1] && out@[t] == before[t - 1]);
                }
            }
            assert forall|s: int, t: int|
                0 <= s < t < out@.len() && keys@[out@[s] as int] == keys@[out@[t] as int] implies #[trigger] out@[s]
                < #[trigger] out@[t] by {
                if s < pos && t < pos {
                    assert(out@[s] == before[s] && out@[t] == before[t]);
                } else if s < pos && t == pos {
                    assert(out@[s] == before[s]);
                } else if s < pos && t > pos {
                    assert(out@[s] == before[s] && out@[t] == before[t - 1]);
                } else if s == pos {
                    assert(out@[t] == before[t - 1]);
                } else {
                    assert(out@[s] == before[s - 1] && out@[t] == before[t - 1]);
                }
            }
            assert forall|s: int, t: int| 0 <= s < t < out@.len() implies #[trigger] out@[s] != #[trigger] out@[t] by {
                if s < pos && t < pos {
                    assert(out@[s] == before[s] && out@[t] == before[t]);
                } else if s < pos && t == pos {
                    assert(out@[s] == before[s]);
                } else if s < pos && t > pos {
                    assert(out@[s] == before[s] && out@[t] == before[t - 1]);
                } else if s == pos {
                    assert(out@[t] == before[t - 1]);
                } else {
                    assert(out@[s] == before[s - 1] && out@[t] == before[t - 1]);
                }
            }
            assert forall|s: int| 0 <= s < out@.len() implies #[trigger] out@[s] < i + 1 by {
                if s < pos {
                    assert(out@[s] == before[s]);
                } else if s > pos {
                    assert(out@[s] == before[s - 1]);
                }
            }
        }
        i = i + 1;
    }
    proof {
        let p = Seq::new(out@.len(), |s: int| out@[s] as int);
        assert forall|s: int, t: int| 0 <= s < t < p.len() implies #[trigger] p[s] != #[trigger] p[t] by {
            assert(out@[s] != out@[t]);
        }
        assert forall|s: int, t: int| 0 <= s < t < p.len() implies keys@[#[trigger] p[s]] <= keys@[#[trigger] p[t]] by {
            assert(keys@[out@[s] as int] <= keys@[out@[t] as int]);
        }
        assert forall|s: int, t: int| 0 <= s < t < p.len() && keys@[p[s]] == keys@[p[t]] implies #[trigger] p[s] < #[trigger] p[t] by {
            assert(out@[s] < out@[t]);
        }
    }
    out
}

/// The selectors of a cell list.
pub open spec fn cell_selectors(cs: Seq<CcinfCell>) -> Seq<u32> {
    Seq::new(cs.len(), |i: int| cs[i].selector as u32)
}

/// The unsigned ids of a list of entries.
pub open spec fn entry_unsigned_ids(es: Seq<CcinfEntryView>) -> Seq<u32> {
    Seq::new(es.len(), |i: int| unsigned_id(es[i].entry_id))
}

/// Whether `dst` is `src` put in the order `perm`.
pub open spec fn reordered<T>(src: Seq<T>, perm: Seq<int>, dst: Seq<T>) -> bool {
    &&& dst.len() == perm.len()
    &&& forall|s: int| 0 <= s < dst.len() ==> #[trigger] dst[s] == src[perm[s]]
}

/// Whether `dst` is the cell list `src` sorted by selector, equal selectors keeping
/// their order.
pub open spec fn sorted_cells_of(src: Seq<CcinfCell>, dst: Seq<CcinfCell>) -> bool {
    exists|perm: Seq<int>|
        #![trigger is_stable_u32_order(cell_selectors(src), perm)]
        is_stable_u32_order(cell_selectors(src), perm) && reordered(src, perm, dst)
}

/// A cell list sorted by selector, equal selectors keeping their order.
fn sort_cells(cells: &Vec<CcinfCell>) -> (r: Vec<CcinfCell>)
    ensures
        sorted_cells_of(cells@, r@),
{
    let mut keys: Vec<u32> = Vec::new();
    let mut i: usize = 0;
    while i < cells.len()
        invariant
            i <= cells@.len(),
            keys@ == cell_selectors(cells@.take(i as int)),
        decreases cells@.len() - i,
    {
        keys.push(cells[i].selector as u32);
        i = i + 1;
        assert(keys@ =~= cell_selectors(cells@.take(i as int)));
    }
    assert(cells@.take(i as int) =~= cells@);
    let order = stable_u32_order(keys.as_slice());
    let ghost perm = Seq::new(order@.len(), |s: int| order@[s] as int);
    let mut out: Vec<CcinfCell> = Vec::new();
    let mut s: usize = 0;
    while s < order.len()
        invariant
            s <= order@.len(),
            order@.len() == cells@.len(),
            perm == Seq::new(order@.len(), |x: int| order@[x] as int),
            is_stable_u32_order(cell_selectors(cells@), perm),
            out@.len() == s,
            forall|x: int| 0 <= x < s ==> #[trigger] out@[x] == cells@[perm[x]],
        decreases order@.len() - s,
    {
        let k = order[s];
        assert(perm[s as int] == k as int);
        out.push(cells[k]);
        s = s + 1;
    }
    assert(reordered(cells@, perm, out@));
    out
}

/// Puts an index document's entries in the order a file stores them: entries by id read
/// as unsigned, each cell list by selector, equal keys keeping their order.
pub fn canonicalize_ccinf_entries(entries: Vec<CcinfEntry>) -> (r: Vec<CcinfEntry>)
    ensures
        exists|perm: Seq<int>|
            #![trigger is_stable_u32_order(entry_unsigned_ids(entries_view(entries@)), perm)]
            is_stable_u32_order(entry_unsigned_ids(entries_view(entries@)), perm) && r@.len() == perm.len()
                && forall|s: int|
                0 <= s < r@.len() ==> {
                    let src = entries@[perm[s]]@;
                    let dst = (#[trigger] r@[s])@;
                    &&& dst.entry_id == src.entry_id
                    &&& dst.base_resource_key == src.base_resource_key
                    &&& dst.remap_table_file_id == src.remap_table_file_id
                    &&& dst.animation_file_id == src.animation_file_id
                    &&& forall|j: int| 0 <= j < 7 ==> sorted_cells_of(src.cell_lists[j], #[trigger] dst.cell_lists[j])
                },
        entry_order_problem(entries_view(r@)) is None,
        forall|s: int, j: int|
            0 <= s < r@.len() && 0 <= j < 7 ==> cell_order_problem(
                r@[s].entry_id,
                j,
                #[trigger] r@[s]@.cell_lists[j],
            ) is None,
{
    let ghost ev = entries_view(entries@);
    let mut keys: Vec<u32> = Vec::new();
    let mut i: usize = 0;
    while i < entries.len()
        invariant
            i <= entries@.len(),
            ev == entries_view(entries@),
            keys@ == entry_unsigned_ids(ev.take(i as int)),
        decreases entries@.len() - i,
    {
        keys.push(unsigned_id_exec(entries[i].entry_id));
        i = i + 1;
        assert(keys@ =~= entry_unsigned_ids(ev.take(i as int)));
    }
    assert(ev.take(i as int) =~= ev);
    let order = stable_u32_order(keys.as_slice());
    let ghost perm = Seq::new(order@.len(), |s: int| order@[s] as int);
    let mut out: Vec<CcinfEntry> = Vec::new();
    let mut s: usize = 0;
    while s < order.len()
        invariant
            s <= order@.len(),
            order@.len() == entries@.len(),
            ev == entries_view(entries@),
            perm == Seq::new(order@.len(), |x: int| order@[x] as int),
            is_stable_u32_order(entry_unsigned_ids(ev), perm),
            out@.len() == s,
            forall|x: int|
                0 <= x < s ==> {
                    let src = entries@[perm[x]]@;
                    let dst = (#[trigger] out@[x])@;
                    &&& dst.entry_id == src.entry_id
                    &&& dst.base_resource_key == src.base_resource_key
                    &&& dst.remap_table_file_id == src.remap_table_file_id
                    &&& dst.animation_file_id == src.animation_file_id
                    &&& forall|j: int| 0 <= j < 7 ==> sorted_cells_of(src.cell_lists[j], #[trigger] dst.cell_lists[j])
                },
        decreases order@.len() - s,
    {
        let k = order[s];
        assert(perm[s as int] == k as int);
        let e = &entries[k];
        let lists: [Vec<CcinfCell>; 7] = [
            sort_cells(&e.cell_lists[0]),
            sort_cells(&e.cell_lists[1]),
            sort_cells(&e.cell_lists[2]),
            sort_cells(&e.cell_lists[3]),
            sort_cells(&e.cell_lists[4]),
            sort_cells(&e.cell_lists[5]),
            sort_cells(&e.cell_lists[6]),
        ];
        let entry = CcinfEntry {
            entry_id: e.entry_id,
            base_resource_key: e.base_resource_key,
            remap_table_file_id: e.remap_table_file_id,
            animation_file_id: e.animation_file_id,
            cell_lists: lists,
        };
        proof {
            assert forall|j: int| 0 <= j < 7 implies sorted_cells_of(e@.cell_lists[j], #[trigger] entry@.cell_lists[j]) by {
                assert(e@.cell_lists[j] == e.cell_lists@[j]@);
                assert(entry@.cell_lists[j] == lists@[j]@);
            }
        }
        out.push(entry);
        s = s + 1;
    }
    proof {
        let ov = entries_view(out@);
        assert forall|a: int, b: int| 0 <= a < b < ov.len() implies unsigned_id(ov[a].entry_id) <= unsigned_id(
            ov[b].entry_id,
        ) by {
            assert(entry_unsigned_ids(ev)[perm[a]] <= entry_unsigned_ids(ev)[perm[b]]);
            assert(ov[a] == out@[a]@);
            assert(ov[b] == out@[b]@);
        }
        lemma_ordered_entries_no_problem(ov, 1);
        assert forall|x: int, j: int| 0 <= x < out@.len() && 0 <= j < 7 implies cell_order_problem(
            out@[x].entry_id,
            j,
            #[trigger] out@[x]@.cell_lists[j],
        ) is None by {
            let src = entries@[perm[x]]@;
            lemma_sorted_cells_in_order(src.cell_lists[j], out@[x]@.cell_lists[j], 1);
        }
    }
    out
}

/// Entries whose unsigned ids never decrease have no unsorted pair from `k` on.
proof fn lemma_ordered_entries_no_problem(es: Seq<CcinfEntryView>, k: int)
    requires
        k >= 1,
        forall|a: int, b: int| 0 <= a < b < es.len() ==> unsigned_id(es[a].entry_id) <= unsigned_id(es[b].entry_id),
    ensures
        unsorted_entry_from(es, k) is None,
    decreases es.len() - k,
{
    if k < es.len() {
        lemma_ordered_entries_no_problem(es, k + 1);
    }
}

/// A cell list sorted by selector has no unsorted pair from `k` on.
proof fn lemma_sorted_cells_in_order(src: Seq<CcinfCell>, dst: Seq<CcinfCell>, k: int)
    requires
        k >= 1,
        sorted_cells_of(src, dst),
    ensures
        unsorted_cell_from(dst, k) is None,
    decreases dst.len() - k,
{
    if k < dst.len() {
        let perm = choose|perm: Seq<int>|
            is_stable_u32_order(cell_selectors(src), perm) && reordered(src, perm, dst);
        assert(cell_selectors(src)[perm[k - 1]] <= cell_selectors(src)[perm[k]]);
        assert(dst[k - 1] == src[perm[k - 1]]);
        assert(dst[k] == src[perm[k]]);
        lemma_sorted_cells_in_order(src, dst, k + 1);
    }
}

/// Why a CCINF JSON document is refused before its entries are read.
#[derive(Debug, Clone, Copy, PartialEq, Eq, Structural)]
pub enum CcinfDocumentError {
    /// The document's `format` is not `ccinf`.
    UnsupportedFormat,
    /// The document's `version` is not 1.
    UnsupportedVersion { version: u32 },
}

/// `ccinf`
pub open spec fn ccinf_format_word() -> Seq<char> {
    seq!['c', 'c', 'i', 'n', 'f']
}

/// The version of the CCINF document layout.
pub const CCINF_DOCUMENT_VERSION: u32 = 1;

/// The `format` a CCINF document carries.
pub fn ccinf_document_format() -> (r: String)
    ensures
        r@ == ccinf_format_word(),
{
    crate::textenc::chars_to_string(&['c', 'c', 'i', 'n', 'f'])
}

/// Checks a CCINF document's `format` and `version`.
pub fn validate_document_header(format: &str, version: u32) -> (r: Result<(), CcinfDocumentError>)
    ensures
        format@ != ccinf_format_word() ==> r == Err::<(), CcinfDocumentError>(CcinfDocumentError::UnsupportedFormat),
        format@ == ccinf_format_word() && version != 1 ==> r == Err::<(), CcinfDocumentError>(
            CcinfDocumentError::UnsupportedVersion { version },
        ),
        format@ == ccinf_format_word() && version == 1 ==> r is Ok,
{
    let expected = ccinf_document_format();
    if format.to_owned() != expected {
        return Err(CcinfDocumentError::UnsupportedFormat);
    }
    if version != CCINF_DOCUMENT_VERSION {
        return Err(CcinfDocumentError::UnsupportedVersion { version });
    }
    Ok(())
}

} // verus!
