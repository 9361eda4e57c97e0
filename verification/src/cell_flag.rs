//! Map cell-flag payloads as images: a bijective palette for cell values, the
//! single-bit flags that filter cells, and the pixel colors and legend of a grid.
use vstd::prelude::*;

use crate::chartext::{eq_ignore_ascii_case, str_chars};
use crate::numtext::{parse_decimal, parse_hex, parse_u8_hex, parse_unsigned_dec};

verus! {

/// The RGB332 palette index of a cell value: zero and 255 trade places so that empty
/// cells are white.
pub open spec fn palette_index(v: u8) -> u8 {
    if v == 0 {
        255
    } else if v == 255 {
        0
    } else {
        v
    }
}

/// The color of a cell value: its palette index read as RGB332, each channel scaled to
/// the full byte range.
pub open spec fn cell_color(v: u8) -> Seq<u8> {
    let p = palette_index(v);
    seq![
        ((p & 7) as int * 255 / 7) as u8,
        (((p >> 3) & 7) as int * 255 / 7) as u8,
        (((p >> 6) & 3) as int * 255 / 3) as u8,
    ]
}

/// Maps every byte to a distinct RGB color.
pub fn color_for_value(value: u8) -> (r: [u8; 3])
    ensures
        r@ == cell_color(value),
{
    let p: u8 = if value == 0 {
        255
    } else if value == 255 {
        0
    } else {
        value
    };
    let r0 = p & 7;
    let g0 = (p >> 3) & 7;
    let b0 = (p >> 6) & 3;
    assert(r0 < 8 && g0 < 8 && b0 < 4) by (bit_vector)
        requires
            r0 == p & 7,
            g0 == (p >> 3) & 7,
            b0 == (p >> 6) & 3,
    ;
    let red = ((r0 as u16) * 255 / 7) as u8;
    let green = ((g0 as u16) * 255 / 7) as u8;
    let blue = ((b0 as u16) * 255 / 3) as u8;
    let c = [red, green, blue];
    assert(c@ =~= cell_color(value));
    c
}

proof fn lemma_scale_injective(x: int, y: int, top: int)
    requires
        0 <= x <= top,
        0 <= y <= top,
        top == 7 || top == 3,
        x * 255 / top == y * 255 / top,
    ensures
        x == y,
{
    if x < y {
        assert(x * 255 / top < y * 255 / top) by (nonlinear_arith)
            requires
                0 <= x < y <= top,
                top == 7 || top == 3,
        ;
    } else if y < x {
        assert(y * 255 / top < x * 255 / top) by (nonlinear_arith)
            requires
                0 <= y < x <= top,
                top == 7 || top == 3,
        ;
    }
}

/// Distinct cell values get distinct colors.
pub proof fn lemma_cell_colors_distinct(a: u8, b: u8)
    requires
        a != b,
    ensures
        cell_color(a) != cell_color(b),
{
    let pa = palette_index(a);
    let pb = palette_index(b);
    assert(pa != pb);
    if cell_color(a) == cell_color(b) {
        assert(cell_color(a)[0] == cell_color(b)[0]);
        assert(cell_color(a)[1] == cell_color(b)[1]);
        assert(cell_color(a)[2] == cell_color(b)[2]);
        assert((pa & 7) < 8 && (pb & 7) < 8 && ((pa >> 3) & 7) < 8 && ((pb >> 3) & 7) < 8 && ((pa
            >> 6) & 3) < 4 && ((pb >> 6) & 3) < 4) by (bit_vector);
        assert(((pa & 7) as int * 255 / 7) < 256 && ((pb & 7) as int * 255 / 7) < 256);
        lemma_scale_injective((pa & 7) as int, (pb & 7) as int, 7);
        lemma_scale_injective(((pa >> 3) & 7) as int, ((pb >> 3) & 7) as int, 7);
        lemma_scale_injective(((pa >> 6) & 3) as int, ((pb >> 6) & 3) as int, 3);
        assert(pa == pb) by (bit_vector)
            requires
                pa & 7 == pb & 7,
                (pa >> 3) & 7 == (pb >> 3) & 7,
                (pa >> 6) & 3 == (pb >> 6) & 3,
        ;
    }
}

/// A validated single-bit map cell flag.
#[derive(Debug, Clone, Copy, PartialEq, Eq, Structural)]
pub struct CellFlagArg(pub u8);

impl CellFlagArg {
    /// The flag's bit.
    pub fn bits(self) -> (r: u8)
        ensures
            r == self.0,
    {
        self.0
    }
}

/// What is wrong with a cell flag argument.
#[derive(Debug, Clone, Copy, PartialEq, Eq, Structural)]
pub enum CellFlagProblem {
    /// Not a known name, and not a hexadecimal `u8` after `0x`.
    InvalidHexMask,
    /// Not a known name, and not a decimal `u8`.
    InvalidDecimalMask,
    /// The value is not one non-zero bit.
    NotSingleBit,
}

/// A refused cell flag argument.
#[derive(Debug, Clone, PartialEq, Eq)]
pub struct CellFlagError {
    pub problem: CellFlagProblem,
    pub input: String,
}

/// Whether `v` is one non-zero bit.
pub open spec fn is_single_bit(v: u8) -> bool {
    v == 1 || v == 2 || v == 4 || v == 8 || v == 16 || v == 32 || v == 64 || v == 128
}

/// The known flag names, lowercase, with their bits.
pub open spec fn named_flag(input: Seq<char>) -> Option<u8> {
    if eq_ignore_ascii_case(input, walking_word()) {
        Some(1)
    } else if eq_ignore_ascii_case(input, attack_word()) {
        Some(2)
    } else if eq_ignore_ascii_case(input, unknown_word()) {
        Some(4)
    } else if eq_ignore_ascii_case(input, aggro_word()) {
        Some(8)
    } else if eq_ignore_ascii_case(input, pvp_word()) {
        Some(16)
    } else {
        None
    }
}

/// `walking-disabled`
pub open spec fn walking_word() -> Seq<u8> {
    seq![119u8, 97, 108, 107, 105, 110, 103, 45, 100, 105, 115, 97, 98, 108, 101, 100]
}

/// `attack-through-disabled`
pub open spec fn attack_word() -> Seq<u8> {
    seq![97u8, 116, 116, 97, 99, 107, 45, 116, 104, 114, 111, 117, 103, 104, 45, 100, 105, 115, 97, 98, 108, 101, 100]
}

/// `unknown-04`
pub open spec fn unknown_word() -> Seq<u8> {
    seq![117u8, 110, 107, 110, 111, 119, 110, 45, 48, 52]
}

/// `monster-aggro-disabled`
pub open spec fn aggro_word() -> Seq<u8> {
    seq![109u8, 111, 110, 115, 116, 101, 114, 45, 97, 103, 103, 114, 111, 45, 100, 105, 115, 97, 98, 108, 101, 100]
}

/// `pvp-disabled`
pub open spec fn pvp_word() -> Seq<u8> {
    seq![112u8, 118, 112, 45, 100, 105, 115, 97, 98, 108, 101, 100]
}

/// Whether the text starts with `0x` or `0X`.
pub open spec fn has_hex_prefix(s: Seq<u8>) -> bool {
    s.len() >= 2 && s[0] == 48 && (s[1] == 120 || s[1] == 88)
}

/// What a cell flag argument reads as: a known name (ignoring ASCII case), else a
/// hexadecimal `u8` after `0x` or `0X`, else a decimal `u8`; the value must be one bit.
pub open spec fn parse_cell_flag(input: Seq<char>) -> Result<u8, CellFlagProblem> {
    let bytes = vstd::utf8::encode_utf8(input);
    let v = match named_flag(input) {
        Some(v) => Some(v as int),
        None => if has_hex_prefix(bytes) {
            parse_hex(bytes.skip(2), 255)
        } else {
            parse_decimal(bytes, false, 0, 255)
        },
    };
    match v {
        None => Err(
            if has_hex_prefix(bytes) {
                CellFlagProblem::InvalidHexMask
            } else {
                CellFlagProblem::InvalidDecimalMask
            },
        ),
        Some(x) => if is_single_bit(x as u8) {
            Ok(x as u8)
        } else {
            Err(CellFlagProblem::NotSingleBit)
        },
    }
}

/// Whether `s` is `word` ignoring ASCII case.
fn is_word(s: &[char], word: &[u8]) -> (r: bool)
    requires
        forall|i: int| 0 <= i < word@.len() ==> #[trigger] word@[i] < 128 && !(65 <= word@[i] <= 90),
    ensures
        r == eq_ignore_ascii_case(s@, word@),
{
    if s.len() != word.len() {
        return false;
    }
    let mut i: usize = 0;
    while i < s.len()
        invariant
            s@.len() == word@.len(),
            i <= s@.len(),
            forall|k: int| 0 <= k < i ==> crate::chartext::lower_code(#[trigger] s@[k]) == word@[k] as u32,
        decreases s@.len() - i,
    {
        if crate::chartext::lower_char_code(s[i]) != word[i] as u32 {
            return false;
        }
        i = i + 1;
    }
    true
}

impl CellFlagArg {
    /// Parses a cell flag argument: one of the flag names `walking-disabled`,
    /// `attack-through-disabled`, `unknown-04`, `monster-aggro-disabled`, `pvp-disabled`
    /// (ignoring ASCII case), or a hexadecimal (`0x..`) or decimal `u8` that is one bit.
    pub fn parse(input: &str) -> (r: Result<CellFlagArg, CellFlagError>)
        ensures
            match parse_cell_flag(input@) {
                Ok(v) => r == Ok::<CellFlagArg, CellFlagError>(CellFlagArg(v)),
                Err(p) => r matches Err(e) && e.problem == p && e.input@ == input@,
            },
    {
        let s = str_chars(input);
        let bytes = input.as_bytes();
        let named: Option<u8> = if is_word(s.as_slice(), &[119u8, 97, 108, 107, 105, 110, 103, 45, 100, 105, 115, 97, 98, 108, 101, 100]) {
            Some(1)
        } else if is_word(s.as_slice(), &[97u8, 116, 116, 97, 99, 107, 45, 116, 104, 114, 111, 117, 103, 104, 45, 100, 105, 115, 97, 98, 108, 101, 100]) {
            Some(2)
        } else if is_word(s.as_slice(), &[117u8, 110, 107, 110, 111, 119, 110, 45, 48, 52]) {
            Some(4)
        } else if is_word(s.as_slice(), &[109u8, 111, 110, 115, 116, 101, 114, 45, 97, 103, 103, 114, 111, 45, 100, 105, 115, 97, 98, 108, 101, 100]) {
            Some(8)
        } else if is_word(s.as_slice(), &[112u8, 118, 112, 45, 100, 105, 115, 97, 98, 108, 101, 100]) {
            Some(16)
        } else {
            None
        };
        assert(named == named_flag(input@));
        let hex_prefix = bytes.len() >= 2 && bytes[0] == 48 && (bytes[1] == 120 || bytes[1] == 88);
        let value: u8 = match named {
            Some(v) => v,
            None => {
                if hex_prefix {
                    let tail = vstd::slice::slice_subrange(bytes, 2, bytes.len());
                    assert(tail@ =~= bytes@.skip(2));
                    match parse_u8_hex(tail) {
                        Some(v) => v,
                        None => {
                            return Err(CellFlagError { problem: CellFlagProblem::InvalidHexMask, input: input.to_owned() });
                        },
                    }
                } else {
                    match parse_unsigned_dec(bytes, 255) {
                        Some(v) => v as u8,
                        None => {
                            return Err(CellFlagError { problem: CellFlagProblem::InvalidDecimalMask, input: input.to_owned() });
                        },
                    }
                }
            },
        };
        if value == 1 || value == 2 || value == 4 || value == 8 || value == 16 || value == 32 || value == 64 || value == 128 {
            Ok(CellFlagArg(value))
        } else {
            Err(CellFlagError { problem: CellFlagProblem::NotSingleBit, input: input.to_owned() })
        }
    }
}

impl core::str::FromStr for CellFlagArg {
    type Err = CellFlagError;

    fn from_str(input: &str) -> (r: Result<CellFlagArg, CellFlagError>)
        ensures
            match parse_cell_flag(input@) {
                Ok(v) => r == Ok::<CellFlagArg, CellFlagError>(CellFlagArg(v)),
                Err(p) => r matches Err(e) && e.problem == p && e.input@ == input@,
            },
    {
        CellFlagArg::parse(input)
    }
}

/// One legend row: a cell value, its color and how many cells hold it.
#[derive(Debug, Clone, Copy, PartialEq, Eq)]
pub struct LegendEntry {
    pub value: u8,
    pub color: [u8; 3],
    pub count: usize,
}

/// How many cells hold value `v`.
pub open spec fn value_count(cells: Seq<u8>, v: u8) -> nat
    decreases cells.len(),
{
    if cells.len() == 0 {
        0
    } else {
        value_count(cells.drop_last(), v) + if cells.last() == v {
            1nat
        } else {
            0nat
        }
    }
}

/// The pixel of a cell: with a filter, black where the cell has the flag's bit and white
/// elsewhere; without one, the value's color.
pub open spec fn cell_pixel(v: u8, filter: Option<CellFlagArg>) -> Seq<u8> {
    match filter {
        Some(f) => if v & f.0 != 0 {
            seq![0u8, 0, 0]
        } else {
            seq![255u8, 255, 255]
        },
        None => cell_color(v),
    }
}

proof fn lemma_value_count_bound(cells: Seq<u8>, v: u8)
    ensures
        value_count(cells, v) <= cells.len(),
    decreases cells.len(),
{
    if cells.len() > 0 {
        lemma_value_count_bound(cells.drop_last(), v);
    }
}

/// The pixels of a cell grid, cell by cell, and its legend: without a filter, one row per
/// value that occurs, by increasing value, with its color and count; with a filter, none.
pub fn render_cells(cells: &[u8], filter: Option<CellFlagArg>) -> (r: (Vec<[u8; 3]>, Vec<LegendEntry>))
    ensures
        r.0@.len() == cells@.len(),
        forall|i: int| 0 <= i < cells@.len() ==> (#[trigger] r.0@[i])@ == cell_pixel(cells@[i], filter),
        filter is Some ==> r.1@.len() == 0,
        filter is None ==> {
            &&& forall|k: int, l: int| 0 <= k < l < r.1@.len() ==> (#[trigger] r.1@[k]).value < (#[trigger] r.1@[l]).value
            &&& forall|k: int|
                0 <= k < r.1@.len() ==> (#[trigger] r.1@[k]).count == value_count(cells@, r.1@[k].value)
                    && r.1@[k].count > 0 && r.1@[k].color@ == cell_color(r.1@[k].value)
            &&& forall|v: u8| value_count(cells@, v) > 0 ==> exists|k: int| 0 <= k < r.1@.len() && (#[trigger] r.1@[k]).value == v
        },
{
    let mut pixels: Vec<[u8; 3]> = Vec::new();
    let mut counts: Vec<usize> = Vec::new();
    let mut v: usize = 0;
    while v < 256
        invariant
            v <= 256,
            counts@.len() == v,
            forall|x: int| 0 <= x < v ==> #[trigger] counts@[x] == 0,
        decreases 256 - v,
    {
        counts.push(0);
        v = v + 1;
    }
    let mut i: usize = 0;
    while i < cells.len()
        invariant
            i <= cells@.len(),
            counts@.len() == 256,
            pixels@.len() == i,
            forall|k: int| 0 <= k < i ==> (#[trigger] pixels@[k])@ == cell_pixel(cells@[k], filter),
            forall|x: int| 0 <= x < 256 ==> #[trigger] counts@[x] == value_count(cells@.take(i as int), x as u8),
        decreases cells@.len() - i,
    {
        let value = cells[i];
        assert(cells@.take(i + 1).drop_last() =~= cells@.take(i as int));
        let pixel: [u8; 3] = match filter {
            Some(f) => {
                if value & f.0 != 0 {
                    let c = [0u8, 0, 0];
                    assert(c@ =~= seq![0u8, 0, 0]);
                    c
                } else {
                    let c = [255u8, 255, 255];
                    assert(c@ =~= seq![255u8, 255, 255]);
                    c
                }
            },
            None => color_for_value(value),
        };
        pixels.push(pixel);
        proof {
            lemma_value_count_bound(cells@.take(i as int), value);
        }
        let old_count = counts[value as usize];
        counts.set(value as usize, old_count + 1);
        proof {
            assert forall|x: int| 0 <= x < 256 implies #[trigger] counts@[x] == value_count(cells@.take(i + 1), x as u8) by {
                if x == value as int {
                    assert((x as u8) == value);
                } else {
                    assert((x as u8) != value);
                }
            }
        }
        i = i + 1;
    }
    assert(cells@.take(i as int) =~= cells@);
    let mut legend: Vec<LegendEntry> = Vec::new();
    if filter.is_none() {
        let mut x: usize = 0;
        while x < 256
            invariant
                x <= 256,
                counts@.len() == 256,
                forall|y: int| 0 <= y < 256 ==> #[trigger] counts@[y] == value_count(cells@, y as u8),
                forall|k: int| 0 <= k < legend@.len() ==> (#[trigger] legend@[k]).value < x,
                forall|k: int, l: int| 0 <= k < l < legend@.len() ==> (#[trigger] legend@[k]).value < (#[trigger] legend@[l]).value,
                forall|k: int|
                    0 <= k < legend@.len() ==> (#[trigger] legend@[k]).count == value_count(cells@, legend@[k].value)
                        && legend@[k].count > 0 && legend@[k].color@ == cell_color(legend@[k].value),
                forall|w: u8| w < x && value_count(cells@, w) > 0 ==> exists|k: int| 0 <= k < legend@.len() && (#[trigger] legend@[k]).value == w,
            decreases 256 - x,
        {
            let count = counts[x];
            if count > 0 {
                let value = x as u8;
                assert(counts@[x as int] == value_count(cells@, value));
                let ghost old_legend = legend@;
                let entry = LegendEntry { value, color: color_for_value(value), count };
                legend.push(entry);
                proof {
                    assert(legend@ == old_legend.push(entry));
                    assert forall|w: u8| w < x + 1 && value_count(cells@, w) > 0 implies exists|k: int| 0 <= k < legend@.len() && (#[trigger] legend@[k]).value == w by {
                        if w == x {
                            assert(legend@[old_legend.len() as int].value == w);
                        } else {
                            assert(w < x);
                            let k = choose|k: int| 0 <= k < old_legend.len() && (#[trigger] old_legend[k]).value == w;
                            assert(legend@[k] == old_legend[k]);
                        }
                    }
                }
            } else {
                proof {
                    assert forall|w: u8| w < x + 1 && value_count(cells@, w) > 0 implies exists|k: int| 0 <= k < legend@.len() && (#[trigger] legend@[k]).value == w by {
                        if w == x {
                            assert(counts@[x as int] == value_count(cells@, w));
                        }
                    }
                }
            }
            x = x + 1;
        }
    }
    (pixels, legend)
}

} // verus!
