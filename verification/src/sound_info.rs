//! A lossless text manifest of the sound table: every row's fields, its filename
//! as readable ASCII with `%HH` escapes for other bytes, and every stored byte
//! in hexadecimal.
use vstd::prelude::*;

use crate::audio::{
    sound_entries_view, SoundFilename, SoundFilenameView, SoundInfoEntry, SoundInfoEntryView,
    SoundInfoTable, SoundKey, filename_fits,
};
use crate::common::AssetId;
use crate::hextext::{hex_decode, hex_encode, hex_lower, hex_pairs, lemma_hex_round_trip};
use crate::numtext::{hex_digit_byte, parse_hex, parse_u8_hex};
use crate::textenc::{all_ascii, ascii_chars, lossy_string};
use vstd::string::StringExecFns;

verus! {

/// Whether a filename byte stays literal: printable ASCII other than `%`.
pub open spec fn is_literal_byte(b: u8) -> bool {
    0x20 <= b <= 0x7e && b != 37
}

/// The escaped form of one filename byte: itself, or `%` and two uppercase hex digits.
pub open spec fn escape_filename_byte(b: u8) -> Seq<u8> {
    if is_literal_byte(b) {
        seq![b]
    } else {
        seq![37u8, hex_digit_byte((b / 16) as nat, true), hex_digit_byte((b % 16) as nat, true)]
    }
}

/// The escaped form of filename bytes.
pub open spec fn escape_filename_bytes(bs: Seq<u8>) -> Seq<u8>
    decreases bs.len(),
{
    if bs.len() == 0 {
        Seq::empty()
    } else {
        escape_filename_bytes(bs.drop_last()) + escape_filename_byte(bs.last())
    }
}

proof fn lemma_escape_filename_ascii(bs: Seq<u8>)
    ensures
        all_ascii(escape_filename_bytes(bs)),
    decreases bs.len(),
{
    if bs.len() > 0 {
        lemma_escape_filename_ascii(bs.drop_last());
        let a = escape_filename_bytes(bs.drop_last());
        let b = escape_filename_byte(bs.last());
        assert forall|i: int| 0 <= i < (a + b).len() implies #[trigger] (a + b)[i] < 128 by {
            if i >= a.len() {
                assert((a + b)[i] == b[i - a.len()]);
            } else {
                assert((a + b)[i] == a[i]);
            }
        }
    }
}

fn hex_upper_digit(n: u8) -> (r: u8)
    requires
        n < 16,
    ensures
        r == hex_digit_byte(n as nat, true),
{
    if n < 10 {
        48 + n
    } else {
        55 + n
    }
}

/// Escapes legacy filename bytes into readable ASCII: printable ASCII except `%` stays
/// literal; every other byte becomes `%HH`.
pub fn escape_filename(bytes: &[u8]) -> (r: String)
    ensures
        r@ == ascii_chars(escape_filename_bytes(bytes@)),
{
    let mut out: Vec<u8> = Vec::new();
    let mut i: usize = 0;
    while i < bytes.len()
        invariant
            i <= bytes@.len(),
            out@ == escape_filename_bytes(bytes@.take(i as int)),
        decreases bytes@.len() - i,
    {
        let b = bytes[i];
        assert(bytes@.take(i + 1).drop_last() =~= bytes@.take(i as int));
        if 0x20 <= b && b <= 0x7e && b != 37 {
            out.push(b);
        } else {
            out.push(37u8);
            out.push(hex_upper_digit(b / 16));
            out.push(hex_upper_digit(b % 16));
        }
        assert(out@ =~= escape_filename_bytes(bytes@.take(i + 1)));
        i = i + 1;
    }
    assert(bytes@.take(i as int) =~= bytes@);
    proof {
        lemma_escape_filename_ascii(bytes@);
    }
    lossy_string(out.as_slice())
}

/// What is wrong with an escaped filename.
#[derive(Debug, Clone, Copy, PartialEq, Eq, Structural)]
pub enum FilenameEscapeError {
    /// The text is not ASCII.
    NotAscii,
    /// A `%` at this byte is not followed by two more bytes.
    IncompleteEscape { index: usize },
    /// The two bytes after a `%` at this byte are not a hexadecimal `u8`.
    InvalidEscape { index: usize },
}

/// The bytes an escaped filename stands for, read from position `i`.
pub open spec fn unescape_filename_from(bs: Seq<u8>, i: int) -> Result<Seq<u8>, FilenameEscapeError>
    decreases bs.len() - i,
{
    if i < 0 || i >= bs.len() {
        Ok(Seq::empty())
    } else if bs[i] == 37 {
        if i + 3 > bs.len() {
            Err(FilenameEscapeError::IncompleteEscape { index: i as usize })
        } else {
            match parse_hex(bs.subrange(i + 1, i + 3), 255) {
                Some(v) => match unescape_filename_from(bs, i + 3) {
                    Ok(rest) => Ok(seq![v as u8] + rest),
                    Err(e) => Err(e),
                },
                None => Err(FilenameEscapeError::InvalidEscape { index: i as usize }),
            }
        }
    } else {
        match unescape_filename_from(bs, i + 1) {
            Ok(rest) => Ok(seq![bs[i]] + rest),
            Err(e) => Err(e),
        }
    }
}

/// The bytes an escaped filename stands for: ASCII text in which `%` and two bytes read
/// as a hexadecimal `u8` (as `u8::from_str_radix` reads them) and other bytes stand for
/// themselves.
pub open spec fn unescape_filename_spec(value: Seq<char>) -> Result<Seq<u8>, FilenameEscapeError> {
    if !vstd::utf8::is_ascii_chars(value) {
        Err(FilenameEscapeError::NotAscii)
    } else {
        unescape_filename_from(vstd::utf8::encode_utf8(value), 0)
    }
}

/// Decodes an escaped filename back into its bytes.
pub fn unescape_filename(value: &str) -> (r: Result<Vec<u8>, FilenameEscapeError>)
    ensures
        match unescape_filename_spec(value@) {
            Ok(bytes) => r matches Ok(v) && v@ == bytes,
            Err(e) => r == Err::<Vec<u8>, FilenameEscapeError>(e),
        },
{
    if !value.is_ascii() {
        return Err(FilenameEscapeError::NotAscii);
    }
    let input = value.as_bytes();
    let n = input.len();
    let mut out: Vec<u8> = Vec::new();
    let mut index: usize = 0;
    while index < n
        invariant
            n == input@.len(),
            vstd::utf8::is_ascii_chars(value@),
            input@ == vstd::utf8::encode_utf8(value@),
            index <= n,
            unescape_filename_from(input@, 0) == (match unescape_filename_from(input@, index as int) {
                Ok(rest) => Ok(out@ + rest),
                Err(e) => Err(e),
            }),
        decreases n - index,
    {
        if input[index] == 37 {
            if n - index < 3 {
                return Err(FilenameEscapeError::IncompleteEscape { index });
            }
            let digits = vstd::slice::slice_subrange(input, index + 1, index + 3);
            match parse_u8_hex(digits) {
                Some(v) => {
                    let ghost before = out@;
                    out.push(v);
                    proof {
                        match unescape_filename_from(input@, index + 3) {
                            Ok(rest) => {
                                assert(before + (seq![v] + rest) =~= out@ + rest);
                            },
                            Err(e) => {},
                        }
                    }
                    index = index + 3;
                },
                None => {
                    return Err(FilenameEscapeError::InvalidEscape { index });
                },
            }
        } else {
            let ghost before = out@;
            out.push(input[index]);
            proof {
                match unescape_filename_from(input@, index + 1) {
                    Ok(rest) => {
                        assert(before + (seq![input@[index as int]] + rest) =~= out@ + rest);
                    },
                    Err(e) => {},
                }
            }
            index = index + 1;
        }
    }
    assert(out@ + Seq::<u8>::empty() =~= out@);
    Ok(out)
}

proof fn lemma_unescape_shift(bs: Seq<u8>, i: int)
    requires
        0 <= i <= bs.len(),
    ensures
        unescape_filename_from(bs.skip(i), 0) is Ok <==> unescape_filename_from(bs, i) is Ok,
        unescape_filename_from(bs.skip(i), 0) is Ok ==> unescape_filename_from(bs, i) == unescape_filename_from(
            bs.skip(i),
            0,
        ),
    decreases bs.len() - i,
{
    let t = bs.skip(i);
    if i < bs.len() {
        assert(t[0] == bs[i]);
        assert(t.len() == bs.len() - i);
        if bs[i] == 37 {
            if i + 3 <= bs.len() {
                assert(bs.subrange(i + 1, i + 3) =~= t.subrange(1, 3));
                assert(t.skip(3) =~= bs.skip(i + 3));
                lemma_unescape_shift(bs, i + 3);
                lemma_unescape_shift(t, 3);
                assert(t.skip(3).skip(0) =~= t.skip(3));
            }
        } else {
            assert(t.skip(1) =~= bs.skip(i + 1));
            lemma_unescape_shift(bs, i + 1);
            lemma_unescape_shift(t, 1);
        }
    } else {
        assert(t.len() == 0);
    }
}

proof fn lemma_escape_front(x: u8, rest: Seq<u8>)
    ensures
        escape_filename_bytes(seq![x] + rest) == escape_filename_byte(x) + escape_filename_bytes(rest),
    decreases rest.len(),
{
    if rest.len() == 0 {
        assert((seq![x] + rest).drop_last() =~= Seq::<u8>::empty());
        assert((seq![x] + rest).last() == x);
        assert(escape_filename_bytes(Seq::<u8>::empty()) == Seq::<u8>::empty());
        assert(escape_filename_bytes(seq![x] + rest) =~= escape_filename_byte(x));
        assert(escape_filename_byte(x) + escape_filename_bytes(rest) =~= escape_filename_byte(x));
    } else {
        lemma_escape_front(x, rest.drop_last());
        assert((seq![x] + rest).drop_last() =~= seq![x] + rest.drop_last());
        assert((seq![x] + rest).last() == rest.last());
        assert(escape_filename_byte(x) + escape_filename_bytes(rest.drop_last()) + escape_filename_byte(
            rest.last(),
        ) =~= escape_filename_byte(x) + (escape_filename_bytes(rest.drop_last())
            + escape_filename_byte(rest.last())));
    }
}

proof fn lemma_upper_pair_value(x: u8)
    ensures
        parse_hex(seq![hex_digit_byte((x / 16) as nat, true), hex_digit_byte((x % 16) as nat, true)], 255)
            == Some(x as int),
{
    let hi = x / 16;
    let lo = x % 16;
    let h = seq![hex_digit_byte(hi as nat, true), hex_digit_byte(lo as nat, true)];
    assert(crate::numtext::hex_digit_value(hex_digit_byte(hi as nat, true)) == Some(hi as int));
    assert(crate::numtext::hex_digit_value(hex_digit_byte(lo as nat, true)) == Some(lo as int));
    assert(h.drop_last() =~= seq![hex_digit_byte(hi as nat, true)]);
    assert(h.drop_last().drop_last() =~= Seq::<u8>::empty());
    assert(crate::numtext::hex_digits_value(Seq::<u8>::empty()) == 0);
    assert(crate::numtext::hex_digits_value(seq![hex_digit_byte(hi as nat, true)]) == hi as int);
    assert(crate::numtext::hex_digits_value(h) == hi as int * 16 + lo as int);
    assert(crate::numtext::all_hex_digits(h));
    assert(crate::numtext::split_sign(h, false) == (false, h));
}

proof fn lemma_unescape_escape_from(bs: Seq<u8>)
    ensures
        unescape_filename_from(escape_filename_bytes(bs), 0) == Ok::<Seq<u8>, FilenameEscapeError>(bs),
    decreases bs.len(),
{
    if bs.len() == 0 {
        assert(bs =~= Seq::<u8>::empty());
        assert(escape_filename_bytes(bs) == Seq::<u8>::empty());
    } else {
        let x = bs[0];
        let rest = bs.drop_first();
        assert(bs =~= seq![x] + rest);
        assert(escape_filename_bytes(bs) == escape_filename_bytes(seq![x] + rest));
        lemma_escape_front(x, rest);
        lemma_unescape_escape_from(rest);
        let e = escape_filename_byte(x) + escape_filename_bytes(rest);
        if is_literal_byte(x) {
            lemma_unescape_shift(e, 1);
            assert(e[0] == x);
            assert(e.skip(1) =~= escape_filename_bytes(rest));
            assert(unescape_filename_from(e, 1) == Ok::<Seq<u8>, FilenameEscapeError>(rest));
            assert(unescape_filename_from(e, 0) == Ok::<Seq<u8>, FilenameEscapeError>(seq![x] + rest));
        } else {
            lemma_unescape_shift(e, 3);
            assert(e[0] == 37);
            assert(e.len() >= 3);
            assert(e.skip(3) =~= escape_filename_bytes(rest));
            assert(e.subrange(1, 3) =~= seq![hex_digit_byte((x / 16) as nat, true), hex_digit_byte((x % 16) as nat, true)]);
            lemma_upper_pair_value(x);
            assert(unescape_filename_from(e, 3) == Ok::<Seq<u8>, FilenameEscapeError>(rest));
            assert(((x as int) as u8) == x);
            assert(unescape_filename_from(e, 0) == Ok::<Seq<u8>, FilenameEscapeError>(seq![x] + rest));
        }
    }
}

/// Unescaping the escaped form of any filename bytes gives the bytes back.
pub proof fn lemma_filename_escape_round_trip(bs: Seq<u8>)
    ensures
        unescape_filename_spec(ascii_chars(escape_filename_bytes(bs))) == Ok::<Seq<u8>, FilenameEscapeError>(bs),
{
    let e = escape_filename_bytes(bs);
    lemma_escape_filename_ascii(bs);
    let chars = ascii_chars(e);
    assert(vstd::utf8::is_ascii_chars(chars)) by {
        assert forall|i: int| 0 <= i < chars.len() implies '\0' <= #[trigger] chars[i] <= '\u{7f}' by {
            assert(e[i] < 128);
        }
    }
    vstd::utf8::is_ascii_chars_encode_utf8(chars);
    assert(vstd::utf8::encode_utf8(chars) =~= e);
    lemma_unescape_escape_from(bs);
}

/// One row of the sound manifest: the row's fields, its filename escaped, and its stored
/// bytes in hexadecimal.
#[derive(Debug, Clone, PartialEq, Eq)]
pub struct SoundInfoManifestEntry {
    pub key: SoundKey,
    pub sound_id: AssetId,
    pub unknown_10: i32,
    pub filename: String,
    pub filename_padding_hex: String,
    pub unknown_47_hex: String,
}

/// The sound manifest: a format name and version, the trailing bytes in hexadecimal,
/// and the rows.
#[derive(Debug, Clone, PartialEq, Eq)]
pub struct SoundInfoManifest {
    pub format: String,
    pub version: u32,
    pub trailing_hex: String,
    pub entries: Vec<SoundInfoManifestEntry>,
}

/// The mathematical content of a manifest row.
pub struct ManifestEntryView {
    pub key: SoundKey,
    pub sound_id: AssetId,
    pub unknown_10: i32,
    pub filename: Seq<char>,
    pub filename_padding_hex: Seq<char>,
    pub unknown_47_hex: Seq<char>,
}

impl View for SoundInfoManifestEntry {
    type V = ManifestEntryView;

    open spec fn view(&self) -> ManifestEntryView {
        ManifestEntryView {
            key: self.key,
            sound_id: self.sound_id,
            unknown_10: self.unknown_10,
            filename: self.filename@,
            filename_padding_hex: self.filename_padding_hex@,
            unknown_47_hex: self.unknown_47_hex@,
        }
    }
}

/// The mathematical content of a manifest.
pub struct ManifestView {
    pub format: Seq<char>,
    pub version: u32,
    pub trailing_hex: Seq<char>,
    pub entries: Seq<ManifestEntryView>,
}

impl View for SoundInfoManifest {
    type V = ManifestView;

    open spec fn view(&self) -> ManifestView {
        ManifestView {
            format: self.format@,
            version: self.version,
            trailing_hex: self.trailing_hex@,
            entries: Seq::new(self.entries@.len(), |i: int| self.entries@[i]@),
        }
    }
}

/// The manifest format name, `sndinfo`.
pub open spec fn sound_format_word() -> Seq<u8> {
    seq![115u8, 110, 100, 105, 110, 102, 111]
}

/// The manifest row of a table row.
pub open spec fn manifest_entry_of(e: SoundInfoEntryView) -> ManifestEntryView {
    ManifestEntryView {
        key: e.key,
        sound_id: e.sound_id,
        unknown_10: e.unknown_10,
        filename: ascii_chars(escape_filename_bytes(e.filename.bytes)),
        filename_padding_hex: ascii_chars(hex_lower(e.filename.padding)),
        unknown_47_hex: ascii_chars(hex_lower(e.unknown_47)),
    }
}

/// The manifest of a table.
pub open spec fn manifest_of(t: crate::audio::SoundInfoTableView) -> ManifestView {
    ManifestView {
        format: ascii_chars(sound_format_word()),
        version: 1,
        trailing_hex: ascii_chars(hex_lower(t.trailing_bytes)),
        entries: Seq::new(t.entries.len(), |i: int| manifest_entry_of(t.entries[i])),
    }
}

impl SoundInfoManifest {
    /// The manifest of a table.
    pub fn from_table(table: &SoundInfoTable) -> (r: SoundInfoManifest)
        ensures
            r@ == manifest_of(table@),
    {
        let rows = table.entries();
        let mut entries: Vec<SoundInfoManifestEntry> = Vec::new();
        let mut i: usize = 0;
        while i < rows.len()
            invariant
                sound_entries_view(rows@) == table@.entries,
                i <= rows@.len(),
                entries@.len() == i,
                forall|k: int| 0 <= k < i ==> (#[trigger] entries@[k])@ == manifest_entry_of(table@.entries[k]),
            decreases rows@.len() - i,
        {
            let row = &rows[i];
            assert(row@ == table@.entries[i as int]);
            entries.push(
                SoundInfoManifestEntry {
                    key: row.key,
                    sound_id: row.sound_id,
                    unknown_10: row.unknown_10,
                    filename: escape_filename(row.filename.as_bytes()),
                    filename_padding_hex: hex_encode(row.filename.padding()),
                    unknown_47_hex: hex_encode(&row.unknown_47),
                },
            );
            i = i + 1;
        }
        let format = lossy_string(&[115u8, 110, 100, 105, 110, 102, 111]);
        proof {
            assert(all_ascii(seq![115u8, 110, 100, 105, 110, 102, 111]));
        }
        let r = SoundInfoManifest {
            format,
            version: 1,
            trailing_hex: hex_encode(table.trailing_bytes()),
            entries,
        };
        assert(r@.entries =~= manifest_of(table@).entries);
        r
    }
}

/// What is wrong with a manifest row.
#[derive(Debug, Clone, Copy, PartialEq, Eq, Structural)]
pub enum ManifestEntryProblem {
    /// The escaped filename does not decode.
    Filename(FilenameEscapeError),
    /// The filename is longer than the field.
    FilenameTooLong { length: usize },
    /// The padding is not hexadecimal bytes.
    PaddingHex,
    /// The padding does not fill the rest of the field.
    PaddingLength { actual: usize, expected: usize },
    /// The unknown bytes are not hexadecimal bytes.
    Unknown47Hex,
    /// The unknown bytes are not 53 bytes.
    Unknown47Length { actual: usize },
}

/// Why a manifest does not make a table.
#[derive(Debug, Clone, PartialEq, Eq)]
pub enum SoundManifestError {
    /// The format name is not `sndinfo`.
    UnsupportedFormat { format: String },
    /// The version is not 1.
    UnsupportedVersion { version: u32 },
    /// A row does not make a table row.
    Entry { index: usize, problem: ManifestEntryProblem },
    /// The trailing bytes are not hexadecimal bytes.
    TrailingHex,
}

/// The table row a manifest row stands for, or what is wrong with it: the filename is
/// unescaped and must fit the field, the padding must fill the rest of it, and the
/// unknown bytes must be 53.
pub open spec fn entry_from_manifest(e: ManifestEntryView) -> Result<SoundInfoEntryView, ManifestEntryProblem> {
    match unescape_filename_spec(e.filename) {
        Err(x) => Err(ManifestEntryProblem::Filename(x)),
        Ok(name) => if name.len() > 50 {
            Err(ManifestEntryProblem::FilenameTooLong { length: name.len() as usize })
        } else {
            match hex_pairs(vstd::utf8::encode_utf8(e.filename_padding_hex)) {
                None => Err(ManifestEntryProblem::PaddingHex),
                Some(pad) => if pad.len() != 50 - name.len() {
                    Err(
                        ManifestEntryProblem::PaddingLength {
                            actual: pad.len() as usize,
                            expected: (50 - name.len()) as usize,
                        },
                    )
                } else {
                    match hex_pairs(vstd::utf8::encode_utf8(e.unknown_47_hex)) {
                        None => Err(ManifestEntryProblem::Unknown47Hex),
                        Some(u) => if u.len() != 53 {
                            Err(ManifestEntryProblem::Unknown47Length { actual: u.len() as usize })
                        } else {
                            Ok(
                                SoundInfoEntryView {
                                    key: e.key,
                                    sound_id: e.sound_id,
                                    unknown_10: e.unknown_10,
                                    filename: SoundFilenameView { bytes: name, padding: pad },
                                    unknown_47: u,
                                },
                            )
                        },
                    }
                },
            }
        },
    }
}

/// The first manifest row at or after `k` that does not make a table row.
pub open spec fn first_bad_entry(es: Seq<ManifestEntryView>, k: int) -> Option<int>
    decreases es.len() - k,
{
    if k < 0 || k >= es.len() {
        None
    } else if entry_from_manifest(es[k]) is Err {
        Some(k)
    } else {
        first_bad_entry(es, k + 1)
    }
}

/// The table row a manifest row stands for.
fn entry_from_manifest_exec(e: &SoundInfoManifestEntry) -> (r: Result<SoundInfoEntry, ManifestEntryProblem>)
    ensures
        match entry_from_manifest(e@) {
            Ok(v) => r matches Ok(x) && x@ == v,
            Err(p) => r == Err::<SoundInfoEntry, ManifestEntryProblem>(p),
        },
{
    let name = match unescape_filename(e.filename.as_str()) {
        Ok(name) => name,
        Err(x) => {
            return Err(ManifestEntryProblem::Filename(x));
        },
    };
    if name.len() > 50 {
        return Err(ManifestEntryProblem::FilenameTooLong { length: name.len() });
    }
    let padding = match hex_decode(e.filename_padding_hex.as_str()) {
        Some(p) => p,
        None => {
            return Err(ManifestEntryProblem::PaddingHex);
        },
    };
    let expected = 50 - name.len();
    if padding.len() != expected {
        return Err(ManifestEntryProblem::PaddingLength { actual: padding.len(), expected });
    }
    let unknown = match hex_decode(e.unknown_47_hex.as_str()) {
        Some(u) => u,
        None => {
            return Err(ManifestEntryProblem::Unknown47Hex);
        },
    };
    if unknown.len() != 53 {
        return Err(ManifestEntryProblem::Unknown47Length { actual: unknown.len() });
    }
    let mut unknown_47 = [0u8; 53];
    let mut i: usize = 0;
    while i < 53
        invariant
            unknown@.len() == 53,
            i <= 53,
            forall|k: int| 0 <= k < i ==> unknown_47@[k] == unknown@[k],
        decreases 53 - i,
    {
        unknown_47[i] = unknown[i];
        i = i + 1;
    }
    assert(unknown_47@ =~= unknown@);
    let filename = match SoundFilename::from_parts(name, padding) {
        Ok(f) => f,
        Err(_) => {
            assert(false);
            return Err(ManifestEntryProblem::PaddingHex);
        },
    };
    Ok(
        SoundInfoEntry {
            key: e.key,
            sound_id: e.sound_id,
            unknown_10: e.unknown_10,
            filename,
            unknown_47,
        },
    )
}

/// The table rows of manifest rows that all make one.
pub open spec fn manifest_rows(es: Seq<ManifestEntryView>) -> Seq<SoundInfoEntryView> {
    Seq::new(es.len(), |i: int| entry_from_manifest(es[i])->Ok_0)
}

impl SoundInfoManifest {
    /// The table a manifest stands for: the format must be `sndinfo` and the version 1,
    /// every row must make a table row (the first that does not is reported), and the
    /// trailing bytes must be hexadecimal bytes.
    pub fn into_table(self) -> (r: Result<SoundInfoTable, SoundManifestError>)
        ensures
            self@.format != ascii_chars(sound_format_word()) ==> (r matches Err(
                SoundManifestError::UnsupportedFormat { format },
            ) && format@ == self@.format),
            self@.format == ascii_chars(sound_format_word()) && self@.version != 1 ==> r == Err::<
                SoundInfoTable,
                SoundManifestError,
            >(SoundManifestError::UnsupportedVersion { version: self@.version }),
            self@.format == ascii_chars(sound_format_word()) && self@.version == 1 ==> match first_bad_entry(self@.entries, 0) {
                Some(k) => r == Err::<SoundInfoTable, SoundManifestError>(
                    SoundManifestError::Entry { index: k as usize, problem: entry_from_manifest(self@.entries[k])->Err_0 },
                ),
                None => match hex_pairs(vstd::utf8::encode_utf8(self@.trailing_hex)) {
                    None => r == Err::<SoundInfoTable, SoundManifestError>(SoundManifestError::TrailingHex),
                    Some(tr) => r matches Ok(t) && t@.entries == manifest_rows(self@.entries)
                        && t@.trailing_bytes == tr,
                },
            },
    {
        let format = lossy_string(&[115u8, 110, 100, 105, 110, 102, 111]);
        proof {
            assert(all_ascii(seq![115u8, 110, 100, 105, 110, 102, 111]));
        }
        if self.format != format {
            return Err(SoundManifestError::UnsupportedFormat { format: self.format });
        }
        if self.version != 1 {
            return Err(SoundManifestError::UnsupportedVersion { version: self.version });
        }
        let ghost view = self@;
        let mut rows: Vec<SoundInfoEntry> = Vec::new();
        let mut i: usize = 0;
        while i < self.entries.len()
            invariant
                view == self@,
                view.format == ascii_chars(sound_format_word()),
                view.version == 1,
                i <= self.entries@.len(),
                first_bad_entry(view.entries, 0) == first_bad_entry(view.entries, i as int),
                rows@.len() == i,
                forall|k: int| 0 <= k < i ==> (#[trigger] rows@[k])@ == manifest_rows(view.entries)[k],
                forall|k: int| 0 <= k < i ==> entry_from_manifest(#[trigger] view.entries[k]) is Ok,
            decreases self.entries@.len() - i,
        {
            assert(self.entries@[i as int]@ == view.entries[i as int]);
            match entry_from_manifest_exec(&self.entries[i]) {
                Ok(row) => {
                    rows.push(row);
                },
                Err(problem) => {
                    return Err(SoundManifestError::Entry { index: i, problem });
                },
            }
            i = i + 1;
        }
        let trailing = match hex_decode(self.trailing_hex.as_str()) {
            Some(t) => t,
            None => {
                return Err(SoundManifestError::TrailingHex);
            },
        };
        let mut table = SoundInfoTable::new(rows);
        table.set_trailing_bytes(trailing);
        assert(table@.entries =~= manifest_rows(view.entries));
        Ok(table)
    }
}

/// Turning a table into its manifest and back gives the same table: every manifest row
/// makes its table row again, and the trailing bytes decode to themselves.
pub proof fn lemma_manifest_round_trip(t: crate::audio::SoundInfoTableView)
    requires
        crate::audio::filenames_fit(t.entries),
        forall|i: int| 0 <= i < t.entries.len() ==> (#[trigger] t.entries[i]).unknown_47.len() == 53,
    ensures
        first_bad_entry(manifest_of(t).entries, 0) is None,
        manifest_rows(manifest_of(t).entries) == t.entries,
        hex_pairs(vstd::utf8::encode_utf8(manifest_of(t).trailing_hex)) == Some(t.trailing_bytes),
{
    let m = manifest_of(t);
    assert forall|i: int| 0 <= i < t.entries.len() implies entry_from_manifest(#[trigger] m.entries[i])
        == Ok::<SoundInfoEntryView, ManifestEntryProblem>(t.entries[i]) by {
        let e = t.entries[i];
        assert(filename_fits(e.filename));
        lemma_filename_escape_round_trip(e.filename.bytes);
        lemma_hex_round_trip(e.filename.padding);
        lemma_hex_round_trip(e.unknown_47);
    }
    lemma_first_bad_none(m.entries, 0);
    assert(manifest_rows(m.entries) =~= t.entries);
    lemma_hex_round_trip(t.trailing_bytes);
}

proof fn lemma_first_bad_none(es: Seq<ManifestEntryView>, k: int)
    requires
        0 <= k,
        forall|i: int| 0 <= i < es.len() ==> entry_from_manifest(#[trigger] es[i]) is Ok,
    ensures
        first_bad_entry(es, k) is None,
    decreases es.len() - k,
{
    if k < es.len() {
        lemma_first_bad_none(es, k + 1);
    }
}

} // verus!
