//! Command rules for archive files: which container an output name or a set of
//! parse results stands for, and which media format a file header shows.
use vstd::prelude::*;

use crate::binary_payloads::{parse_binary_payload_filename, parse_payload_name};
use crate::chartext::{eq_ignore_ascii_case, str_chars};
use crate::paths::{file_name_span_exec, lemma_file_name_span_bounds, path_file_name};
use crate::structured_text::lower_text;
use crate::text_archive::ascii_lower_exec;
use crate::textenc::ascii_chars;

verus! {

/// The container kind an archive command works on.
#[derive(Debug, Clone, Copy, PartialEq, Eq, Structural)]
pub enum ArchiveType {
    /// Chosen from the input.
    Auto,
    /// Binary `.NOS` chunks.
    Binary,
    /// A text `.NOS` archive.
    Text,
    /// A DelDX sound pack.
    Sound,
}

/// The file name of a path, by characters.
fn file_name_chars(path: &str) -> (r: Option<Vec<char>>)
    ensures
        r matches Some(v) ==> path_file_name(path@) == Some(v@),
        r is None ==> path_file_name(path@) is None,
{
    let chars = str_chars(path);
    match file_name_span_exec(chars.as_slice()) {
        Some((b, e)) => {
            proof {
                lemma_file_name_span_bounds(chars@, chars@.len() as int);
            }
            Some(vstd::slice::slice_to_vec(vstd::slice::slice_subrange(chars.as_slice(), b, e)))
        },
        None => None,
    }
}

/// Whether `s` is `word` ignoring ASCII case; `word` is lowercase ASCII.
fn is_word(s: &[char], word: &[u8]) -> (r: bool)
    requires
        forall|i: int| 0 <= i < word@.len() ==> #[trigger] word@[i] < 128 && !(65 <= word@[i] <= 90),
    ensures
        r == eq_ignore_ascii_case(s@, word@),
{
    if s.len() != word.len() {
        return false;
    }
    let mut i: usize = 0;
    while i < s.len()
        invariant
            s@.len() == word@.len(),
            i <= s@.len(),
            forall|k: int| 0 <= k < i ==> crate::chartext::lower_code(#[trigger] s@[k]) == word@[k] as u32,
        decreases s@.len() - i,
    {
        if crate::chartext::lower_char_code(s[i]) != word[i] as u32 {
            return false;
        }
        i = i + 1;
    }
    true
}

/// Whether the lowercased text starts with the ASCII word.
pub open spec fn lower_starts_with(s: Seq<char>, word: Seq<u8>) -> bool {
    s.len() >= word.len() && lower_text(s).take(word.len() as int) == ascii_chars(word)
}

/// Whether the lowercased text ends with the ASCII word.
pub open spec fn lower_ends_with(s: Seq<char>, word: Seq<u8>) -> bool {
    s.len() >= word.len() && lower_text(s).skip(s.len() - word.len()) == ascii_chars(word)
}

/// Whether the characters from `start` on, lowercased, begin with the ASCII word.
fn lower_matches_at(s: &[char], start: usize, word: &[u8]) -> (r: bool)
    requires
        start + word@.len() <= s@.len(),
    ensures
        r == (lower_text(s@).subrange(start as int, start + word@.len()) == ascii_chars(word@)),
{
    let mut i: usize = 0;
    while i < word.len()
        invariant
            start + word@.len() <= s@.len(),
            s@.len() == s.len(),
            i <= word@.len(),
            forall|k: int| 0 <= k < i ==> lower_text(s@)[start + k] == (word@[k] as char),
        decreases word@.len() - i,
    {
        if ascii_lower_exec(s[start + i]) != (word[i] as char) {
            assert(lower_text(s@).subrange(start as int, start + word@.len())[i as int] != ascii_chars(word@)[i as int]);
            return false;
        }
        i = i + 1;
    }
    assert(lower_text(s@).subrange(start as int, start + word@.len()) =~= ascii_chars(word@));
    true
}

/// `snd.pck`
pub open spec fn snd_pck_word() -> Seq<u8> {
    seq![115u8, 110, 100, 46, 112, 99, 107]
}

/// `.pck`
pub open spec fn pck_word() -> Seq<u8> {
    seq![46u8, 112, 99, 107]
}

/// Whether an output path names a sound pack: `snd.pck` or any `.pck` file name,
/// ignoring ASCII case.
pub open spec fn output_is_sound_spec(out: Seq<char>) -> bool {
    path_file_name(out) matches Some(n) && (eq_ignore_ascii_case(n, snd_pck_word()) || lower_ends_with(n, pck_word()))
}

/// Whether an output path names a sound pack.
pub fn output_is_sound(out: &str) -> (r: bool)
    ensures
        r == output_is_sound_spec(out@),
{
    match file_name_chars(out) {
        Some(n) => {
            if is_word(n.as_slice(), &[115u8, 110, 100, 46, 112, 99, 107]) {
                return true;
            }
            if n.len() < 4 {
                return false;
            }
            let r = lower_matches_at(n.as_slice(), n.len() - 4, &[46u8, 112, 99, 107]);
            assert(lower_text(n@).subrange(n@.len() - 4, n@.len() as int) =~= lower_text(n@).skip(n@.len() - 4));
            r
        },
        None => false,
    }
}

/// `nsmndata.nos`
pub open spec fn nsmn_word() -> Seq<u8> {
    seq![110u8, 115, 109, 110, 100, 97, 116, 97, 46, 110, 111, 115]
}

/// `nspndata.nos`
pub open spec fn nspn_word() -> Seq<u8> {
    seq![110u8, 115, 112, 110, 100, 97, 116, 97, 46, 110, 111, 115]
}

/// Whether an output path names a known CCINF file: `NSmnData.NOS` or `NSpnData.NOS`,
/// ignoring ASCII case.
pub open spec fn output_is_ccinf_spec(out: Seq<char>) -> bool {
    path_file_name(out) matches Some(n) && (eq_ignore_ascii_case(n, nsmn_word()) || eq_ignore_ascii_case(n, nspn_word()))
}

/// Whether an output path names a known CCINF file.
pub fn output_is_ccinf(out: &str) -> (r: bool)
    ensures
        r == output_is_ccinf_spec(out@),
{
    match file_name_chars(out) {
        Some(n) => is_word(n.as_slice(), &[110u8, 115, 109, 110, 100, 97, 116, 97, 46, 110, 111, 115])
            || is_word(n.as_slice(), &[110u8, 115, 112, 110, 100, 97, 116, 97, 46, 110, 111, 115]),
        None => false,
    }
}

/// `nsgtddata`
pub open spec fn nsgtd_word() -> Seq<u8> {
    seq![110u8, 115, 103, 116, 100, 100, 97, 116, 97]
}

/// `nslangdata`
pub open spec fn nslang_word() -> Seq<u8> {
    seq![110u8, 115, 108, 97, 110, 103, 100, 97, 116, 97]
}

/// Whether an output path names a known text archive family: a file name starting with
/// `NSgtdData` or `NSlangData`, ignoring ASCII case.
pub open spec fn output_is_text_spec(out: Seq<char>) -> bool {
    path_file_name(out) matches Some(n) && (lower_starts_with(n, nsgtd_word()) || lower_starts_with(n, nslang_word()))
}

/// Whether an output path names a known text archive family.
pub fn output_is_text(out: &str) -> (r: bool)
    ensures
        r == output_is_text_spec(out@),
{
    match file_name_chars(out) {
        Some(n) => {
            let a = n.len() >= 9 && lower_matches_at(n.as_slice(), 0, &[110u8, 115, 103, 116, 100, 100, 97, 116, 97]);
            let b = n.len() >= 10 && lower_matches_at(n.as_slice(), 0, &[110u8, 115, 108, 97, 110, 103, 100, 97, 116, 97]);
            proof {
                if n@.len() >= 9 {
                    assert(lower_text(n@).subrange(0, 9) =~= lower_text(n@).take(9));
                }
                if n@.len() >= 10 {
                    assert(lower_text(n@).subrange(0, 10) =~= lower_text(n@).take(10));
                }
            }
            a || b
        },
        None => false,
    }
}

/// The pack type that `auto` resolves to without looking at the input files: the
/// explicit type; sound when a sound manifest exists or the output names a sound pack;
/// text for the `NSgtdData` and `NSlangData` presets or a text archive output name;
/// otherwise `None`, and the input file names decide.
pub open spec fn pack_type_without_files(
    archive_type: ArchiveType,
    sound_manifest_exists: bool,
    out: Seq<char>,
    preset: Seq<char>,
) -> Option<ArchiveType> {
    if archive_type != ArchiveType::Auto {
        Some(archive_type)
    } else if sound_manifest_exists || output_is_sound_spec(out) {
        Some(ArchiveType::Sound)
    } else if eq_ignore_ascii_case(preset, nsgtd_word()) || eq_ignore_ascii_case(preset, nslang_word())
        || output_is_text_spec(out) {
        Some(ArchiveType::Text)
    } else {
        None
    }
}

/// The pack type `auto` resolves to before the input files are listed; `None` when the
/// file names decide (see `pack_type_from_file_names`).
pub fn infer_pack_type(archive_type: ArchiveType, sound_manifest_exists: bool, out: &str, preset: &str) -> (r: Option<ArchiveType>)
    ensures
        r == pack_type_without_files(archive_type, sound_manifest_exists, out@, preset@),
{
    if archive_type != ArchiveType::Auto {
        return Some(archive_type);
    }
    if sound_manifest_exists || output_is_sound(out) {
        return Some(ArchiveType::Sound);
    }
    let p = str_chars(preset);
    if is_word(p.as_slice(), &[110u8, 115, 103, 116, 100, 100, 97, 116, 97]) || is_word(p.as_slice(), &[110u8, 115, 108, 97, 110, 103, 100, 97, 116, 97]) || output_is_text(out) {
        return Some(ArchiveType::Text);
    }
    None
}

/// The pack type of a directory of payloads: binary when every file name carries a numeric
/// payload id (also when there is none), text otherwise.
pub fn pack_type_from_file_names(names: &[String]) -> (r: ArchiveType)
    ensures
        r == if forall|i: int| 0 <= i < names@.len() ==> (#[trigger] parse_payload_name(names@[i]@)) is Some {
            ArchiveType::Binary
        } else {
            ArchiveType::Text
        },
{
    let mut i: usize = 0;
    while i < names.len()
        invariant
            i <= names@.len(),
            forall|k: int| 0 <= k < i ==> (#[trigger] parse_payload_name(names@[k]@)) is Some,
        decreases names@.len() - i,
    {
        if parse_binary_payload_filename(names[i].as_str()).is_none() {
            return ArchiveType::Text;
        }
        i = i + 1;
    }
    ArchiveType::Binary
}

/// Why archive inputs name no single container.
#[derive(Debug, Clone, Copy, PartialEq, Eq, Structural)]
pub enum ArchiveDetectError {
    /// The explicit type's parser refused the input.
    NotThatType(ArchiveType),
    /// `auto` found no parser that accepts the input.
    NoMatch,
    /// `auto` found more than one parser that accepts the input.
    Ambiguous,
}

/// The container that detection picks, given which parsers accepted the input (a text
/// archive with trailing bytes counting only when text was asked for): the asked type
/// when its parser accepted it, and for `auto` the only accepting parser.
pub open spec fn detected_type(archive_type: ArchiveType, binary: bool, text: bool, sound: bool) -> Result<ArchiveType, ArchiveDetectError> {
    match archive_type {
        ArchiveType::Binary => if binary { Ok(ArchiveType::Binary) } else { Err(ArchiveDetectError::NotThatType(ArchiveType::Binary)) },
        ArchiveType::Text => if text { Ok(ArchiveType::Text) } else { Err(ArchiveDetectError::NotThatType(ArchiveType::Text)) },
        ArchiveType::Sound => if sound { Ok(ArchiveType::Sound) } else { Err(ArchiveDetectError::NotThatType(ArchiveType::Sound)) },
        ArchiveType::Auto => {
            let n = (if binary { 1int } else { 0 }) + (if text { 1int } else { 0 }) + (if sound { 1int } else { 0 });
            if n == 0 {
                Err(ArchiveDetectError::NoMatch)
            } else if n > 1 {
                Err(ArchiveDetectError::Ambiguous)
            } else if binary {
                Ok(ArchiveType::Binary)
            } else if text {
                Ok(ArchiveType::Text)
            } else {
                Ok(ArchiveType::Sound)
            }
        },
    }
}

/// Picks the container for a set of inputs from which parsers accepted them.
pub fn detect_archive_type(archive_type: ArchiveType, binary: bool, text: bool, sound: bool) -> (r: Result<ArchiveType, ArchiveDetectError>)
    ensures
        r == detected_type(archive_type, binary, text, sound),
{
    match archive_type {
        ArchiveType::Binary => if binary { Ok(ArchiveType::Binary) } else { Err(ArchiveDetectError::NotThatType(ArchiveType::Binary)) },
        ArchiveType::Text => if text { Ok(ArchiveType::Text) } else { Err(ArchiveDetectError::NotThatType(ArchiveType::Text)) },
        ArchiveType::Sound => if sound { Ok(ArchiveType::Sound) } else { Err(ArchiveDetectError::NotThatType(ArchiveType::Sound)) },
        ArchiveType::Auto => {
            let n: u8 = (if binary { 1u8 } else { 0 }) + (if text { 1u8 } else { 0 }) + (if sound { 1u8 } else { 0 });
            if n == 0 {
                Err(ArchiveDetectError::NoMatch)
            } else if n > 1 {
                Err(ArchiveDetectError::Ambiguous)
            } else if binary {
                Ok(ArchiveType::Binary)
            } else if text {
                Ok(ArchiveType::Text)
            } else {
                Ok(ArchiveType::Sound)
            }
        },
    }
}

/// A media format recognized by its header.
#[derive(Debug, Clone, Copy, PartialEq, Eq, Structural)]
pub enum MediaFormat {
    Ogg,
    Mp3,
    Wav,
    Mpeg,
}

impl MediaFormat {
    /// The scan type of the format.
    pub fn scan_type(self) -> (r: &'static str)
        ensures
            r == match self {
                MediaFormat::Mpeg => "video",
                _ => "audio",
            },
    {
        match self {
            MediaFormat::Ogg | MediaFormat::Mp3 | MediaFormat::Wav => "audio",
            MediaFormat::Mpeg => "video",
        }
    }

    /// The name of the format.
    pub fn name(self) -> (r: &'static str)
        ensures
            r == match self {
                MediaFormat::Ogg => "ogg",
                MediaFormat::Mp3 => "mp3",
                MediaFormat::Wav => "wav",
                MediaFormat::Mpeg => "mpeg",
            },
    {
        match self {
            MediaFormat::Ogg => "ogg",
            MediaFormat::Mp3 => "mp3",
            MediaFormat::Wav => "wav",
            MediaFormat::Mpeg => "mpeg",
        }
    }
}

/// Whether a header starts with an ID3v2 tag: `ID3`, version bytes other than `FF`, and a
/// size of four bytes below `0x80`.
pub open spec fn id3v2_header(h: Seq<u8>) -> bool {
    &&& h.len() >= 10
    &&& h[0] == 73 && h[1] == 68 && h[2] == 51
    &&& h[3] != 0xff && h[4] != 0xff
    &&& h[6] < 0x80 && h[7] < 0x80 && h[8] < 0x80 && h[9] < 0x80
}

/// Whether a header starts with an MPEG audio layer III frame header: an 11-bit sync, a
/// version other than reserved, layer III, a bitrate index other than free and bad, and a
/// sample rate index other than reserved.
pub open spec fn mp3_frame_header(h: Seq<u8>) -> bool {
    &&& h.len() >= 4
    &&& h[0] == 0xff
    &&& h[1] & 0xe0 == 0xe0
    &&& (h[1] >> 3) & 0x03 != 0x01
    &&& (h[1] >> 1) & 0x03 == 0x01
    &&& (h[2] >> 4) & 0x0f != 0x00
    &&& (h[2] >> 4) & 0x0f != 0x0f
    &&& (h[2] >> 2) & 0x03 != 0x03
}

/// The media format a file header shows: WAV (`RIFF`, then `WAVE` at byte 8), Ogg
/// (`OggS` and a zero version), MP3 (an ID3v2 tag or a frame header), or MPEG video (a
/// pack or sequence start code).
pub open spec fn media_format_of(h: Seq<u8>) -> Option<MediaFormat> {
    if h.len() >= 12 && h[0] == 82 && h[1] == 73 && h[2] == 70 && h[3] == 70 && h[8] == 87
        && h[9] == 65 && h[10] == 86 && h[11] == 69 {
        Some(MediaFormat::Wav)
    } else if h.len() >= 5 && h[0] == 79 && h[1] == 103 && h[2] == 103 && h[3] == 83 && h[4] == 0 {
        Some(MediaFormat::Ogg)
    } else if id3v2_header(h) || mp3_frame_header(h) {
        Some(MediaFormat::Mp3)
    } else if h.len() >= 4 && h[0] == 0 && h[1] == 0 && h[2] == 1 && (h[3] == 0xba || h[3] == 0xb3) {
        Some(MediaFormat::Mpeg)
    } else {
        None
    }
}

/// Whether a header starts with an ID3v2 tag.
pub fn has_id3v2_header(h: &[u8]) -> (r: bool)
    ensures
        r == id3v2_header(h@),
{
    h.len() >= 10 && h[0] == 73 && h[1] == 68 && h[2] == 51 && h[3] != 0xff && h[4] != 0xff
        && h[6] < 0x80 && h[7] < 0x80 && h[8] < 0x80 && h[9] < 0x80
}

/// Whether a header starts with an MPEG audio layer III frame header.
pub fn has_mp3_frame_header(h: &[u8]) -> (r: bool)
    ensures
        r == mp3_frame_header(h@),
{
    if h.len() < 4 {
        return false;
    }
    let version = (h[1] >> 3) & 0x03;
    let layer = (h[1] >> 1) & 0x03;
    let bitrate = (h[2] >> 4) & 0x0f;
    let sample_rate = (h[2] >> 2) & 0x03;
    h[0] == 0xff && h[1] & 0xe0 == 0xe0 && version != 0x01 && layer == 0x01 && bitrate != 0x00
        && bitrate != 0x0f && sample_rate != 0x03
}

/// The media format a file header shows.
pub fn media_format(h: &[u8]) -> (r: Option<MediaFormat>)
    ensures
        r == media_format_of(h@),
{
    if h.len() >= 12 && h[0] == 82 && h[1] == 73 && h[2] == 70 && h[3] == 70 && h[8] == 87 && h[9]
        == 65 && h[10] == 86 && h[11] == 69 {
        Some(MediaFormat::Wav)
    } else if h.len() >= 5 && h[0] == 79 && h[1] == 103 && h[2] == 103 && h[3] == 83 && h[4] == 0 {
        Some(MediaFormat::Ogg)
    } else if has_id3v2_header(h) || has_mp3_frame_header(h) {
        Some(MediaFormat::Mp3)
    } else if h.len() >= 4 && h[0] == 0 && h[1] == 0 && h[2] == 1 && (h[3] == 0xba || h[3] == 0xb3) {
        Some(MediaFormat::Mpeg)
    } else {
        None
    }
}

/// `nos`
pub open spec fn nos_word() -> Seq<u8> {
    seq![110u8, 111, 115]
}

/// `pck`
pub open spec fn pck_ext_word() -> Seq<u8> {
    seq![112u8, 99, 107]
}

/// The extension of a path, as Unix `Path::extension` finds it: what follows the last
/// `.` of the file name, when that `.` is not its first character.
pub open spec fn path_extension(path: Seq<char>) -> Option<Seq<char>> {
    match path_file_name(path) {
        Some(n) => {
            let d = crate::binary_payloads::last_dot(n, n.len() as int);
            if d > 0 {
                Some(n.skip(d + 1))
            } else {
                None
            }
        },
        None => None,
    }
}

/// Whether a scan should try a file as a data container: a `.nos` or `.pck` extension,
/// ignoring ASCII case.
pub open spec fn scannable_data_file(path: Seq<char>) -> bool {
    path_extension(path) matches Some(e) && (eq_ignore_ascii_case(e, nos_word()) || eq_ignore_ascii_case(e, pck_ext_word()))
}

/// Whether a scan should try a file as a data container.
pub fn is_scannable_data_file(path: &str) -> (r: bool)
    ensures
        r == scannable_data_file(path@),
{
    let n = match file_name_chars(path) {
        Some(n) => n,
        None => {
            return false;
        },
    };
    let mut i: usize = n.len();
    while i > 0 && n[i - 1] as u32 != 46
        invariant
            i <= n@.len(),
            crate::binary_payloads::last_dot(n@, n@.len() as int) == crate::binary_payloads::last_dot(n@, i as int),
        decreases i,
    {
        i = i - 1;
    }
    if i <= 1 {
        return false;
    }
    let ext = vstd::slice::slice_subrange(n.as_slice(), i, n.len());
    assert(ext@ =~= n@.skip(i as int));
    is_word(ext, &[110u8, 111, 115]) || is_word(ext, &[112u8, 99, 107])
}

/// `png`
pub open spec fn png_word() -> Seq<u8> {
    seq![112u8, 110, 103]
}

/// Whether a path's extension is `png`, ignoring ASCII case.
pub open spec fn png_extension(path: Seq<char>) -> bool {
    path_extension(path) matches Some(e) && eq_ignore_ascii_case(e, png_word())
}

/// Whether a path's extension is `png`, ignoring ASCII case.
pub fn has_png_extension(path: &str) -> (r: bool)
    ensures
        r == png_extension(path@),
{
    let n = match file_name_chars(path) {
        Some(n) => n,
        None => {
            return false;
        },
    };
    let mut i: usize = n.len();
    while i > 0 && n[i - 1] as u32 != 46
        invariant
            i <= n@.len(),
            crate::binary_payloads::last_dot(n@, n@.len() as int) == crate::binary_payloads::last_dot(n@, i as int),
        decreases i,
    {
        i = i - 1;
    }
    if i <= 1 {
        return false;
    }
    let ext = vstd::slice::slice_subrange(n.as_slice(), i, n.len());
    assert(ext@ =~= n@.skip(i as int));
    is_word(ext, &[112u8, 110, 103])
}

} // verus!
