//! The manifest-backed layout of an unpacked DelDX sound pack: one payload file per
//! entry, named `<index:06>__<escaped name>`, and a manifest that keeps the pack header
//! and the ordered payload file names, so that the pack rebuilds without decoding audio.
use vstd::prelude::*;

use crate::chartext::str_chars;
use crate::deldx::{DELDX_PACK_HEADER_LEN, DELDX_PACK_ROW_PREFIX_LEN};
use crate::hextext::{hex_decode, hex_encode, hex_lower, hex_pairs};
use crate::numtext::{nat_digits, push_decimal_u64};
use crate::paths::{
    escape_archive_name, escape_byte, escape_bytes, escaped_name, lemma_unescape_escaped_name, unescape_archive_name,
    unescape_from, ArchiveNameError,
};
use crate::textenc::{
    all_ascii, ascii_chars, chars_to_string, lemma_concat_ascii, lemma_nat_digits_ascii,
    lossy_string, utf8_lossy,
};

verus! {

/// Why an unpacked sound pack does not rebuild.
#[derive(Debug, Clone, Copy, PartialEq, Eq, Structural)]
pub enum SoundPackError {
    /// The manifest's `format` is not `sound`.
    UnsupportedFormat,
    /// The manifest's `version` is not 1.
    UnsupportedVersion { version: u32 },
    /// The header is not hexadecimal text.
    HeaderHex,
    /// The header does not decode to 28 bytes.
    HeaderLength { actual: usize },
    /// An entry file name does not start with its zero-padded position and `__`.
    MissingPrefix { position: usize },
    /// An entry file name has nothing after its prefix.
    MissingName { position: usize },
    /// An entry file name does not unescape.
    BadName { position: usize, error: ArchiveNameError },
    /// An entry name does not fit the row's name field.
    NameTooLong { position: usize },
    /// An entry names the manifest file itself.
    ManifestEntry,
    /// An entry is an absolute path.
    AbsoluteEntry,
    /// An entry is not a single file name.
    NotAFileName,
}

/// `sound`
pub open spec fn sound_format_word() -> Seq<char> {
    seq!['s', 'o', 'u', 'n', 'd']
}

/// `sound-pack.json`
pub open spec fn manifest_file_word() -> Seq<char> {
    seq!['s', 'o', 'u', 'n', 'd', '-', 'p', 'a', 'c', 'k', '.', 'j', 's', 'o', 'n']
}

/// The version of the manifest layout.
pub const SOUND_PACK_MANIFEST_VERSION: u32 = 1;

/// The `format` a sound pack manifest carries.
pub fn sound_pack_format() -> (r: String)
    ensures
        r@ == sound_format_word(),
{
    chars_to_string(&['s', 'o', 'u', 'n', 'd'])
}

/// The file name of the manifest in an unpacked sound pack.
pub fn sound_pack_manifest_file() -> (r: String)
    ensures
        r@ == manifest_file_word(),
{
    chars_to_string(&['s', 'o', 'u', 'n', 'd', '-', 'p', 'a', 'c', 'k', '.', 'j', 's', 'o', 'n'])
}

/// Checks a manifest's `format` and `version`.
pub fn validate_manifest_header(format: &str, version: u32) -> (r: Result<(), SoundPackError>)
    ensures
        format@ != sound_format_word() ==> r == Err::<(), SoundPackError>(SoundPackError::UnsupportedFormat),
        format@ == sound_format_word() && version != 1 ==> r == Err::<(), SoundPackError>(
            SoundPackError::UnsupportedVersion { version },
        ),
        format@ == sound_format_word() && version == 1 ==> r is Ok,
{
    let expected = sound_pack_format();
    if format.to_owned() != expected {
        return Err(SoundPackError::UnsupportedFormat);
    }
    if version != SOUND_PACK_MANIFEST_VERSION {
        return Err(SoundPackError::UnsupportedVersion { version });
    }
    Ok(())
}

/// The `header_hex` a manifest records for a pack header: the header with its reserved
/// bytes zeroed, as lowercase hexadecimal.
pub fn sound_pack_header_hex(header: [u8; 28]) -> (r: String)
    ensures
        r@ == ascii_chars(hex_lower(crate::deldx::normalize_header(header@))),
{
    let normalized = crate::deldx::normalize_deldx_pack_header_for_write(header);
    hex_encode(normalized.as_slice())
}

/// The pack header a manifest's `header_hex` stands for.
pub open spec fn manifest_header(header_hex: Seq<char>) -> Result<Seq<u8>, SoundPackError> {
    match hex_pairs(vstd::utf8::encode_utf8(header_hex)) {
        None => Err(SoundPackError::HeaderHex),
        Some(bytes) => if bytes.len() == 28 {
            Ok(bytes)
        } else {
            Err(SoundPackError::HeaderLength { actual: bytes.len() as usize })
        },
    }
}

/// Decodes a manifest's `header_hex` into the 28-byte pack header.
pub fn decode_manifest_header(header_hex: &str) -> (r: Result<[u8; 28], SoundPackError>)
    ensures
        match manifest_header(header_hex@) {
            Ok(bytes) => r matches Ok(h) && h@ == bytes,
            Err(e) => r == Err::<[u8; 28], SoundPackError>(e),
        },
{
    let bytes = match hex_decode(header_hex) {
        Some(b) => b,
        None => {
            return Err(SoundPackError::HeaderHex);
        },
    };
    if bytes.len() != DELDX_PACK_HEADER_LEN {
        return Err(SoundPackError::HeaderLength { actual: bytes.len() });
    }
    let mut h: [u8; 28] = [0u8; 28];
    let mut i: usize = 0;
    while i < 28
        invariant
            i <= 28,
            bytes@.len() == 28,
            forall|k: int| 0 <= k < i ==> h@[k] == bytes@[k],
        decreases 28 - i,
    {
        h.set(i, bytes[i]);
        i = i + 1;
    }
    assert(h@ =~= bytes@);
    Ok(h)
}

/// The decimal digits of `n`, zero-padded to at least six.
pub open spec fn padded6(n: nat) -> Seq<u8> {
    let d = nat_digits(n);
    if d.len() < 6 {
        Seq::new((6 - d.len()) as nat, |i: int| 48u8) + d
    } else {
        d
    }
}

/// The prefix of entry `position`'s file name: its zero-padded position and `__`.
pub open spec fn entry_prefix(position: nat) -> Seq<char> {
    ascii_chars(padded6(position) + seq![95u8, 95u8])
}

/// The file name of entry `index` with name `name`.
pub open spec fn payload_file_name(index: nat, name: Seq<char>) -> Seq<char> {
    entry_prefix(index) + escaped_name(name)
}

/// The prefix of entry `position`'s file name.
fn entry_prefix_chars(position: usize) -> (r: Vec<char>)
    ensures
        r@ == entry_prefix(position as nat),
{
    let mut digits: Vec<u8> = Vec::new();
    push_decimal_u64(&mut digits, position as u64);
    assert(digits@ =~= nat_digits(position as nat));
    let mut out: Vec<char> = Vec::new();
    let n = digits.len();
    let pad: usize = if n < 6 { 6 - n } else { 0 };
    let mut i: usize = 0;
    while i < pad
        invariant
            i <= pad,
            out@ == Seq::new(i as nat, |k: int| '0'),
        decreases pad - i,
    {
        out.push('0');
        i = i + 1;
        assert(out@ =~= Seq::new(i as nat, |k: int| '0'));
    }
    proof {
        lemma_nat_digits_ascii(position as nat);
    }
    let mut j: usize = 0;
    while j < n
        invariant
            j <= n,
            n == digits@.len(),
            all_ascii(digits@),
            out@ == Seq::new(pad as nat, |k: int| '0') + ascii_chars(digits@.take(j as int)),
        decreases n - j,
    {
        let b = digits[j];
        out.push(b as char);
        j = j + 1;
        assert(ascii_chars(digits@.take(j as int)) =~= ascii_chars(digits@.take(j - 1)).push(b as char));
        assert(out@ =~= Seq::new(pad as nat, |k: int| '0') + ascii_chars(digits@.take(j as int)));
    }
    out.push('_');
    out.push('_');
    assert(digits@.take(n as int) =~= digits@);
    assert(out@ =~= entry_prefix(position as nat));
    out
}

/// The file name under which entry `index`, named `name`, is unpacked:
/// `<index:06>__<escaped name>`.
pub fn sound_payload_file_name(index: usize, name: &str) -> (r: String)
    ensures
        r@ == payload_file_name(index as nat, name@),
{
    let mut cs = entry_prefix_chars(index);
    let escaped = escape_archive_name(name);
    let tail = str_chars(escaped.as_str());
    let mut i: usize = 0;
    let ghost head = cs@;
    while i < tail.len()
        invariant
            i <= tail@.len(),
            cs@ == head + tail@.take(i as int),
        decreases tail@.len() - i,
    {
        cs.push(tail[i]);
        i = i + 1;
        assert(cs@ =~= head + tail@.take(i as int));
    }
    assert(tail@.take(i as int) =~= tail@);
    chars_to_string(cs.as_slice())
}

/// The row prefix of a name: its byte length, its bytes, and zeros to the field's end.
pub open spec fn row_prefix_of(name: Seq<u8>) -> Seq<u8> {
    seq![name.len() as u8] + name + Seq::new((0x44 - 1 - name.len()) as nat, |i: int| 0u8)
}

/// The 68-byte row prefix that carries an entry's name: the name's UTF-8 length in the
/// first byte, then its bytes, zero-filled; a name of 68 bytes or more does not fit.
pub fn row_prefix_from_name(position: usize, name: &str) -> (r: Result<Vec<u8>, SoundPackError>)
    ensures
        ({
            let b = vstd::utf8::encode_utf8(name@);
            if b.len() >= 0x44 {
                r == Err::<Vec<u8>, SoundPackError>(SoundPackError::NameTooLong { position })
            } else {
                r matches Ok(p) && p@ == row_prefix_of(b)
            }
        }),
{
    let bytes = name.as_bytes();
    let n = bytes.len();
    if n >= DELDX_PACK_ROW_PREFIX_LEN {
        return Err(SoundPackError::NameTooLong { position });
    }
    let mut out: Vec<u8> = Vec::new();
    out.push(n as u8);
    let mut i: usize = 0;
    while i < n
        invariant
            n == bytes@.len(),
            n < 0x44,
            i <= n,
            out@ == seq![n as u8] + bytes@.take(i as int),
        decreases n - i,
    {
        out.push(bytes[i]);
        i = i + 1;
        assert(out@ =~= seq![n as u8] + bytes@.take(i as int));
    }
    let mut k: usize = 0;
    let fill = 0x44 - 1 - n;
    assert(bytes@.take(n as int) =~= bytes@);
    while k < fill
        invariant
            n == bytes@.len(),
            k <= fill,
            fill == 0x44 - 1 - n,
            out@ == seq![n as u8] + bytes@ + Seq::new(k as nat, |j: int| 0u8),
        decreases fill - k,
    {
        out.push(0u8);
        k = k + 1;
        assert(out@ =~= seq![n as u8] + bytes@ + Seq::new(k as nat, |j: int| 0u8));
    }
    Ok(out)
}

/// The position of the first `/` in `s`, or its length.
pub open spec fn first_slash(s: Seq<char>) -> int
    decreases s.len(),
{
    if s.len() == 0 {
        0
    } else if s[0] == '/' {
        0
    } else {
        1 + first_slash(s.drop_first())
    }
}

proof fn lemma_first_slash_bounds(s: Seq<char>)
    ensures
        0 <= first_slash(s) <= s.len(),
        forall|i: int| 0 <= i < first_slash(s) ==> s[i] != '/',
        first_slash(s) < s.len() ==> s[first_slash(s)] == '/',
    decreases s.len(),
{
    if s.len() > 0 && s[0] != '/' {
        lemma_first_slash_bounds(s.drop_first());
        assert forall|i: int| 0 <= i < first_slash(s) implies s[i] != '/' by {
            if i > 0 {
                assert(s[i] == s.drop_first()[i - 1]);
            }
        }
    }
}

/// The named components of a relative Unix path, as `Path::components` yields them
/// after its first: the `/`-separated pieces, without empty pieces and `.`.
pub open spec fn path_segments(s: Seq<char>) -> Seq<Seq<char>>
    decreases s.len(),
{
    let k = first_slash(s);
    if k < 0 || k > s.len() {
        Seq::empty()
    } else {
        let head = s.take(k);
        let rest = if k < s.len() {
            path_segments(s.skip(k + 1))
        } else {
            Seq::empty()
        };
        if head.len() == 0 || head == seq!['.'] {
            rest
        } else {
            seq![head] + rest
        }
    }
}

/// Whether a manifest entry is one plain file name: not the manifest itself, not
/// absolute, not starting with `.` as its own component, and exactly one named
/// component that is not `..`.
pub open spec fn is_plain_entry_name(entry: Seq<char>) -> bool {
    &&& entry != manifest_file_word()
    &&& !(entry.len() > 0 && entry[0] == '/')
    &&& !(entry == seq!['.'] || (entry.len() >= 2 && entry[0] == '.' && entry[1] == '/'))
    &&& path_segments(entry).len() == 1
    &&& path_segments(entry)[0] != seq!['.', '.']
}

/// What the check of a manifest entry name gives.
pub open spec fn entry_name_check(entry: Seq<char>) -> Result<(), SoundPackError> {
    if entry == manifest_file_word() {
        Err(SoundPackError::ManifestEntry)
    } else if entry.len() > 0 && entry[0] == '/' {
        Err(SoundPackError::AbsoluteEntry)
    } else if is_plain_entry_name(entry) {
        Ok(())
    } else {
        Err(SoundPackError::NotAFileName)
    }
}

/// The number of named components from position `from`, and where the first one is.
pub(crate) fn segments_from(s: &[char], from: usize) -> (r: (usize, usize, usize))
    requires
        from <= s@.len(),
    ensures
        r.0 == path_segments(s@.skip(from as int)).len(),
        r.0 <= s@.len() - from,
        r.0 >= 1 ==> from <= r.1 <= r.2 <= s@.len() && s@.subrange(r.1 as int, r.2 as int)
            == path_segments(s@.skip(from as int))[0],
    decreases s@.len() - from,
{
    let ghost t = s@.skip(from as int);
    proof {
        lemma_first_slash_bounds(t);
    }
    let mut k: usize = from;
    while k < s.len() && s[k] != '/'
        invariant
            from <= k <= s@.len(),
            t == s@.skip(from as int),
            forall|i: int| from <= i < k ==> s@[i] != '/',
            0 <= first_slash(t) <= t.len(),
            forall|i: int| 0 <= i < first_slash(t) ==> t[i] != '/',
            first_slash(t) < t.len() ==> t[first_slash(t)] == '/',
        decreases s@.len() - k,
    {
        k = k + 1;
    }
    assert(k - from == first_slash(t)) by {
        if k - from < first_slash(t) {
            assert(t[k - from] == s@[k as int]);
        }
        if k - from > first_slash(t) {
            assert(t[first_slash(t)] == s@[from + first_slash(t)]);
        }
    }
    let head_len = k - from;
    let is_dot = head_len == 1 && s[from] == '.';
    let ghost head = t.take(first_slash(t));
    assert(head =~= s@.subrange(from as int, k as int));
    proof {
        if is_dot {
            assert(head =~= seq!['.']);
        }
        if head == seq!['.'] {
            assert(head.len() == 1 && head[0] == seq!['.'][0]);
            assert(head[0] == s@[from as int]);
        }
    }
    let (rc, rb, re) = if k < s.len() {
        assert(t.skip(first_slash(t) + 1) =~= s@.skip(k + 1));
        segments_from(s, k + 1)
    } else {
        (0, 0, 0)
    };
    if head_len == 0 || is_dot {
        (rc, rb, re)
    } else {
        let count = rc + 1;
        (count, from, k)
    }
}

/// Checks that a manifest entry names one plain file in the unpacked directory.
pub fn check_manifest_entry_path(entry: &str) -> (r: Result<(), SoundPackError>)
    ensures
        r == entry_name_check(entry@),
{
    let cs = str_chars(entry);
    let m = sound_pack_manifest_file();
    if entry.to_owned() == m {
        return Err(SoundPackError::ManifestEntry);
    }
    let n = cs.len();
    if n > 0 && cs[0] == '/' {
        return Err(SoundPackError::AbsoluteEntry);
    }
    if (n == 1 && cs[0] == '.') || (n >= 2 && cs[0] == '.' && cs[1] == '/') {
        proof {
            if n == 1 {
                assert(cs@ =~= seq!['.']);
            }
        }
        return Err(SoundPackError::NotAFileName);
    }
    assert(!(cs@ == seq!['.'])) by {
        if cs@ == seq!['.'] {
            assert(cs@.len() == 1 && cs@[0] == '.');
        }
    }
    assert(cs@.skip(0) =~= cs@);
    let (count, b, e) = segments_from(cs.as_slice(), 0);
    if count != 1 {
        return Err(SoundPackError::NotAFileName);
    }
    let ghost seg = cs@.subrange(b as int, e as int);
    let is_parent = e - b == 2 && cs[b] == '.' && cs[b + 1] == '.';
    proof {
        if is_parent {
            assert(seg =~= seq!['.', '.']);
        }
        if seg == seq!['.', '.'] {
            assert(seg.len() == 2 && seg[0] == seq!['.', '.'][0] && seg[1] == seq!['.', '.'][1]);
            assert(seg[0] == cs@[b as int] && seg[1] == cs@[b + 1]);
        }
    }
    if is_parent {
        return Err(SoundPackError::NotAFileName);
    }
    Ok(())
}

/// The text that unescaped name bytes become: their characters when they are UTF-8,
/// else the lossy decoding.
pub open spec fn name_text(bytes: Seq<u8>) -> Seq<char> {
    if vstd::utf8::valid_utf8(bytes) {
        vstd::utf8::decode_utf8(bytes)
    } else {
        utf8_lossy(bytes)
    }
}

/// The entry name that the file name of entry `position` carries.
pub open spec fn inferred_name(position: usize, entry: Seq<char>) -> Result<Seq<char>, SoundPackError> {
    let p = entry_prefix(position as nat);
    if !(p.len() <= entry.len() && entry.take(p.len() as int) == p) {
        Err(SoundPackError::MissingPrefix { position })
    } else if entry.len() == p.len() {
        Err(SoundPackError::MissingName { position })
    } else {
        match unescape_from(vstd::utf8::encode_utf8(entry.skip(p.len() as int)), 0) {
            Ok(bytes) => Ok(name_text(bytes)),
            Err(e) => Err(SoundPackError::BadName { position, error: e }),
        }
    }
}

/// Reads back the archived name of entry `position` from its unpacked file name.
pub fn infer_sound_name_from_entry_file_name(position: usize, entry: &str) -> (r: Result<String, SoundPackError>)
    ensures
        match inferred_name(position, entry@) {
            Ok(name) => r matches Ok(s) && s@ == name,
            Err(e) => r == Err::<String, SoundPackError>(e),
        },
{
    let cs = str_chars(entry);
    let p = entry_prefix_chars(position);
    let n = cs.len();
    let m = p.len();
    if m > n {
        return Err(SoundPackError::MissingPrefix { position });
    }
    let mut i: usize = 0;
    while i < m
        invariant
            m == p@.len(),
            m <= n,
            n == cs@.len(),
            cs@ == entry@,
            p@ == entry_prefix(position as nat),
            i <= m,
            cs@.take(i as int) == p@.take(i as int),
        decreases m - i,
    {
        if cs[i] != p[i] {
            assert(cs@.take(m as int)[i as int] == cs@[i as int]);
            assert(cs@.take(m as int) != p@);
            return Err(SoundPackError::MissingPrefix { position });
        }
        i = i + 1;
        assert(cs@.take(i as int) =~= p@.take(i as int));
    }
    assert(p@.take(m as int) =~= p@);
    if n == m {
        return Err(SoundPackError::MissingName { position });
    }
    let rest = chars_to_string(vstd::slice::slice_subrange(cs.as_slice(), m, n));
    assert(rest@ =~= cs@.skip(m as int));
    match unescape_archive_name(rest.as_str()) {
        Ok(name) => Ok(name),
        Err(e) => Err(SoundPackError::BadName { position, error: e }),
    }
}

/// What rebuilding entry `position` from its manifest file name gives: the name read
/// back from the file name, then its row prefix, then the check that the file name is
/// one plain file.
pub open spec fn manifest_entry_prefix(position: usize, entry: Seq<char>) -> Result<Seq<u8>, SoundPackError> {
    match inferred_name(position, entry) {
        Err(e) => Err(e),
        Ok(name) => {
            let b = vstd::utf8::encode_utf8(name);
            if b.len() >= 0x44 {
                Err(SoundPackError::NameTooLong { position })
            } else {
                match entry_name_check(entry) {
                    Err(e) => Err(e),
                    Ok(_) => Ok(row_prefix_of(b)),
                }
            }
        },
    }
}

/// The row prefix of manifest entry `position`, checked as a rebuild checks it.
pub fn manifest_entry_row_prefix(position: usize, entry: &str) -> (r: Result<Vec<u8>, SoundPackError>)
    ensures
        match manifest_entry_prefix(position, entry@) {
            Ok(p) => r matches Ok(v) && v@ == p,
            Err(e) => r == Err::<Vec<u8>, SoundPackError>(e),
        },
{
    let name = match infer_sound_name_from_entry_file_name(position, entry) {
        Ok(n) => n,
        Err(e) => {
            return Err(e);
        },
    };
    let prefix = match row_prefix_from_name(position, name.as_str()) {
        Ok(p) => p,
        Err(e) => {
            return Err(e);
        },
    };
    match check_manifest_entry_path(entry) {
        Ok(()) => Ok(prefix),
        Err(e) => Err(e),
    }
}

/// The file name an entry is unpacked under reads back as the entry's name, for every
/// position and every non-empty name.
pub proof fn lemma_payload_file_name_round_trip(position: usize, name: Seq<char>)
    requires
        name.len() > 0,
    ensures
        inferred_name(position, payload_file_name(position as nat, name)) == Ok::<Seq<char>, SoundPackError>(name),
{
    let p = entry_prefix(position as nat);
    let e = escaped_name(name);
    let f = payload_file_name(position as nat, name);
    assert(f.take(p.len() as int) =~= p);
    assert(f.skip(p.len() as int) =~= e);
    lemma_unescape_escaped_name(name);
    vstd::utf8::encode_utf8_valid_utf8(name);
    assert(e.len() > 0);
}

proof fn lemma_escape_bytes_no_slash(bs: Seq<u8>)
    ensures
        forall|i: int| 0 <= i < escape_bytes(bs).len() ==> #[trigger] escape_bytes(bs)[i] != 47u8,
    decreases bs.len(),
{
    if bs.len() > 0 {
        lemma_escape_bytes_no_slash(bs.drop_last());
        let a = escape_bytes(bs.drop_last());
        let b = escape_byte(bs.last());
        assert forall|i: int| 0 <= i < escape_bytes(bs).len() implies #[trigger] escape_bytes(bs)[i] != 47u8 by {
            assert(escape_bytes(bs) == a + b);
            if i >= a.len() {
                assert(escape_bytes(bs)[i] == b[i - a.len()]);
            } else {
                assert(escape_bytes(bs)[i] == a[i]);
            }
        }
    }
}

proof fn lemma_no_slash_first_slash(s: Seq<char>)
    requires
        forall|i: int| 0 <= i < s.len() ==> s[i] != '/',
    ensures
        first_slash(s) == s.len(),
    decreases s.len(),
{
    if s.len() > 0 {
        assert forall|i: int| 0 <= i < s.drop_first().len() implies s.drop_first()[i] != '/' by {
            assert(s.drop_first()[i] == s[i + 1]);
        }
        lemma_no_slash_first_slash(s.drop_first());
    }
}

/// The file name an entry is unpacked under is always one plain file name, so a
/// rebuild accepts it.
pub proof fn lemma_payload_file_name_is_plain(position: usize, name: Seq<char>)
    ensures
        entry_name_check(payload_file_name(position as nat, name)) == Ok::<(), SoundPackError>(()),
{
    let d = nat_digits(position as nat);
    crate::numtext::lemma_nat_digits_value(position as nat);
    let pd = padded6(position as nat);
    assert(pd.len() > 0 && crate::numtext::is_digit(pd[0])) by {
        if d.len() < 6 {
            assert(pd[0] == 48u8);
        } else {
            assert(pd[0] == d[0]);
        }
    }
    let f = payload_file_name(position as nat, name);
    let bs = vstd::utf8::encode_utf8(name);
    lemma_escape_bytes_no_slash(bs);
    let tail = escaped_name(name);
    assert forall|i: int| 0 <= i < tail.len() implies tail[i] != '/' by {
        if escape_bytes(bs).len() == 0 {
            assert(tail == ascii_chars(crate::paths::unnamed_word()));
        } else {
            assert(tail[i] == escape_bytes(bs)[i] as char);
            assert(escape_bytes(bs)[i] != 47u8);
        }
    }
    let pre = entry_prefix(position as nat);
    assert forall|i: int| 0 <= i < pre.len() implies pre[i] != '/' by {
        if i < pd.len() {
            assert(pre[i] == pd[i] as char);
            if d.len() < 6 && i < 6 - d.len() {
                assert(pd[i] == 48u8);
            } else if d.len() < 6 {
                assert(pd[i] == d[i - (6 - d.len())]);
                assert(crate::numtext::is_digit(d[i - (6 - d.len())]));
            } else {
                assert(pd[i] == d[i]);
                assert(crate::numtext::is_digit(d[i]));
            }
        } else {
            assert(pre[i] == '_');
        }
    }
    assert forall|i: int| 0 <= i < f.len() implies f[i] != '/' by {
        if i < pre.len() {
            assert(f[i] == pre[i]);
        } else {
            assert(f[i] == tail[i - pre.len()]);
        }
    }
    lemma_no_slash_first_slash(f);
    assert(f[0] == pd[0] as char);
    assert(f.take(f.len() as int) =~= f);
    assert(path_segments(f) =~= seq![f]) by {
        assert(f != seq!['.']) by {
            if f == seq!['.'] {
                assert(f[0] == '.');
            }
        }
    }
    assert(f != seq!['.', '.']) by {
        if f == seq!['.', '.'] {
            assert(f[0] == '.');
        }
    }
    assert(f != manifest_file_word()) by {
        if f == manifest_file_word() {
            assert(f[0] == 's');
        }
    }
}

/// The `header_hex` that unpacking records decodes, on rebuilding, to the pack's header
/// with its reserved bytes zeroed.
pub proof fn lemma_manifest_header_round_trip(header: Seq<u8>)
    requires
        header.len() == 28,
    ensures
        manifest_header(ascii_chars(hex_lower(crate::deldx::normalize_header(header)))) == Ok::<Seq<u8>, SoundPackError>(
            crate::deldx::normalize_header(header),
        ),
{
    crate::hextext::lemma_hex_round_trip(crate::deldx::normalize_header(header));
}

} // verus!
