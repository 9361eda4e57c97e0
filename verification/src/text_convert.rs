//! Family-aware conversion policy for named-record text archives: which family an
//! archive's file name and records identify, the code page its records are read in,
//! and where each record is written. Every record is checked before any output is made.
use vstd::prelude::*;

use crate::binary_preset::path_file_stem_chars;
use crate::chartext::{str_chars, text_eq_ignore_case, texts_eq_ignore_ascii_case};
use crate::paths::{escape_archive_name, escaped_name, path_file_stem};
use crate::structured_text::{
    is_minigame_name, is_minigame_word_list, resolve_structured_format, encoding_for_locale, language_locale, language_locale_spec, locale_encoding, lower_text,
    lower_text_exec, structured_format, GtdNameKind, StructuredFormatError, TextEncoding,
    TextFormatArg,
};
use crate::text_pack::unicode_lowercase;
use crate::text_archive::{payload_kind_of, text_records_view, TextNosArchive, TextPayloadKind, TextRecordView};

verus! {

/// A family of named-record text archives.
#[derive(Debug, Clone, Copy, PartialEq, Eq, Structural)]
pub enum TextArchiveFamily {
    Gtd,
    Lang,
    Cli,
    Etc,
}

/// How converted records are written.
#[derive(Debug, Clone, Copy, PartialEq, Eq, Structural)]
pub enum TextArchiveOutputMode {
    /// One structured document per record.
    Json,
    /// The decoded text of each record.
    PlainText,
}

impl TextArchiveFamily {
    /// The family's archive name.
    pub fn name(self) -> (r: &'static str)
        ensures
            r == match self {
                TextArchiveFamily::Gtd => "NSgtdData",
                TextArchiveFamily::Lang => "NSlangData",
                TextArchiveFamily::Cli => "NScliData",
                TextArchiveFamily::Etc => "NSetcData",
            },
    {
        match self {
            TextArchiveFamily::Gtd => "NSgtdData",
            TextArchiveFamily::Lang => "NSlangData",
            TextArchiveFamily::Cli => "NScliData",
            TextArchiveFamily::Etc => "NSetcData",
        }
    }

    /// The structured format of the family's records.
    pub fn format(self) -> (r: TextFormatArg)
        ensures
            r == family_format(self),
    {
        match self {
            TextArchiveFamily::Gtd => TextFormatArg::Gtd,
            TextArchiveFamily::Lang => TextFormatArg::Lang,
            TextArchiveFamily::Cli => TextFormatArg::Cli,
            TextArchiveFamily::Etc => TextFormatArg::Etc,
        }
    }
}

/// The structured format of a family's records.
pub open spec fn family_format(f: TextArchiveFamily) -> TextFormatArg {
    match f {
        TextArchiveFamily::Gtd => TextFormatArg::Gtd,
        TextArchiveFamily::Lang => TextFormatArg::Lang,
        TextArchiveFamily::Cli => TextFormatArg::Cli,
        TextArchiveFamily::Etc => TextFormatArg::Etc,
    }
}

/// The family whose records have a structured format; `Auto` never reaches it.
pub open spec fn format_family(f: TextFormatArg) -> TextArchiveFamily {
    match f {
        TextFormatArg::Lang => TextArchiveFamily::Lang,
        TextFormatArg::Cli => TextArchiveFamily::Cli,
        TextFormatArg::Etc => TextArchiveFamily::Etc,
        _ => TextArchiveFamily::Gtd,
    }
}

/// The family whose records have a resolved structured format.
pub fn family_for_format(format: TextFormatArg) -> (r: TextArchiveFamily)
    requires
        format != TextFormatArg::Auto,
    ensures
        r == format_family(format),
        family_format(r) == format,
{
    match format {
        TextFormatArg::Lang => TextArchiveFamily::Lang,
        TextFormatArg::Cli => TextArchiveFamily::Cli,
        TextFormatArg::Etc => TextArchiveFamily::Etc,
        _ => TextArchiveFamily::Gtd,
    }
}

/// Why a text archive does not convert.
#[derive(Debug, Clone, PartialEq, Eq)]
pub enum TextConvertError {
    /// A code page was given for plain-text output.
    EncodingWithPlainText,
    /// The archive's file name ends in `_` with no locale.
    EmptyArchiveLocale,
    /// A record's name gives no structured format.
    RecordFormat { index: usize, error: StructuredFormatError },
    /// A record belongs to another family than the archive.
    FamilyMismatch { index: usize, record_family: TextArchiveFamily, archive_family: TextArchiveFamily },
    /// An `NSetc` record's payload is of the wrong kind.
    NsetcKind { index: usize, expected: TextPayloadKind, actual: TextPayloadKind },
    /// Two language records name different locales.
    LocaleConflict { index: usize, locale: String, expected: String },
    /// A record's escaped name has no file stem to name its document.
    NoOutputStem { index: usize },
    /// Two records convert to the same file name, ignoring case.
    OutputCollision { previous: usize, index: usize },
    /// An archive with no records and no family name.
    UnidentifiedEmptyArchive,
    /// The archive's file name and its records name different locales.
    ArchiveLocaleConflict { index: usize, named: String, records: String },
    /// A code page was given for `NSgtdData`, whose records may differ.
    EncodingWithGtd,
    /// No code page for an `NSlangData` archive.
    MissingLangEncoding,
    /// No code page for an `NScliData` archive.
    MissingCliEncoding,
}

/// What an archive's file name says of it.
#[derive(Debug)]
pub struct NamedTextArchive {
    pub family: TextArchiveFamily,
    pub locale: Option<String>,
    pub encoding: Option<TextEncoding>,
}

/// The mathematical content of a named archive.
pub struct NamedView {
    pub family: TextArchiveFamily,
    pub locale: Option<Seq<char>>,
    pub encoding: Option<TextEncoding>,
}

impl View for NamedTextArchive {
    type V = NamedView;

    open spec fn view(&self) -> NamedView {
        NamedView {
            family: self.family,
            locale: match self.locale {
                Some(l) => Some(l@),
                None => None,
            },
            encoding: self.encoding,
        }
    }
}

pub open spec fn nsgtddata() -> Seq<char> {
    seq!['n', 's', 'g', 't', 'd', 'd', 'a', 't', 'a']
}

pub open spec fn nslangdata() -> Seq<char> {
    seq!['n', 's', 'l', 'a', 'n', 'g', 'd', 'a', 't', 'a']
}

pub open spec fn nsclidata() -> Seq<char> {
    seq!['n', 's', 'c', 'l', 'i', 'd', 'a', 't', 'a']
}

pub open spec fn nsetcdata() -> Seq<char> {
    seq!['n', 's', 'e', 't', 'c', 'd', 'a', 't', 'a']
}

/// The archive a locale-suffixed name stands for.
pub open spec fn locale_named(family: TextArchiveFamily, locale: Seq<char>) -> Result<Option<NamedView>, TextConvertError> {
    if locale.len() == 0 {
        Err(TextConvertError::EmptyArchiveLocale)
    } else {
        Ok(Some(NamedView { family, locale: Some(locale), encoding: locale_encoding(locale) }))
    }
}

/// What an archive's file stem, ignoring ASCII case, says of it: `NSgtdData`,
/// `NSlangData`, `NScliData` (EUC-KR) and `NSetcData` (EUC-KR) name their families;
/// `NSlangData_<locale>` and `NScliData_<locale>` add a locale and its code page.
pub open spec fn named_archive(path: Seq<char>) -> Result<Option<NamedView>, TextConvertError> {
    match path_file_stem(path) {
        None => Ok(None),
        Some(stem) => {
            let lower = lower_text(stem);
            if lower == nsgtddata() {
                Ok(Some(NamedView { family: TextArchiveFamily::Gtd, locale: None, encoding: None }))
            } else if lower == nslangdata() {
                Ok(Some(NamedView { family: TextArchiveFamily::Lang, locale: None, encoding: None }))
            } else if lower == nsclidata() {
                Ok(Some(NamedView { family: TextArchiveFamily::Cli, locale: None, encoding: Some(TextEncoding::EucKr) }))
            } else if lower == nsetcdata() {
                Ok(Some(NamedView { family: TextArchiveFamily::Etc, locale: None, encoding: Some(TextEncoding::EucKr) }))
            } else if lower.len() >= 11 && lower.take(11) == nslangdata().push('_') {
                locale_named(TextArchiveFamily::Lang, lower.skip(11))
            } else if lower.len() >= 10 && lower.take(10) == nsclidata().push('_') {
                locale_named(TextArchiveFamily::Cli, lower.skip(10))
            } else {
                Ok(None)
            }
        },
    }
}

/// Whether two character slices are equal.
fn chars_eq(a: &[char], b: &[char]) -> (r: bool)
    ensures
        r == (a@ == b@),
{
    if a.len() != b.len() {
        return false;
    }
    let mut i: usize = 0;
    while i < a.len()
        invariant
            a@.len() == b@.len(),
            i <= a@.len(),
            forall|k: int| 0 <= k < i ==> a@[k] == b@[k],
        decreases a@.len() - i,
    {
        if a[i] != b[i] {
            return false;
        }
        i = i + 1;
    }
    assert(a@ =~= b@);
    true
}

/// Whether `a` starts with `b`.
fn chars_start_with(a: &[char], b: &[char]) -> (r: bool)
    ensures
        r == (a@.len() >= b@.len() && a@.take(b@.len() as int) == b@),
{
    if a.len() < b.len() {
        return false;
    }
    let head = vstd::slice::slice_subrange(a, 0, b.len());
    assert(head@ =~= a@.take(b@.len() as int));
    chars_eq(head, b)
}

/// What an archive's file name says of its family, locale and code page.
pub fn named_text_archive(path: &str) -> (r: Result<Option<NamedTextArchive>, TextConvertError>)
    ensures
        match named_archive(path@) {
            Ok(None) => r matches Ok(None),
            Ok(Some(v)) => r matches Ok(Some(n)) && n@ == v,
            Err(e) => r == Err::<Option<NamedTextArchive>, TextConvertError>(e),
        },
{
    let cs = str_chars(path);
    let stem = match path_file_stem_chars(cs.as_slice()) {
        Some(s) => s,
        None => {
            return Ok(None);
        },
    };
    let lower = lower_text_exec(stem.as_slice());
    let gtd = ['n', 's', 'g', 't', 'd', 'd', 'a', 't', 'a'];
    let lang = ['n', 's', 'l', 'a', 'n', 'g', 'd', 'a', 't', 'a'];
    let cli = ['n', 's', 'c', 'l', 'i', 'd', 'a', 't', 'a'];
    let etc = ['n', 's', 'e', 't', 'c', 'd', 'a', 't', 'a'];
    let lang_ = ['n', 's', 'l', 'a', 'n', 'g', 'd', 'a', 't', 'a', '_'];
    let cli_ = ['n', 's', 'c', 'l', 'i', 'd', 'a', 't', 'a', '_'];
    assert(gtd@ == nsgtddata());
    assert(lang@ == nslangdata());
    assert(cli@ == nsclidata());
    assert(etc@ == nsetcdata());
    assert(lang_@ =~= nslangdata().push('_'));
    assert(cli_@ =~= nsclidata().push('_'));
    if chars_eq(lower.as_slice(), &gtd) {
        Ok(Some(NamedTextArchive { family: TextArchiveFamily::Gtd, locale: None, encoding: None }))
    } else if chars_eq(lower.as_slice(), &lang) {
        Ok(Some(NamedTextArchive { family: TextArchiveFamily::Lang, locale: None, encoding: None }))
    } else if chars_eq(lower.as_slice(), &cli) {
        Ok(Some(NamedTextArchive { family: TextArchiveFamily::Cli, locale: None, encoding: Some(TextEncoding::EucKr) }))
    } else if chars_eq(lower.as_slice(), &etc) {
        Ok(Some(NamedTextArchive { family: TextArchiveFamily::Etc, locale: None, encoding: Some(TextEncoding::EucKr) }))
    } else if chars_start_with(lower.as_slice(), &lang_) {
        locale_named_archive(TextArchiveFamily::Lang, vstd::slice::slice_subrange(lower.as_slice(), 11, lower.len()))
    } else if chars_start_with(lower.as_slice(), &cli_) {
        locale_named_archive(TextArchiveFamily::Cli, vstd::slice::slice_subrange(lower.as_slice(), 10, lower.len()))
    } else {
        Ok(None)
    }
}

/// The archive a locale-suffixed file name stands for.
fn locale_named_archive(family: TextArchiveFamily, locale: &[char]) -> (r: Result<Option<NamedTextArchive>, TextConvertError>)
    ensures
        match locale_named(family, locale@) {
            Ok(None) => r matches Ok(None),
            Ok(Some(v)) => r matches Ok(Some(n)) && n@ == v,
            Err(e) => r == Err::<Option<NamedTextArchive>, TextConvertError>(e),
        },
{
    if locale.len() == 0 {
        return Err(TextConvertError::EmptyArchiveLocale);
    }
    let l = crate::textenc::chars_to_string(locale);
    let encoding = encoding_for_locale(l.as_str());
    Ok(Some(NamedTextArchive { family, locale: Some(l), encoding }))
}

/// The `.json` suffix of structured documents.
pub open spec fn json_suffix() -> Seq<char> {
    seq!['.', 'j', 's', 'o', 'n']
}

/// The file a record converts to: its escaped name for plain text; the escaped name's
/// file stem and `.json` for a structured document, when that stem is not empty.
pub open spec fn converted_path(name: Seq<char>, mode: TextArchiveOutputMode) -> Option<Seq<char>> {
    let e = escaped_name(name);
    if mode == TextArchiveOutputMode::PlainText {
        Some(e)
    } else {
        match path_file_stem(e) {
            Some(stem) => if stem.len() > 0 {
                Some(stem + json_suffix())
            } else {
                None
            },
            None => None,
        }
    }
}

/// The file a record converts to.
pub fn converted_output_path(name: &str, mode: TextArchiveOutputMode) -> (r: Option<String>)
    ensures
        match converted_path(name@, mode) {
            Some(p) => r matches Some(s) && s@ == p,
            None => r is None,
        },
{
    let escaped = escape_archive_name(name);
    if mode == TextArchiveOutputMode::PlainText {
        return Some(escaped);
    }
    let cs = str_chars(escaped.as_str());
    let mut stem = match path_file_stem_chars(cs.as_slice()) {
        Some(s) => s,
        None => {
            return None;
        },
    };
    if stem.len() == 0 {
        return None;
    }
    let ghost head = stem@;
    stem.push('.');
    stem.push('j');
    stem.push('s');
    stem.push('o');
    stem.push('n');
    assert(stem@ =~= head + json_suffix());
    Some(crate::textenc::chars_to_string(stem.as_slice()))
}

/// The payload kind an `NSetc` record must have: DAT for `MiniGame6WordData.dat`, LST
/// for `TabooStr.lst`.
pub open spec fn nsetc_expected_kind(name: Seq<char>) -> TextPayloadKind {
    if is_minigame_name(name) {
        TextPayloadKind::Dat
    } else {
        TextPayloadKind::List
    }
}

/// The mathematical content of a conversion error.
pub enum ConvertErrorView {
    EncodingWithPlainText,
    EmptyArchiveLocale,
    RecordFormat { index: usize, error: StructuredFormatError },
    FamilyMismatch { index: usize, record_family: TextArchiveFamily, archive_family: TextArchiveFamily },
    NsetcKind { index: usize, expected: TextPayloadKind, actual: TextPayloadKind },
    LocaleConflict { index: usize, locale: Seq<char>, expected: Seq<char> },
    NoOutputStem { index: usize },
    OutputCollision { previous: usize, index: usize },
    UnidentifiedEmptyArchive,
    ArchiveLocaleConflict { index: usize, named: Seq<char>, records: Seq<char> },
    EncodingWithGtd,
    MissingLangEncoding,
    MissingCliEncoding,
}

impl View for TextConvertError {
    type V = ConvertErrorView;

    open spec fn view(&self) -> ConvertErrorView {
        match *self {
            TextConvertError::EncodingWithPlainText => ConvertErrorView::EncodingWithPlainText,
            TextConvertError::EmptyArchiveLocale => ConvertErrorView::EmptyArchiveLocale,
            TextConvertError::RecordFormat { index, error } => ConvertErrorView::RecordFormat { index, error },
            TextConvertError::FamilyMismatch { index, record_family, archive_family } =>
                ConvertErrorView::FamilyMismatch { index, record_family, archive_family },
            TextConvertError::NsetcKind { index, expected, actual } => ConvertErrorView::NsetcKind { index, expected, actual },
            TextConvertError::LocaleConflict { index, locale, expected } =>
                ConvertErrorView::LocaleConflict { index, locale: locale@, expected: expected@ },
            TextConvertError::NoOutputStem { index } => ConvertErrorView::NoOutputStem { index },
            TextConvertError::OutputCollision { previous, index } => ConvertErrorView::OutputCollision { previous, index },
            TextConvertError::UnidentifiedEmptyArchive => ConvertErrorView::UnidentifiedEmptyArchive,
            TextConvertError::ArchiveLocaleConflict { index, named, records } =>
                ConvertErrorView::ArchiveLocaleConflict { index, named: named@, records: records@ },
            TextConvertError::EncodingWithGtd => ConvertErrorView::EncodingWithGtd,
            TextConvertError::MissingLangEncoding => ConvertErrorView::MissingLangEncoding,
            TextConvertError::MissingCliEncoding => ConvertErrorView::MissingCliEncoding,
        }
    }
}

/// What is known after checking a prefix of the records: the family so far, the first
/// language locale with its record, and each record's output file.
pub struct ScanView {
    pub family: Option<TextArchiveFamily>,
    pub locale: Option<(Seq<char>, usize)>,
    pub paths: Seq<Seq<char>>,
}

/// The record-name table's kind for record `i`.
pub open spec fn gtd_at(g: Seq<Option<GtdNameKind>>, i: int) -> Option<GtdNameKind> {
    if 0 <= i < g.len() {
        g[i]
    } else {
        None
    }
}

/// The first earlier output file whose lowercase form is `key`.
pub open spec fn first_same_key(paths: Seq<Seq<char>>, key: Seq<char>, j: int) -> Option<int>
    decreases paths.len() - j,
{
    if j < 0 || j >= paths.len() {
        None
    } else if unicode_lowercase(paths[j]) == key {
        Some(j)
    } else {
        first_same_key(paths, key, j + 1)
    }
}

/// Checks record `i` after the records before it: its structured format from its name,
/// its family against the archive's, an `NSetc` record's payload kind, a language
/// record's locale against the first one, and its output file against the earlier ones.
pub open spec fn scan_step(
    st: ScanView,
    r: TextRecordView,
    g: Option<GtdNameKind>,
    i: usize,
    mode: TextArchiveOutputMode,
) -> Result<ScanView, ConvertErrorView> {
    let kind = payload_kind_of(r.packed_flag, r.name);
    match structured_format(r.name, kind, TextFormatArg::Auto, g) {
        Err(e) => Err(ConvertErrorView::RecordFormat { index: i, error: e }),
        Ok(f) => {
            let rf = format_family(f);
            if st.family is Some && st.family != Some(rf) {
                Err(ConvertErrorView::FamilyMismatch { index: i, record_family: rf, archive_family: st.family->Some_0 })
            } else if rf == TextArchiveFamily::Etc && kind != nsetc_expected_kind(r.name) {
                Err(ConvertErrorView::NsetcKind { index: i, expected: nsetc_expected_kind(r.name), actual: kind })
            } else {
                let loc = language_locale_spec(r.name)->Some_0;
                if rf == TextArchiveFamily::Lang && st.locale is Some && !texts_eq_ignore_ascii_case(loc, st.locale->Some_0.0) {
                    Err(ConvertErrorView::LocaleConflict { index: i, locale: loc, expected: st.locale->Some_0.0 })
                } else {
                    let locale = if rf == TextArchiveFamily::Lang && st.locale is None {
                        Some((loc, i))
                    } else {
                        st.locale
                    };
                    match converted_path(r.name, mode) {
                        None => Err(ConvertErrorView::NoOutputStem { index: i }),
                        Some(p) => match first_same_key(st.paths, unicode_lowercase(p), 0) {
                            Some(j) => Err(ConvertErrorView::OutputCollision { previous: j as usize, index: i }),
                            None => Ok(ScanView { family: Some(rf), locale, paths: st.paths.push(p) }),
                        },
                    }
                }
            }
        },
    }
}

/// The check of the first `k` records, starting from the family the file name gives.
pub open spec fn scan_records(
    rs: Seq<TextRecordView>,
    g: Seq<Option<GtdNameKind>>,
    named_family: Option<TextArchiveFamily>,
    mode: TextArchiveOutputMode,
    k: int,
) -> Result<ScanView, ConvertErrorView>
    decreases k,
{
    if k <= 0 {
        Ok(ScanView { family: named_family, locale: None, paths: Seq::empty() })
    } else {
        match scan_records(rs, g, named_family, mode, k - 1) {
            Err(e) => Err(e),
            Ok(st) => scan_step(st, rs[k - 1], gtd_at(g, k - 1), (k - 1) as usize, mode),
        }
    }
}

/// A checked conversion: the family, the output mode, the code page records are read
/// in, and each record's output file, in record order.
pub struct PlanView {
    pub family: TextArchiveFamily,
    pub output_mode: TextArchiveOutputMode,
    pub encoding: Option<TextEncoding>,
    pub paths: Seq<Seq<char>>,
}

/// The code page a conversion reads records in: none for plain text or `NSgtdData`;
/// for `NSlangData` the given one, else the file name's, else that of the records'
/// locale; for `NScliData` the given one, else the file name's; for `NSetcData` the
/// given one, else EUC-KR.
pub open spec fn conversion_encoding(
    mode: TextArchiveOutputMode,
    family: TextArchiveFamily,
    explicit: Option<TextEncoding>,
    named: Option<NamedView>,
    locale: Option<(Seq<char>, usize)>,
) -> Result<Option<TextEncoding>, ConvertErrorView> {
    let named_enc = match named {
        Some(n) => n.encoding,
        None => None,
    };
    if mode == TextArchiveOutputMode::PlainText || family == TextArchiveFamily::Gtd {
        Ok(None)
    } else {
        match family {
            TextArchiveFamily::Lang => if explicit is Some {
                Ok(explicit)
            } else if named_enc is Some {
                Ok(named_enc)
            } else {
                match locale {
                    Some((l, _)) => match locale_encoding(l) {
                        Some(e) => Ok(Some(e)),
                        None => Err(ConvertErrorView::MissingLangEncoding),
                    },
                    None => Err(ConvertErrorView::MissingLangEncoding),
                }
            },
            TextArchiveFamily::Cli => if explicit is Some {
                Ok(explicit)
            } else if named_enc is Some {
                Ok(named_enc)
            } else {
                Err(ConvertErrorView::MissingCliEncoding)
            },
            _ => match explicit {
                Some(e) => Ok(Some(e)),
                None => Ok(Some(TextEncoding::EucKr)),
            },
        }
    }
}

/// The conversion of a text archive at `path` with records `rs`: a code page may not be
/// given for plain text; the file name may name the family; every record is checked in
/// order; an archive whose family nothing names is refused; the file name's locale must
/// agree with the records'; `NSgtdData` takes no code page; then the code page resolves.
/// `explicit` is the given code page, read only for structured output.
pub open spec fn conversion_plan(
    path: Seq<char>,
    rs: Seq<TextRecordView>,
    g: Seq<Option<GtdNameKind>>,
    mode: TextArchiveOutputMode,
    encoding_given: bool,
    explicit: Option<TextEncoding>,
) -> Result<PlanView, ConvertErrorView> {
    let explicit = if mode == TextArchiveOutputMode::Json {
        explicit
    } else {
        None
    };
    if mode == TextArchiveOutputMode::PlainText && encoding_given {
        Err(ConvertErrorView::EncodingWithPlainText)
    } else {
        match named_archive(path) {
            Err(_) => Err(ConvertErrorView::EmptyArchiveLocale),
            Ok(named) => {
                let named_family = match named {
                    Some(n) => Some(n.family),
                    None => None,
                };
                match scan_records(rs, g, named_family, mode, rs.len() as int) {
                    Err(e) => Err(e),
                    Ok(st) => match st.family {
                        None => Err(ConvertErrorView::UnidentifiedEmptyArchive),
                        Some(family) => {
                            if named is Some && named->Some_0.family == TextArchiveFamily::Lang && named->Some_0.locale is Some
                                && st.locale is Some && !texts_eq_ignore_ascii_case(named->Some_0.locale->Some_0, st.locale->Some_0.0) {
                                Err(ConvertErrorView::ArchiveLocaleConflict {
                                    index: st.locale->Some_0.1,
                                    named: named->Some_0.locale->Some_0,
                                    records: st.locale->Some_0.0,
                                })
                            } else if mode == TextArchiveOutputMode::Json && family == TextArchiveFamily::Gtd && explicit is Some {
                                Err(ConvertErrorView::EncodingWithGtd)
                            } else {
                                match conversion_encoding(mode, family, explicit, named, st.locale) {
                                    Err(e) => Err(e),
                                    Ok(encoding) => Ok(PlanView { family, output_mode: mode, encoding, paths: st.paths }),
                                }
                            }
                        },
                    },
                }
            },
        }
    }
}

/// For structured output, a code page passed explicitly is the one the plan reads
/// records in, whatever the archive's file name or records imply; plain text reads in none.
pub proof fn lemma_given_encoding_wins(
    path: Seq<char>,
    rs: Seq<TextRecordView>,
    g: Seq<Option<GtdNameKind>>,
    encoding_given: bool,
    e: TextEncoding,
)
    ensures
        conversion_plan(path, rs, g, TextArchiveOutputMode::Json, encoding_given, Some(e)) matches Ok(p)
            ==> p.encoding == Some(e),
        conversion_plan(path, rs, g, TextArchiveOutputMode::PlainText, false, Some(e)) matches Ok(p)
            ==> p.encoding is None,
{
}

/// One record of a checked conversion and the file it converts to.
#[derive(Debug)]
pub struct TextArchiveRecordPlan {
    pub index: usize,
    pub relative_path: String,
}

/// A checked conversion of a text archive.
#[derive(Debug)]
pub struct TextArchiveConversionPlan {
    pub family: TextArchiveFamily,
    pub output_mode: TextArchiveOutputMode,
    pub encoding: Option<TextEncoding>,
    pub records: Vec<TextArchiveRecordPlan>,
}

impl View for TextArchiveConversionPlan {
    type V = PlanView;

    open spec fn view(&self) -> PlanView {
        PlanView {
            family: self.family,
            output_mode: self.output_mode,
            encoding: self.encoding,
            paths: Seq::new(self.records@.len(), |i: int| self.records@[i].relative_path@),
        }
    }
}

/// The state of a record check.
struct ScanState {
    family: Option<TextArchiveFamily>,
    locale: Option<(String, usize)>,
    paths: Vec<String>,
    keys: Vec<Vec<char>>,
}

spec fn state_view(s: ScanState) -> ScanView {
    ScanView {
        family: s.family,
        locale: match s.locale {
            Some((l, i)) => Some((l@, i)),
            None => None,
        },
        paths: Seq::new(s.paths@.len(), |i: int| s.paths@[i]@),
    }
}

spec fn keys_match(s: ScanState) -> bool {
    &&& s.keys@.len() == s.paths@.len()
    &&& forall|j: int| 0 <= j < s.keys@.len() ==> (#[trigger] s.keys@[j])@ == unicode_lowercase(s.paths@[j]@)
}

/// The first earlier output file whose lowercase form is `key`.
fn find_key(keys: &Vec<Vec<char>>, key: &Vec<char>, Ghost(paths): Ghost<Seq<Seq<char>>>) -> (r: Option<usize>)
    requires
        keys@.len() == paths.len(),
        forall|j: int| 0 <= j < keys@.len() ==> (#[trigger] keys@[j])@ == unicode_lowercase(paths[j]),
    ensures
        match first_same_key(paths, key@, 0) {
            Some(j) => r == Some(j as usize),
            None => r is None,
        },
{
    let mut j: usize = 0;
    while j < keys.len()
        invariant
            j <= keys@.len(),
            keys@.len() == paths.len(),
            forall|x: int| 0 <= x < keys@.len() ==> (#[trigger] keys@[x])@ == unicode_lowercase(paths[x]),
            first_same_key(paths, key@, 0) == first_same_key(paths, key@, j as int),
        decreases keys@.len() - j,
    {
        if chars_eq(keys[j].as_slice(), key.as_slice()) {
            return Some(j);
        }
        j = j + 1;
    }
    None
}

/// Checks one record after those before it.
fn scan_record(
    st: &mut ScanState,
    r: &crate::text_archive::TextNosRecord,
    g: Option<GtdNameKind>,
    i: usize,
    mode: TextArchiveOutputMode,
) -> (res: Result<(), TextConvertError>)
    requires
        keys_match(*old(st)),
    ensures
        match scan_step(state_view(*old(st)), r@, g, i, mode) {
            Ok(v) => res is Ok && state_view(*final(st)) == v && keys_match(*final(st)),
            Err(e) => res matches Err(x) && x@ == e,
        },
{
    let kind = r.payload_kind();
    let format = match resolve_structured_format(r.name.as_str(), kind, TextFormatArg::Auto, g) {
        Ok(f) => f,
        Err(e) => {
            return Err(TextConvertError::RecordFormat { index: i, error: e });
        },
    };
    let rf = family_for_format(format);
    match st.family {
        Some(expected) => {
            if rf != expected {
                return Err(TextConvertError::FamilyMismatch { index: i, record_family: rf, archive_family: expected });
            }
        },
        None => {},
    }
    if rf == TextArchiveFamily::Etc {
        let expected = if is_minigame_word_list(r.name.as_str()) {
            TextPayloadKind::Dat
        } else {
            TextPayloadKind::List
        };
        if kind != expected {
            return Err(TextConvertError::NsetcKind { index: i, expected, actual: kind });
        }
    }
    let ghost before = *st;
    if rf == TextArchiveFamily::Lang {
        let locale = match language_locale(r.name.as_str()) {
            Some(l) => l,
            None => {
                return Err(TextConvertError::RecordFormat { index: i, error: StructuredFormatError::CannotInfer });
            },
        };
        match &st.locale {
            Some((expected, _)) => {
                let a = str_chars(locale.as_str());
                let b = str_chars(expected.as_str());
                if !text_eq_ignore_case(a.as_slice(), b.as_slice()) {
                    return Err(TextConvertError::LocaleConflict { index: i, locale, expected: expected.clone() });
                }
            },
            None => {
                st.locale = Some((locale, i));
            },
        }
    }
    let path = match converted_output_path(r.name.as_str(), mode) {
        Some(p) => p,
        None => {
            return Err(TextConvertError::NoOutputStem { index: i });
        },
    };
    let lowered = crate::text_pack::lowercase_string(path.as_str());
    let key = str_chars(lowered.as_str());
    let ghost paths = state_view(before).paths;
    assert(st.paths@.len() == paths.len());
    match find_key(&st.keys, &key, Ghost(paths)) {
        Some(j) => {
            return Err(TextConvertError::OutputCollision { previous: j, index: i });
        },
        None => {},
    }
    st.family = Some(rf);
    st.paths.push(path);
    st.keys.push(key);
    assert(state_view(*st).paths =~= paths.push(path@));
    Ok(())
}

/// Checks every record of a text archive, and the archive as a whole, before anything
/// is converted. `gtd_kinds[i]` is what the `NSgtdData` record-name table says of record
/// `i`'s name; `encoding_given` says whether a code page was passed, and `explicit_encoding`
/// is that code page, read for structured output.
pub fn resolve_text_archive_conversion(
    archive: &TextNosArchive,
    gtd_kinds: &[Option<GtdNameKind>],
    output_mode: TextArchiveOutputMode,
    encoding_given: bool,
    explicit_encoding: Option<TextEncoding>,
) -> (r: Result<TextArchiveConversionPlan, TextConvertError>)
    ensures
        match conversion_plan(archive.path_view(), archive@.records, gtd_kinds@, output_mode, encoding_given, explicit_encoding) {
            Ok(p) => r matches Ok(q) && q@ == p && forall|i: int| 0 <= i < q.records@.len() ==> (#[trigger] q.records@[i]).index == i,
            Err(e) => r matches Err(x) && x@ == e,
        },
{
    if output_mode == TextArchiveOutputMode::PlainText && encoding_given {
        return Err(TextConvertError::EncodingWithPlainText);
    }
    let explicit = if output_mode == TextArchiveOutputMode::Json {
        explicit_encoding
    } else {
        None
    };
    let named = match named_text_archive(archive.path()) {
        Ok(n) => n,
        Err(_) => {
            return Err(TextConvertError::EmptyArchiveLocale);
        },
    };
    let named_family = match &named {
        Some(n) => Some(n.family),
        None => None,
    };
    let records = archive.records();
    let ghost rs = text_records_view(records@);
    let mut st = ScanState { family: named_family, locale: None, paths: Vec::new(), keys: Vec::new() };
    assert(state_view(st).paths =~= Seq::<Seq<char>>::empty());
    let mut i: usize = 0;
    while i < records.len()
        invariant
            i <= records@.len(),
            rs == text_records_view(records@),
            rs == archive@.records,
            !(output_mode == TextArchiveOutputMode::PlainText && encoding_given),
            named_archive(archive.path_view()) is Ok,
            named_family == match named_archive(archive.path_view()) {
                Ok(Some(nv)) => Some(nv.family),
                _ => None,
            },
            keys_match(st),
            scan_records(rs, gtd_kinds@, named_family, output_mode, i as int) == Ok::<ScanView, ConvertErrorView>(state_view(st)),
        decreases records@.len() - i,
    {
        let g = if i < gtd_kinds.len() {
            gtd_kinds[i]
        } else {
            None
        };
        assert(rs[i as int] == records@[i as int]@);
        match scan_record(&mut st, &records[i], g, i, output_mode) {
            Ok(()) => {},
            Err(e) => {
                assert(scan_records(rs, gtd_kinds@, named_family, output_mode, i + 1) is Err);
                proof {
                    lemma_scan_error_stays(rs, gtd_kinds@, named_family, output_mode, i + 1, rs.len() as int);
                }
                return Err(e);
            },
        }
        i = i + 1;
    }
    let family = match st.family {
        Some(f) => f,
        None => {
            return Err(TextConvertError::UnidentifiedEmptyArchive);
        },
    };
    match &named {
        Some(n) => {
            if n.family == TextArchiveFamily::Lang {
                match (&n.locale, &st.locale) {
                    (Some(named_locale), Some((record_locale, index))) => {
                        let a = str_chars(named_locale.as_str());
                        let b = str_chars(record_locale.as_str());
                        if !text_eq_ignore_case(a.as_slice(), b.as_slice()) {
                            return Err(TextConvertError::ArchiveLocaleConflict {
                                index: *index,
                                named: named_locale.clone(),
                                records: record_locale.clone(),
                            });
                        }
                    },
                    _ => {},
                }
            }
        },
        None => {},
    }
    if output_mode == TextArchiveOutputMode::Json && family == TextArchiveFamily::Gtd && explicit.is_some() {
        return Err(TextConvertError::EncodingWithGtd);
    }
    let named_encoding = match &named {
        Some(n) => n.encoding,
        None => None,
    };
    let encoding = if output_mode == TextArchiveOutputMode::PlainText || family == TextArchiveFamily::Gtd {
        None
    } else {
        match family {
            TextArchiveFamily::Lang => if explicit.is_some() {
                explicit
            } else if named_encoding.is_some() {
                named_encoding
            } else {
                match &st.locale {
                    Some((l, _)) => match encoding_for_locale(l.as_str()) {
                        Some(e) => Some(e),
                        None => {
                            return Err(TextConvertError::MissingLangEncoding);
                        },
                    },
                    None => {
                        return Err(TextConvertError::MissingLangEncoding);
                    },
                }
            },
            TextArchiveFamily::Cli => if explicit.is_some() {
                explicit
            } else if named_encoding.is_some() {
                named_encoding
            } else {
                return Err(TextConvertError::MissingCliEncoding);
            },
            _ => match explicit {
                Some(e) => Some(e),
                None => Some(TextEncoding::EucKr),
            },
        }
    };
    let mut plans: Vec<TextArchiveRecordPlan> = Vec::new();
    let paths = st.paths;
    let ghost pv = Seq::new(paths@.len(), |k: int| paths@[k]@);
    let mut k: usize = 0;
    let n = paths.len();
    while k < n
        invariant
            k <= n,
            n == paths@.len(),
            pv == Seq::new(paths@.len(), |x: int| paths@[x]@),
            plans@.len() == k,
            forall|x: int| 0 <= x < k ==> (#[trigger] plans@[x]).index == x && plans@[x].relative_path@ == pv[x],
        decreases n - k,
    {
        plans.push(TextArchiveRecordPlan { index: k, relative_path: paths[k].clone() });
        k = k + 1;
    }
    let plan = TextArchiveConversionPlan { family, output_mode, encoding, records: plans };
    assert(plan@.paths =~= pv);
    Ok(plan)
}

/// Once a record check fails, checking more records gives the same error.
proof fn lemma_scan_error_stays(
    rs: Seq<TextRecordView>,
    g: Seq<Option<GtdNameKind>>,
    nf: Option<TextArchiveFamily>,
    mode: TextArchiveOutputMode,
    k: int,
    m: int,
)
    requires
        0 < k <= m,
        scan_records(rs, g, nf, mode, k) is Err,
    ensures
        scan_records(rs, g, nf, mode, m) == scan_records(rs, g, nf, mode, k),
    decreases m - k,
{
    if k < m {
        lemma_scan_error_stays(rs, g, nf, mode, k, m - 1);
    }
}

} // verus!
