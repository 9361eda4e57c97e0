//! Text payload naming rules: the payload kind a file name implies, the locale of
//! `_code_<locale>_<table>.txt` language tables and its code page, the names of
//! `NSetc` string lists, and one-line previews and warnings.
use vstd::prelude::*;

use crate::chartext::{
    ascii_char_vec, eq_ignore_ascii_case, replace_all, replace_all_exec, str_chars,
};
use crate::paths::{file_name_span_exec, lemma_file_name_span_bounds, path_file_name};
use crate::text_archive::{ascii_lower, ascii_lower_exec, ends_with_ignoring_case, TextPayloadKind};
use crate::textenc::{ascii_chars, chars_to_string, lossy_string, utf8_lossy};

verus! {

/// A text code page of the client.
#[derive(Debug, Clone, Copy, PartialEq, Eq, Structural)]
pub enum TextEncoding {
    Windows1250,
    Windows1251,
    Windows1252,
    Windows1254,
    Big5,
    ShiftJis,
    EucKr,
}

/// Why a malformed constant-string row was skipped.
#[derive(Debug, Clone, Copy, PartialEq, Eq, Structural)]
pub enum MalformedConstStringRowKind {
    MissingVerticalTab,
    InvalidIntegerKey,
}

/// How a text payload's kind is chosen on the command line.
#[derive(Debug, Clone, Copy, PartialEq, Eq, Structural)]
pub enum TextPayloadKindArg {
    /// From the file name.
    Auto,
    Dat,
    List,
    Raw,
}

/// Why no code page could be chosen.
#[derive(Debug, Clone, PartialEq, Eq)]
pub enum StructuredTextError {
    /// The file name is not a language table name.
    NoLocale { path: String },
    /// The language table's locale has no known code page.
    UnknownLocale { locale: String },
    /// Constant-string tables need an explicit code page.
    MissingCliEncoding,
}

/// A text with ASCII capitals made small.
pub open spec fn lower_text(s: Seq<char>) -> Seq<char> {
    Seq::new(s.len(), |i: int| ascii_lower(s[i]))
}

/// A text with ASCII capitals made small.
pub(crate) fn lower_text_exec(s: &[char]) -> (r: Vec<char>)
    ensures
        r@ == lower_text(s@),
{
    let mut out: Vec<char> = Vec::new();
    let mut i: usize = 0;
    while i < s.len()
        invariant
            i <= s@.len(),
            out@ == lower_text(s@.take(i as int)),
        decreases s@.len() - i,
    {
        out.push(ascii_lower_exec(s[i]));
        assert(out@ =~= lower_text(s@.take(i + 1)));
        i = i + 1;
    }
    assert(s@.take(i as int) =~= s@);
    out
}

/// The file name of a path, by characters.
fn file_name_chars(path: &str) -> (r: Option<Vec<char>>)
    ensures
        r matches Some(v) ==> path_file_name(path@) == Some(v@),
        r is None ==> path_file_name(path@) is None,
{
    let chars = str_chars(path);
    match file_name_span_exec(chars.as_slice()) {
        Some((b, e)) => {
            proof {
                lemma_file_name_span_bounds(chars@, chars@.len() as int);
            }
            Some(vstd::slice::slice_to_vec(vstd::slice::slice_subrange(chars.as_slice(), b, e)))
        },
        None => None,
    }
}

/// The position of the first `_` in `s`, or its length.
pub open spec fn first_underscore(s: Seq<char>, i: int) -> int
    decreases s.len() - i,
{
    if i < 0 || i >= s.len() {
        s.len() as int
    } else if s[i] as u32 == 95 {
        i
    } else {
        first_underscore(s, i + 1)
    }
}

/// The bytes of `_code_`.
pub open spec fn code_prefix_word() -> Seq<u8> {
    seq![95u8, 99, 111, 100, 101, 95]
}

/// The bytes of `.txt`.
pub open spec fn txt_word() -> Seq<u8> {
    seq![46u8, 116, 120, 116]
}

/// The locale of a language table file name `_code_<locale>_<table>.txt` (ignoring
/// ASCII case, returned in lowercase): the name must have both parts, the table part
/// not being just `.txt`.
pub open spec fn language_locale_spec(path: Seq<char>) -> Option<Seq<char>> {
    match path_file_name(path) {
        None => None,
        Some(raw) => {
            let name = lower_text(raw);
            if name.len() < 6 || name.take(6) != ascii_chars(code_prefix_word()) {
                None
            } else {
                let rest = name.skip(6);
                if rest.len() < 4 || rest.skip(rest.len() - 4) != ascii_chars(txt_word()) {
                    None
                } else {
                    let i = first_underscore(rest, 0);
                    if i >= rest.len() {
                        None
                    } else if i == 0 || rest.skip(i + 1) == ascii_chars(txt_word()) {
                        None
                    } else {
                        Some(rest.take(i))
                    }
                }
            }
        }
    }
}

/// Whether `s` equals the ASCII word.
fn chars_equal_word(s: &[char], word: &[u8]) -> (r: bool)
    requires
        forall|i: int| 0 <= i < word@.len() ==> #[trigger] word@[i] < 128,
    ensures
        r == (s@ == ascii_chars(word@)),
{
    if s.len() != word.len() {
        return false;
    }
    let mut i: usize = 0;
    while i < s.len()
        invariant
            s@.len() == word@.len(),
            i <= s@.len(),
            forall|k: int| 0 <= k < i ==> s@[k] == (word@[k] as char),
        decreases s@.len() - i,
    {
        if s[i] != (word[i] as char) {
            assert(s@[i as int] != ascii_chars(word@)[i as int]);
            return false;
        }
        i = i + 1;
    }
    assert(s@ =~= ascii_chars(word@));
    true
}

/// The locale of a language table file name, in lowercase.
pub fn language_locale(path: &str) -> (r: Option<String>)
    ensures
        match language_locale_spec(path@) {
            Some(l) => r matches Some(s) && s@ == l,
            None => r is None,
        },
{
    let raw = match file_name_chars(path) {
        Some(raw) => raw,
        None => {
            return None;
        },
    };
    let name = lower_text_exec(raw.as_slice());
    if name.len() < 6 {
        return None;
    }
    let head = vstd::slice::slice_subrange(name.as_slice(), 0, 6);
    assert(head@ =~= name@.take(6));
    if !chars_equal_word(head, &[95u8, 99, 111, 100, 101, 95]) {
        return None;
    }
    let rest = vstd::slice::slice_subrange(name.as_slice(), 6, name.len());
    assert(rest@ =~= name@.skip(6));
    if rest.len() < 4 {
        return None;
    }
    let tail = vstd::slice::slice_subrange(rest, rest.len() - 4, rest.len());
    assert(tail@ =~= rest@.skip(rest@.len() - 4));
    if !chars_equal_word(tail, &[46u8, 116, 120, 116]) {
        return None;
    }
    let mut i: usize = 0;
    while i < rest.len() && rest[i] as u32 != 95
        invariant
            i <= rest@.len(),
            first_underscore(rest@, 0) == first_underscore(rest@, i as int),
        decreases rest@.len() - i,
    {
        i = i + 1;
    }
    if i >= rest.len() {
        return None;
    }
    let table = vstd::slice::slice_subrange(rest, i + 1, rest.len());
    assert(table@ =~= rest@.skip(i + 1));
    if i == 0 || chars_equal_word(table, &[46u8, 116, 120, 116]) {
        return None;
    }
    let locale = vstd::slice::slice_subrange(rest, 0, i);
    assert(locale@ =~= rest@.take(i as int));
    Some(chars_to_string(locale))
}

/// The code page of a language table locale, ignoring ASCII case.
pub open spec fn locale_encoding(l: Seq<char>) -> Option<TextEncoding> {
    if eq_ignore_ascii_case(l, seq![99u8, 122]) || eq_ignore_ascii_case(l, seq![100u8, 101])
        || eq_ignore_ascii_case(l, seq![105u8, 116]) || eq_ignore_ascii_case(l, seq![112u8, 108]) {
        Some(TextEncoding::Windows1250)
    } else if eq_ignore_ascii_case(l, seq![101u8, 115]) || eq_ignore_ascii_case(l, seq![102u8, 114])
        || eq_ignore_ascii_case(l, seq![103u8, 115, 112]) || eq_ignore_ascii_case(l, seq![105u8, 110])
        || eq_ignore_ascii_case(l, seq![109u8, 121]) || eq_ignore_ascii_case(l, seq![117u8, 107]) {
        Some(TextEncoding::Windows1252)
    } else if eq_ignore_ascii_case(l, seq![114u8, 117]) {
        Some(TextEncoding::Windows1251)
    } else if eq_ignore_ascii_case(l, seq![116u8, 114]) {
        Some(TextEncoding::Windows1254)
    } else if eq_ignore_ascii_case(l, seq![104u8, 107]) || eq_ignore_ascii_case(l, seq![116u8, 119]) {
        Some(TextEncoding::Big5)
    } else if eq_ignore_ascii_case(l, seq![106u8, 112]) {
        Some(TextEncoding::ShiftJis)
    } else if eq_ignore_ascii_case(l, seq![107u8, 114]) {
        Some(TextEncoding::EucKr)
    } else {
        None
    }
}

/// Whether `l` spells the lowercase ASCII word `w`, each letter in either case.
pub open spec fn spells(l: Seq<char>, w: Seq<u8>) -> bool {
    &&& l.len() == w.len()
    &&& forall|i: int| 0 <= i < l.len() ==> (#[trigger] l[i]) as u32 == w[i] as u32 || l[i] as u32 + 32 == w[i] as u32
}

proof fn lemma_two_letters(l: Seq<char>, a: u8, b: u8)
    ensures
        eq_ignore_ascii_case(l, seq![a, b]) == (l.len() == 2 && crate::chartext::lower_code(l[0]) == a as u32
            && crate::chartext::lower_code(l[1]) == b as u32),
        spells(l, seq![a, b]) == (l.len() == 2 && (l[0] as u32 == a as u32 || l[0] as u32 + 32 == a as u32)
            && (l[1] as u32 == b as u32 || l[1] as u32 + 32 == b as u32)),
{
    let w = seq![a, b];
    assert(w[0] == a && w[1] == b && w.len() == 2);
}

proof fn lemma_three_letters(l: Seq<char>, a: u8, b: u8, c: u8)
    ensures
        eq_ignore_ascii_case(l, seq![a, b, c]) == (l.len() == 3 && crate::chartext::lower_code(l[0]) == a as u32
            && crate::chartext::lower_code(l[1]) == b as u32 && crate::chartext::lower_code(l[2]) == c as u32),
        spells(l, seq![a, b, c]) == (l.len() == 3 && (l[0] as u32 == a as u32 || l[0] as u32 + 32 == a as u32)
            && (l[1] as u32 == b as u32 || l[1] as u32 + 32 == b as u32)
            && (l[2] as u32 == c as u32 || l[2] as u32 + 32 == c as u32)),
{
    let w = seq![a, b, c];
    assert(w[0] == a && w[1] == b && w[2] == c && w.len() == 3);
}

/// The code pages of language-table locales, each spelled in any ASCII case: Central
/// European for `cz`, `de`, `it`, `pl`; Western for `es`, `fr`, `gsp`, `in`, `my`, `uk`;
/// Cyrillic for `ru`; Turkish for `tr`; Big5 for `hk`, `tw`; Shift JIS for `jp`; EUC-KR
/// for `kr`; and no other locale has one.
pub proof fn lemma_locale_code_pages(l: Seq<char>)
    ensures
        spells(l, seq![99u8, 122])
            || spells(l, seq![100u8, 101])
            || spells(l, seq![105u8, 116])
            || spells(l, seq![112u8, 108])
            ==> locale_encoding(l) == Some(TextEncoding::Windows1250),
        spells(l, seq![101u8, 115])
            || spells(l, seq![102u8, 114])
            || spells(l, seq![103u8, 115, 112])
            || spells(l, seq![105u8, 110])
            || spells(l, seq![109u8, 121])
            || spells(l, seq![117u8, 107])
            ==> locale_encoding(l) == Some(TextEncoding::Windows1252),
        spells(l, seq![114u8, 117])
            ==> locale_encoding(l) == Some(TextEncoding::Windows1251),
        spells(l, seq![116u8, 114])
            ==> locale_encoding(l) == Some(TextEncoding::Windows1254),
        spells(l, seq![104u8, 107]) || spells(l, seq![116u8, 119])
            ==> locale_encoding(l) == Some(TextEncoding::Big5),
        spells(l, seq![106u8, 112])
            ==> locale_encoding(l) == Some(TextEncoding::ShiftJis),
        spells(l, seq![107u8, 114])
            ==> locale_encoding(l) == Some(TextEncoding::EucKr),
        locale_encoding(l) is Some ==> {
            ||| spells(l, seq![99u8, 122])
            ||| spells(l, seq![100u8, 101])
            ||| spells(l, seq![105u8, 116])
            ||| spells(l, seq![112u8, 108])
            ||| spells(l, seq![101u8, 115])
            ||| spells(l, seq![102u8, 114])
            ||| spells(l, seq![103u8, 115, 112])
            ||| spells(l, seq![105u8, 110])
            ||| spells(l, seq![109u8, 121])
            ||| spells(l, seq![117u8, 107])
            ||| spells(l, seq![114u8, 117])
            ||| spells(l, seq![116u8, 114])
            ||| spells(l, seq![104u8, 107])
            ||| spells(l, seq![116u8, 119])
            ||| spells(l, seq![106u8, 112])
            ||| spells(l, seq![107u8, 114])
        },
{
    lemma_two_letters(l, 99u8, 122);
    lemma_two_letters(l, 100u8, 101);
    lemma_two_letters(l, 105u8, 116);
    lemma_two_letters(l, 112u8, 108);
    lemma_two_letters(l, 101u8, 115);
    lemma_two_letters(l, 102u8, 114);
    lemma_three_letters(l, 103u8, 115, 112);
    lemma_two_letters(l, 105u8, 110);
    lemma_two_letters(l, 109u8, 121);
    lemma_two_letters(l, 117u8, 107);
    lemma_two_letters(l, 114u8, 117);
    lemma_two_letters(l, 116u8, 114);
    lemma_two_letters(l, 104u8, 107);
    lemma_two_letters(l, 116u8, 119);
    lemma_two_letters(l, 106u8, 112);
    lemma_two_letters(l, 107u8, 114);
}

/// Whether `s` is `word` ignoring ASCII case; `word` is lowercase ASCII.
fn is_word(s: &[char], word: &[u8]) -> (r: bool)
    requires
        forall|i: int| 0 <= i < word@.len() ==> #[trigger] word@[i] < 128 && !(65 <= word@[i] <= 90),
    ensures
        r == eq_ignore_ascii_case(s@, word@),
{
    if s.len() != word.len() {
        return false;
    }
    let mut i: usize = 0;
    while i < s.len()
        invariant
            s@.len() == word@.len(),
            i <= s@.len(),
            forall|k: int| 0 <= k < i ==> crate::chartext::lower_code(#[trigger] s@[k]) == word@[k] as u32,
        decreases s@.len() - i,
    {
        if crate::chartext::lower_char_code(s[i]) != word[i] as u32 {
            return false;
        }
        i = i + 1;
    }
    true
}

/// The code page of a language table locale.
pub fn encoding_for_locale(locale: &str) -> (r: Option<TextEncoding>)
    ensures
        r == locale_encoding(locale@),
{
    let l = str_chars(locale);
    let s = l.as_slice();
    if is_word(s, &[99u8, 122]) || is_word(s, &[100u8, 101]) || is_word(s, &[105u8, 116]) || is_word(s, &[112u8, 108]) {
        Some(TextEncoding::Windows1250)
    } else if is_word(s, &[101u8, 115]) || is_word(s, &[102u8, 114]) || is_word(s, &[103u8, 115, 112]) || is_word(s, &[105u8, 110])
        || is_word(s, &[109u8, 121]) || is_word(s, &[117u8, 107]) {
        Some(TextEncoding::Windows1252)
    } else if is_word(s, &[114u8, 117]) {
        Some(TextEncoding::Windows1251)
    } else if is_word(s, &[116u8, 114]) {
        Some(TextEncoding::Windows1254)
    } else if is_word(s, &[104u8, 107]) || is_word(s, &[116u8, 119]) {
        Some(TextEncoding::Big5)
    } else if is_word(s, &[106u8, 112]) {
        Some(TextEncoding::ShiftJis)
    } else if is_word(s, &[107u8, 114]) {
        Some(TextEncoding::EucKr)
    } else {
        None
    }
}

/// The code page of a language table: the override, else that of the file name's locale.
pub fn resolve_language_encoding(path: &str, override_encoding: Option<TextEncoding>) -> (r: Result<TextEncoding, StructuredTextError>)
    ensures
        override_encoding matches Some(e) ==> r == Ok::<TextEncoding, StructuredTextError>(e),
        override_encoding is None ==> match language_locale_spec(path@) {
            None => r matches Err(StructuredTextError::NoLocale { path: p }) && p@ == path@,
            Some(l) => match locale_encoding(l) {
                Some(e) => r == Ok::<TextEncoding, StructuredTextError>(e),
                None => r matches Err(StructuredTextError::UnknownLocale { locale }) && locale@ == l,
            },
        },
{
    if let Some(encoding) = override_encoding {
        return Ok(encoding);
    }
    let locale = match language_locale(path) {
        Some(l) => l,
        None => {
            return Err(StructuredTextError::NoLocale { path: path.to_owned() });
        },
    };
    match encoding_for_locale(locale.as_str()) {
        Some(e) => Ok(e),
        None => Err(StructuredTextError::UnknownLocale { locale }),
    }
}

/// The code page of a constant-string table: the override, which is required.
pub fn resolve_cli_encoding(override_encoding: Option<TextEncoding>) -> (r: Result<TextEncoding, StructuredTextError>)
    ensures
        match override_encoding {
            Some(e) => r == Ok::<TextEncoding, StructuredTextError>(e),
            None => r == Err::<TextEncoding, StructuredTextError>(StructuredTextError::MissingCliEncoding),
        },
{
    match override_encoding {
        Some(e) => Ok(e),
        None => Err(StructuredTextError::MissingCliEncoding),
    }
}

/// The code page of an `NSetc` string list: the override, else EUC-KR.
pub fn resolve_etc_encoding(override_encoding: Option<TextEncoding>) -> (r: TextEncoding)
    ensures
        r == match override_encoding {
            Some(e) => e,
            None => TextEncoding::EucKr,
        },
{
    match override_encoding {
        Some(e) => e,
        None => TextEncoding::EucKr,
    }
}

/// `minigame6worddata.dat`
pub open spec fn minigame_word() -> Seq<u8> {
    seq![109u8, 105, 110, 105, 103, 97, 109, 101, 54, 119, 111, 114, 100, 100, 97, 116, 97, 46, 100, 97, 116]
}

/// `taboostr.lst`
pub open spec fn taboo_word() -> Seq<u8> {
    seq![116u8, 97, 98, 111, 111, 115, 116, 114, 46, 108, 115, 116]
}

/// Whether a path names an `NSetc` string list: `MiniGame6WordData.dat` or
/// `TabooStr.lst`, ignoring ASCII case.
pub open spec fn is_nsetc_name(path: Seq<char>) -> bool {
    path_file_name(path) matches Some(n) && (eq_ignore_ascii_case(n, minigame_word())
        || eq_ignore_ascii_case(n, taboo_word()))
}

/// Whether a path names an `NSetc` string list.
pub fn is_nsetc_payload_name(path: &str) -> (r: bool)
    ensures
        r == is_nsetc_name(path@),
{
    match file_name_chars(path) {
        Some(n) => is_word(n.as_slice(), &[109u8, 105, 110, 105, 103, 97, 109, 101, 54, 119, 111, 114, 100, 100, 97, 116, 97, 46, 100, 97, 116])
            || is_word(n.as_slice(), &[116u8, 97, 98, 111, 111, 115, 116, 114, 46, 108, 115, 116]),
        None => false,
    }
}

/// Whether a path names the `NSetc` word list `MiniGame6WordData.dat`, ignoring ASCII case.
pub open spec fn is_minigame_name(path: Seq<char>) -> bool {
    path_file_name(path) matches Some(n) && eq_ignore_ascii_case(n, minigame_word())
}

/// Whether a path names the `NSetc` word list `MiniGame6WordData.dat`.
pub fn is_minigame_word_list(path: &str) -> (r: bool)
    ensures
        r == is_minigame_name(path@),
{
    match file_name_chars(path) {
        Some(n) => is_word(n.as_slice(), &[109u8, 105, 110, 105, 103, 97, 109, 101, 54, 119, 111, 114, 100, 100, 97, 116, 97, 46, 100, 97, 116]),
        None => false,
    }
}

/// The payload kind a file name implies: `.lst` a list, `.dat` or `.txt` packed text,
/// anything else raw (ignoring ASCII case); a path without file name is raw.
pub open spec fn kind_for_name(path: Seq<char>) -> TextPayloadKind {
    let name = match path_file_name(path) {
        Some(n) => n,
        None => Seq::empty(),
    };
    if ends_with_ignoring_case(name, seq!['.', 'l', 's', 't']) {
        TextPayloadKind::List
    } else if ends_with_ignoring_case(name, seq!['.', 'd', 'a', 't']) || ends_with_ignoring_case(
        name,
        seq!['.', 't', 'x', 't'],
    ) {
        TextPayloadKind::Dat
    } else {
        TextPayloadKind::Raw
    }
}

/// Whether `s` ends with the lowercase four-character suffix, ignoring ASCII case.
fn ends_with4(s: &[char], suffix: [char; 4]) -> (r: bool)
    ensures
        r == ends_with_ignoring_case(s@, suffix@),
{
    let n = s.len();
    if n < 4 {
        return false;
    }
    let mut i: usize = 0;
    while i < 4
        invariant
            i <= 4,
            n == s@.len(),
            n >= 4,
            suffix@.len() == 4,
            forall|k: int| 0 <= k < i ==> ascii_lower(#[trigger] s@[n - 4 + k]) == suffix@[k],
        decreases 4 - i,
    {
        if ascii_lower_exec(s[n - 4 + i]) != suffix[i] {
            assert(ascii_lower(s@[n - 4 + i]) != suffix@[i as int]);
            return false;
        }
        i = i + 1;
    }
    true
}

/// The payload kind of a text payload: the explicit kind, or the one its name implies.
pub fn resolve_text_payload_kind(path: &str, kind: TextPayloadKindArg) -> (r: TextPayloadKind)
    ensures
        r == match kind {
            TextPayloadKindArg::Dat => TextPayloadKind::Dat,
            TextPayloadKindArg::List => TextPayloadKind::List,
            TextPayloadKindArg::Raw => TextPayloadKind::Raw,
            TextPayloadKindArg::Auto => kind_for_name(path@),
        },
{
    match kind {
        TextPayloadKindArg::Dat => TextPayloadKind::Dat,
        TextPayloadKindArg::List => TextPayloadKind::List,
        TextPayloadKindArg::Raw => TextPayloadKind::Raw,
        TextPayloadKindArg::Auto => {
            let name: Vec<char> = match file_name_chars(path) {
                Some(n) => n,
                None => Vec::new(),
            };
            assert(name@ == match path_file_name(path@) {
                Some(n) => n,
                None => Seq::<char>::empty(),
            });
            if ends_with4(name.as_slice(), ['.', 'l', 's', 't']) {
                TextPayloadKind::List
            } else if ends_with4(name.as_slice(), ['.', 'd', 'a', 't']) || ends_with4(
                name.as_slice(),
                ['.', 't', 'x', 't'],
            ) {
                TextPayloadKind::Dat
            } else {
                TextPayloadKind::Raw
            }
        },
    }
}

/// The packed flag written for a text archive record: 1 for `.dat` and `.txt` names
/// (ignoring ASCII case), 0 otherwise.
pub fn packed_flag_for_text_record(name: &str) -> (r: i32)
    ensures
        r == if ends_with_ignoring_case(name@, seq!['.', 'd', 'a', 't']) || ends_with_ignoring_case(
            name@,
            seq!['.', 't', 'x', 't'],
        ) {
            1i32
        } else {
            0i32
        },
{
    let n = str_chars(name);
    if ends_with4(n.as_slice(), ['.', 'd', 'a', 't']) || ends_with4(n.as_slice(), ['.', 't', 'x', 't']) {
        1
    } else {
        0
    }
}

/// The label of a payload kind.
pub fn payload_kind_label(kind: TextPayloadKind) -> (r: &'static str)
    ensures
        r == match kind {
            TextPayloadKind::Dat => "dat",
            TextPayloadKind::List => "list",
            TextPayloadKind::Raw => "raw",
        },
{
    match kind {
        TextPayloadKind::Dat => "dat",
        TextPayloadKind::List => "list",
        TextPayloadKind::Raw => "raw",
    }
}

/// A one-line preview of decoded text: the text as `String::from_utf8_lossy` reads it,
/// with carriage returns and line feeds written as `\r` and `\n`, cut to 96 characters
/// followed by `...` when longer.
pub open spec fn preview_of(decoded: Seq<u8>) -> Seq<char> {
    let escaped = replace_all(
        replace_all(utf8_lossy(decoded), seq!['\r'], seq!['\\', 'r']),
        seq!['\n'],
        seq!['\\', 'n'],
    );
    if escaped.len() > 96 {
        escaped.take(96) + seq!['.', '.', '.']
    } else {
        escaped
    }
}

/// Builds a one-line preview of decoded text.
pub fn preview_text(decoded: &[u8]) -> (r: String)
    ensures
        r@ == preview_of(decoded@),
{
    let text = lossy_string(decoded);
    let chars = str_chars(text.as_str());
    let cr: Vec<char> = vec!['\r'];
    let cr_text: Vec<char> = vec!['\\', 'r'];
    let lf: Vec<char> = vec!['\n'];
    let lf_text: Vec<char> = vec!['\\', 'n'];
    assert(cr@ =~= seq!['\r']);
    assert(cr_text@ =~= seq!['\\', 'r']);
    assert(lf@ =~= seq!['\n']);
    assert(lf_text@ =~= seq!['\\', 'n']);
    let a = replace_all_exec(chars.as_slice(), cr.as_slice(), cr_text.as_slice());
    let b = replace_all_exec(a.as_slice(), lf.as_slice(), lf_text.as_slice());
    if b.len() > 96 {
        let mut out = vstd::slice::slice_to_vec(vstd::slice::slice_subrange(b.as_slice(), 0, 96));
        out.push('.');
        out.push('.');
        out.push('.');
        assert(out@ =~= b@.take(96) + seq!['.', '.', '.']);
        chars_to_string(out.as_slice())
    } else {
        chars_to_string(b.as_slice())
    }
}

/// The text of a warning about a skipped language table row.
pub open spec fn language_warning_text(path: Seq<char>, row: usize) -> Seq<char> {
    ascii_chars(seq![119u8, 97, 114, 110, 105, 110, 103, 58, 32]) + path + ascii_chars(
        seq![58u8] + crate::numtext::nat_digits(row as nat) + language_reason(),
    )
}

/// `: skipping malformed NSlang row: missing tab separator`
pub open spec fn language_reason() -> Seq<u8> {
    seq![58u8, 32, 115, 107, 105, 112, 112, 105, 110, 103, 32, 109, 97, 108, 102, 111, 114, 109, 101, 100, 32, 78, 83, 108, 97, 110, 103, 32, 114, 111, 119, 58, 32, 109, 105, 115, 115, 105, 110, 103, 32, 116, 97, 98, 32, 115, 101, 112, 97, 114, 97, 116, 111, 114]
}

/// The reason text of a skipped constant-string row.
pub open spec fn const_string_reason(kind: MalformedConstStringRowKind) -> Seq<u8> {
    match kind {
        MalformedConstStringRowKind::MissingVerticalTab => seq![109u8, 105, 115, 115, 105, 110, 103, 32, 118, 101, 114, 116, 105, 99, 97, 108, 45, 116, 97, 98, 32, 115, 101, 112, 97, 114, 97, 116, 111, 114],
        MalformedConstStringRowKind::InvalidIntegerKey => seq![105u8, 110, 118, 97, 108, 105, 100, 32, 115, 105, 103, 110, 101, 100, 32, 100, 101, 99, 105, 109, 97, 108, 32, 107, 101, 121],
    }
}

/// `: skipping malformed NScli row: `
pub open spec fn const_string_prefix() -> Seq<u8> {
    seq![58u8, 32, 115, 107, 105, 112, 112, 105, 110, 103, 32, 109, 97, 108, 102, 111, 114, 109, 101, 100, 32, 78, 83, 99, 108, 105, 32, 114, 111, 119, 58, 32]
}

/// The text of a warning about a skipped constant-string row.
pub open spec fn const_string_warning_text(path: Seq<char>, row: usize, kind: MalformedConstStringRowKind) -> Seq<char> {
    ascii_chars(seq![119u8, 97, 114, 110, 105, 110, 103, 58, 32]) + path + ascii_chars(
        seq![58u8] + crate::numtext::nat_digits(row as nat) + const_string_prefix() + const_string_reason(kind),
    )
}

/// Appends bytes.
fn push_bytes(out: &mut Vec<u8>, bytes: &[u8])
    ensures
        final(out)@ == old(out)@ + bytes@,
{
    let mut i: usize = 0;
    while i < bytes.len()
        invariant
            i <= bytes@.len(),
            out@ == old(out)@ + bytes@.take(i as int),
        decreases bytes@.len() - i,
    {
        out.push(bytes[i]);
        assert(out@ =~= old(out)@ + bytes@.take(i + 1));
        i = i + 1;
    }
    assert(bytes@.take(i as int) =~= bytes@);
}

/// Whether every byte is ASCII.
proof fn lemma_ascii_parts(a: Seq<u8>, b: Seq<u8>)
    requires
        forall|i: int| 0 <= i < a.len() ==> #[trigger] a[i] < 128,
        forall|i: int| 0 <= i < b.len() ==> #[trigger] b[i] < 128,
    ensures
        forall|i: int| 0 <= i < (a + b).len() ==> #[trigger] (a + b)[i] < 128,
{
    assert forall|i: int| 0 <= i < (a + b).len() implies #[trigger] (a + b)[i] < 128 by {
        if i < a.len() {
            assert((a + b)[i] == a[i]);
        } else {
            assert((a + b)[i] == b[i - a.len()]);
        }
    }
}

/// Joins a path between an ASCII head and an ASCII tail.
fn ascii_path_ascii(head: &[u8], path: &str, tail: &[u8]) -> (r: String)
    requires
        forall|i: int| 0 <= i < head@.len() ==> #[trigger] head@[i] < 128,
        forall|i: int| 0 <= i < tail@.len() ==> #[trigger] tail@[i] < 128,
    ensures
        r@ == ascii_chars(head@) + path@ + ascii_chars(tail@),
{
    let mut out = ascii_char_vec(head);
    let p = str_chars(path);
    let t = ascii_char_vec(tail);
    let mut i: usize = 0;
    let ghost start = out@;
    while i < p.len()
        invariant
            i <= p@.len(),
            out@ == start + p@.take(i as int),
        decreases p@.len() - i,
    {
        out.push(p[i]);
        assert(out@ =~= start + p@.take(i + 1));
        i = i + 1;
    }
    let ghost mid = out@;
    let mut k: usize = 0;
    while k < t.len()
        invariant
            k <= t@.len(),
            out@ == mid + t@.take(k as int),
        decreases t@.len() - k,
    {
        out.push(t[k]);
        assert(out@ =~= mid + t@.take(k + 1));
        k = k + 1;
    }
    assert(p@.take(i as int) =~= p@);
    assert(t@.take(k as int) =~= t@);
    chars_to_string(out.as_slice())
}

/// The warning printed for a skipped language table row.
pub fn malformed_language_warning(path: &str, row: usize) -> (r: String)
    ensures
        r@ == language_warning_text(path@, row),
{
    let mut tail: Vec<u8> = Vec::new();
    tail.push(58u8);
    crate::numtext::push_decimal_u64(&mut tail, row as u64);
    push_bytes(&mut tail, &[58u8, 32, 115, 107, 105, 112, 112, 105, 110, 103, 32, 109, 97, 108, 102, 111, 114, 109, 101, 100, 32, 78, 83, 108, 97, 110, 103, 32, 114, 111, 119, 58, 32, 109, 105, 115, 115, 105, 110, 103, 32, 116, 97, 98, 32, 115, 101, 112, 97, 114, 97, 116, 111, 114]);
    proof {
        crate::textenc::lemma_nat_digits_ascii(row as nat);
        assert(tail@ =~= seq![58u8] + crate::numtext::nat_digits(row as nat) + language_reason());
        lemma_ascii_parts(seq![58u8], crate::numtext::nat_digits(row as nat));
        lemma_ascii_parts(seq![58u8] + crate::numtext::nat_digits(row as nat), language_reason());
    }
    ascii_path_ascii(&[119u8, 97, 114, 110, 105, 110, 103, 58, 32], path, tail.as_slice())
}

/// The warning printed for a skipped constant-string row.
pub fn malformed_const_string_warning(path: &str, row: usize, kind: MalformedConstStringRowKind) -> (r: String)
    ensures
        r@ == const_string_warning_text(path@, row, kind),
{
    let mut tail: Vec<u8> = Vec::new();
    tail.push(58u8);
    crate::numtext::push_decimal_u64(&mut tail, row as u64);
    push_bytes(&mut tail, &[58u8, 32, 115, 107, 105, 112, 112, 105, 110, 103, 32, 109, 97, 108, 102, 111, 114, 109, 101, 100, 32, 78, 83, 99, 108, 105, 32, 114, 111, 119, 58, 32]);
    match kind {
        MalformedConstStringRowKind::MissingVerticalTab => push_bytes(&mut tail, &[109u8, 105, 115, 115, 105, 110, 103, 32, 118, 101, 114, 116, 105, 99, 97, 108, 45, 116, 97, 98, 32, 115, 101, 112, 97, 114, 97, 116, 111, 114]),
        MalformedConstStringRowKind::InvalidIntegerKey => push_bytes(&mut tail, &[105u8, 110, 118, 97, 108, 105, 100, 32, 115, 105, 103, 110, 101, 100, 32, 100, 101, 99, 105, 109, 97, 108, 32, 107, 101, 121]),
    }
    proof {
        crate::textenc::lemma_nat_digits_ascii(row as nat);
        assert(tail@ =~= seq![58u8] + crate::numtext::nat_digits(row as nat) + const_string_prefix() + const_string_reason(kind));
        lemma_ascii_parts(seq![58u8], crate::numtext::nat_digits(row as nat));
        lemma_ascii_parts(seq![58u8] + crate::numtext::nat_digits(row as nat), const_string_prefix());
        lemma_ascii_parts(seq![58u8] + crate::numtext::nat_digits(row as nat) + const_string_prefix(), const_string_reason(kind));
    }
    ascii_path_ascii(&[119u8, 97, 114, 110, 105, 110, 103, 58, 32], path, tail.as_slice())
}

/// A structured text format of the command line.
#[derive(Debug, Clone, Copy, PartialEq, Eq, Structural)]
pub enum TextFormatArg {
    /// From the file name.
    Auto,
    /// A language table.
    Lang,
    /// A constant-string table.
    Cli,
    /// An `NSetc` string list.
    Etc,
    /// An `NSgtdData` record.
    Gtd,
}

/// The kind of `NSgtdData` record a file name names, as the record-name table gives it.
#[derive(Debug, Clone, Copy, PartialEq, Eq, Structural)]
pub enum GtdNameKind {
    /// A word list of the abuse filter.
    Abuse,
    /// Any other record.
    Record,
}

/// Why a structured text format does not resolve.
#[derive(Debug, Clone, Copy, PartialEq, Eq, Structural)]
pub enum StructuredFormatError {
    /// Nothing in the file name names a format.
    CannotInfer,
    /// Language and constant-string tables are packed DAT payloads.
    NeedsDat { format: TextFormatArg },
    /// `NSetc` lists are DAT or LST payloads.
    EtcNeedsDatOrList,
    /// The file name is not an `NSgtdData` record name.
    UnknownGtdName,
    /// An abuse word list is an LST payload.
    GtdAbuseNeedsList { kind: TextPayloadKind },
    /// Other `NSgtdData` records are DAT payloads.
    GtdNeedsDat { kind: TextPayloadKind },
}

/// `conststring.dat`
pub open spec fn const_string_word() -> Seq<u8> {
    seq![99u8, 111, 110, 115, 116, 115, 116, 114, 105, 110, 103, 46, 100, 97, 116]
}

/// Whether a path's file name is `conststring.dat`, ignoring ASCII case.
pub open spec fn is_const_string_name(path: Seq<char>) -> bool {
    path_file_name(path) matches Some(n) && eq_ignore_ascii_case(n, const_string_word())
}

/// The structured format of a payload: the explicit one, else a language table for a
/// `_code_<locale>_<table>.txt` name, a constant-string table for `conststring.dat`, an
/// `NSetc` list for its two names, an `NSgtdData` record for a record name (`gtd` is
/// what the record-name table says of the path); then the format must fit the payload
/// kind.
pub open spec fn structured_format(
    path: Seq<char>,
    kind: TextPayloadKind,
    format: TextFormatArg,
    gtd: Option<GtdNameKind>,
) -> Result<TextFormatArg, StructuredFormatError> {
    let chosen = if format != TextFormatArg::Auto {
        Some(format)
    } else if language_locale_spec(path) is Some {
        Some(TextFormatArg::Lang)
    } else if is_const_string_name(path) {
        Some(TextFormatArg::Cli)
    } else if is_nsetc_name(path) {
        Some(TextFormatArg::Etc)
    } else if gtd is Some {
        Some(TextFormatArg::Gtd)
    } else {
        None
    };
    match chosen {
        None => Err(StructuredFormatError::CannotInfer),
        Some(f) => match f {
            TextFormatArg::Lang | TextFormatArg::Cli => if kind != TextPayloadKind::Dat {
                Err(StructuredFormatError::NeedsDat { format: f })
            } else {
                Ok(f)
            },
            TextFormatArg::Etc => if kind == TextPayloadKind::Raw {
                Err(StructuredFormatError::EtcNeedsDatOrList)
            } else {
                Ok(f)
            },
            TextFormatArg::Gtd => match gtd {
                None => Err(StructuredFormatError::UnknownGtdName),
                Some(GtdNameKind::Abuse) => if kind == TextPayloadKind::List {
                    Ok(f)
                } else {
                    Err(StructuredFormatError::GtdAbuseNeedsList { kind })
                },
                Some(GtdNameKind::Record) => if kind == TextPayloadKind::Dat {
                    Ok(f)
                } else {
                    Err(StructuredFormatError::GtdNeedsDat { kind })
                },
            },
            TextFormatArg::Auto => Ok(f),
        },
    }
}

/// Resolves the structured format of a payload; `gtd` is the kind of `NSgtdData` record
/// the path names, if it names one.
pub fn resolve_structured_format(
    path: &str,
    kind: TextPayloadKind,
    format: TextFormatArg,
    gtd: Option<GtdNameKind>,
) -> (r: Result<TextFormatArg, StructuredFormatError>)
    ensures
        r == structured_format(path@, kind, format, gtd),
{
    let chosen = if format != TextFormatArg::Auto {
        format
    } else if language_locale(path).is_some() {
        TextFormatArg::Lang
    } else if match file_name_chars(path) {
        Some(n) => is_word(n.as_slice(), &[99u8, 111, 110, 115, 116, 115, 116, 114, 105, 110, 103, 46, 100, 97, 116]),
        None => false,
    } {
        TextFormatArg::Cli
    } else if is_nsetc_payload_name(path) {
        TextFormatArg::Etc
    } else if gtd.is_some() {
        TextFormatArg::Gtd
    } else {
        return Err(StructuredFormatError::CannotInfer);
    };
    match chosen {
        TextFormatArg::Lang | TextFormatArg::Cli => if kind != TextPayloadKind::Dat {
            Err(StructuredFormatError::NeedsDat { format: chosen })
        } else {
            Ok(chosen)
        },
        TextFormatArg::Etc => if kind == TextPayloadKind::Raw {
            Err(StructuredFormatError::EtcNeedsDatOrList)
        } else {
            Ok(chosen)
        },
        TextFormatArg::Gtd => match gtd {
            None => Err(StructuredFormatError::UnknownGtdName),
            Some(GtdNameKind::Abuse) => if kind == TextPayloadKind::List {
                Ok(chosen)
            } else {
                Err(StructuredFormatError::GtdAbuseNeedsList { kind })
            },
            Some(GtdNameKind::Record) => if kind == TextPayloadKind::Dat {
                Ok(chosen)
            } else {
                Err(StructuredFormatError::GtdNeedsDat { kind })
            },
        },
        TextFormatArg::Auto => Ok(chosen),
    }
}

} // verus!
