use taletool::structured_text::{
    encoding_for_locale, is_nsetc_payload_name, language_locale, malformed_const_string_warning,
    malformed_language_warning, packed_flag_for_text_record, payload_kind_label, preview_text,
    resolve_cli_encoding, resolve_etc_encoding, resolve_language_encoding,
    resolve_structured_format, resolve_text_payload_kind, GtdNameKind, MalformedConstStringRowKind,
    StructuredFormatError, StructuredTextError, TextEncoding, TextFormatArg, TextPayloadKindArg,
};
use taletool::text_archive::TextPayloadKind;

#[test]
fn infers_supported_language_encodings() {
    let cases = [
        ("_code_cz_Item.txt", TextEncoding::Windows1250),
        ("_code_gsp_Item.txt", TextEncoding::Windows1252),
        ("_code_in_Item.txt", TextEncoding::Windows1252),
        ("_code_jp_Item.txt", TextEncoding::ShiftJis),
        ("_code_kr_Item.txt", TextEncoding::EucKr),
        ("_code_ru_Item.txt", TextEncoding::Windows1251),
        ("_code_tr_Item.txt", TextEncoding::Windows1254),
        ("_code_tw_Item.txt", TextEncoding::Big5),
    ];
    for (name, expected) in cases {
        assert_eq!(resolve_language_encoding(name, None).unwrap(), expected);
    }
}

#[test]
fn encoding_override_supports_unknown_language_locale() {
    assert_eq!(
        resolve_language_encoding("_code_zz_Item.txt", Some(TextEncoding::Windows1252)).unwrap(),
        TextEncoding::Windows1252
    );
    assert!(resolve_language_encoding("_code_zz_Item.txt", None).is_err());
    assert_eq!(
        resolve_language_encoding("_code_zz_Item.txt", None).unwrap_err(),
        StructuredTextError::UnknownLocale { locale: "zz".to_owned() }
    );
    assert_eq!(
        resolve_language_encoding("Item.txt", None).unwrap_err(),
        StructuredTextError::NoLocale { path: "Item.txt".to_owned() }
    );
}

#[test]
fn recognizes_only_nslang_payload_names() {
    assert_eq!(language_locale("_code_UK_Item.txt"), Some("uk".to_owned()));
    assert!(language_locale("conststring.dat").is_none());
    assert!(language_locale("_code_uk_.txt").is_none());
}

#[test]
fn language_locale_reads_only_the_file_name() {
    assert_eq!(language_locale("data/lang/_CODE_de_Item.TXT"), Some("de".to_owned()));
    assert!(language_locale("_code_/x.txt").is_none());
    assert!(language_locale("_code__Item.txt").is_none());
    assert!(language_locale("_code_uk.txt").is_none());
    assert_eq!(encoding_for_locale("PL"), Some(TextEncoding::Windows1250));
    assert_eq!(encoding_for_locale("xx"), None);
}

#[test]
fn resolves_cli_and_etc_encodings() {
    assert!(resolve_cli_encoding(None).is_err());
    assert_eq!(resolve_cli_encoding(Some(TextEncoding::Windows1250)).unwrap(), TextEncoding::Windows1250);
    assert_eq!(resolve_etc_encoding(None), TextEncoding::EucKr);
    assert_eq!(resolve_etc_encoding(Some(TextEncoding::Windows1252)), TextEncoding::Windows1252);
    assert!(is_nsetc_payload_name("MiniGame6WordData.dat"));
    assert!(is_nsetc_payload_name("dir/TABOOSTR.LST"));
    assert!(!is_nsetc_payload_name("other.dat"));
}

#[test]
fn malformed_warning_contains_path_row_and_reason() {
    assert_eq!(
        malformed_language_warning("_code_uk_Item.txt", 42),
        "warning: _code_uk_Item.txt:42: skipping malformed NSlang row: missing tab separator"
    );
    assert_eq!(
        malformed_const_string_warning("conststring.dat", 7, MalformedConstStringRowKind::InvalidIntegerKey),
        "warning: conststring.dat:7: skipping malformed NScli row: invalid signed decimal key"
    );
    assert_eq!(
        malformed_const_string_warning("c.dat", 0, MalformedConstStringRowKind::MissingVerticalTab),
        "warning: c.dat:0: skipping malformed NScli row: missing vertical-tab separator"
    );
}

#[test]
fn text_payload_kinds_labels_and_previews() {
    assert_eq!(resolve_text_payload_kind("a/B.LST", TextPayloadKindArg::Auto), TextPayloadKind::List);
    assert_eq!(resolve_text_payload_kind("b.Txt", TextPayloadKindArg::Auto), TextPayloadKind::Dat);
    assert_eq!(resolve_text_payload_kind("b.bin", TextPayloadKindArg::Auto), TextPayloadKind::Raw);
    assert_eq!(resolve_text_payload_kind("b.bin", TextPayloadKindArg::List), TextPayloadKind::List);
    assert_eq!(packed_flag_for_text_record("Item.DAT"), 1);
    assert_eq!(packed_flag_for_text_record("x.lst"), 0);
    assert_eq!(payload_kind_label(TextPayloadKind::List), "list");
    assert_eq!(preview_text(b"a\r\nb"), "a\\r\\nb");
    let long = "x".repeat(100);
    assert_eq!(preview_text(long.as_bytes()), format!("{}...", "x".repeat(96)));
    assert_eq!(preview_text(&[0xff, b'a']), "\u{fffd}a");
}

#[test]
fn explicit_language_format_accepts_a_renamed_dat_payload() {
    assert_eq!(
        resolve_structured_format("Item.txt", TextPayloadKind::Dat, TextFormatArg::Lang, None).unwrap(),
        TextFormatArg::Lang
    );
    assert!(resolve_structured_format("Item.txt", TextPayloadKind::Dat, TextFormatArg::Auto, None).is_err());
    assert!(resolve_language_encoding("Item.txt", Some(TextEncoding::Windows1252)).is_ok());
    assert!(resolve_language_encoding("Item.txt", None).is_err());
}

#[test]
fn resolves_const_string_format_and_requires_an_encoding() {
    assert_eq!(
        resolve_structured_format("conststring.dat", TextPayloadKind::Dat, TextFormatArg::Auto, None).unwrap(),
        TextFormatArg::Cli
    );
    assert_eq!(
        resolve_structured_format("strings.txt", TextPayloadKind::Dat, TextFormatArg::Cli, None).unwrap(),
        TextFormatArg::Cli
    );
    assert!(resolve_cli_encoding(None).is_err());
    assert_eq!(resolve_cli_encoding(Some(TextEncoding::Windows1250)).unwrap(), TextEncoding::Windows1250);
}

#[test]
fn resolves_nsetc_formats_and_encoding() {
    for (name, kind) in [("MiniGame6WordData.dat", TextPayloadKind::Dat), ("TABOOSTR.LST", TextPayloadKind::List)] {
        assert_eq!(
            resolve_structured_format(name, kind, TextFormatArg::Auto, None).unwrap(),
            TextFormatArg::Etc
        );
        assert!(is_nsetc_payload_name(name));
    }
    for (name, kind) in [("renamed.dat", TextPayloadKind::Dat), ("renamed.lst", TextPayloadKind::List)] {
        assert_eq!(resolve_structured_format(name, kind, TextFormatArg::Etc, None).unwrap(), TextFormatArg::Etc);
    }
    assert!(resolve_structured_format("renamed.bin", TextPayloadKind::Raw, TextFormatArg::Etc, None).is_err());
    assert!(!is_nsetc_payload_name("other.dat"));
    assert_eq!(resolve_etc_encoding(None), TextEncoding::EucKr);
    assert_eq!(resolve_etc_encoding(Some(TextEncoding::Windows1252)), TextEncoding::Windows1252);
}

#[test]
fn resolves_gtd_formats_from_native_names() {
    for (name, kind, gtd) in [
        ("Item.dat", TextPayloadKind::Dat, GtdNameKind::Record),
        ("MAPPOINTDATA.DAT", TextPayloadKind::Dat, GtdNameKind::Record),
        ("uk_nosmall.dat", TextPayloadKind::Dat, GtdNameKind::Record),
        ("HK_ABUSE.LST", TextPayloadKind::List, GtdNameKind::Abuse),
    ] {
        assert_eq!(
            resolve_structured_format(name, kind, TextFormatArg::Auto, Some(gtd)).unwrap(),
            TextFormatArg::Gtd
        );
    }
    assert_eq!(
        resolve_structured_format("uk_abuse.dat", TextPayloadKind::Dat, TextFormatArg::Gtd, Some(GtdNameKind::Abuse)),
        Err(StructuredFormatError::GtdAbuseNeedsList { kind: TextPayloadKind::Dat })
    );
    assert_eq!(
        resolve_structured_format("renamed.dat", TextPayloadKind::Dat, TextFormatArg::Gtd, None),
        Err(StructuredFormatError::UnknownGtdName)
    );
}

#[test]
fn structured_format_rejects_lang_and_cli_for_non_dat_payloads() {
    assert_eq!(
        resolve_structured_format("_code_uk_Item.txt", TextPayloadKind::List, TextFormatArg::Auto, None),
        Err(StructuredFormatError::NeedsDat { format: TextFormatArg::Lang })
    );
    assert_eq!(
        resolve_structured_format("dir/CONSTSTRING.DAT", TextPayloadKind::Raw, TextFormatArg::Auto, None),
        Err(StructuredFormatError::NeedsDat { format: TextFormatArg::Cli })
    );
    assert_eq!(
        resolve_structured_format("Item.lst", TextPayloadKind::List, TextFormatArg::Gtd, Some(GtdNameKind::Record)),
        Err(StructuredFormatError::GtdNeedsDat { kind: TextPayloadKind::List })
    );
    assert_eq!(
        resolve_structured_format("x.bin", TextPayloadKind::Raw, TextFormatArg::Auto, None),
        Err(StructuredFormatError::CannotInfer)
    );
}
