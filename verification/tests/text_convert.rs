use taletool::structured_text::{GtdNameKind, StructuredFormatError, TextEncoding, TextFormatArg};
use taletool::text_archive::{write_text_nos_archive_bytes, TextNosArchive, TextNosRecordInput, TextPayloadKind};
use taletool::text_convert::{
    converted_output_path, family_for_format, named_text_archive, resolve_text_archive_conversion,
    TextArchiveFamily, TextArchiveOutputMode, TextConvertError,
};

fn archive(path: &str, records: &[(&str, i32)]) -> TextNosArchive {
    let inputs: Vec<TextNosRecordInput> = records
        .iter()
        .map(|(name, packed)| TextNosRecordInput {
            name: name.to_string(),
            name_bytes: name.as_bytes().to_vec(),
            packed_flag: *packed,
            payload: b"x".to_vec(),
        })
        .collect();
    let bytes = write_text_nos_archive_bytes(&inputs).unwrap();
    TextNosArchive::from_bytes(path.to_string(), bytes).unwrap()
}

fn paths(plan: &taletool::text_convert::TextArchiveConversionPlan) -> Vec<String> {
    plan.records.iter().map(|r| r.relative_path.clone()).collect()
}

#[test]
fn archive_names_identify_families_locales_and_code_pages() {
    let gtd = named_text_archive("out/NSgtdData.NOS").unwrap().unwrap();
    assert_eq!(gtd.family, TextArchiveFamily::Gtd);
    assert_eq!(gtd.encoding, None);
    let cli = named_text_archive("NScliData.NOS").unwrap().unwrap();
    assert_eq!((cli.family, cli.encoding), (TextArchiveFamily::Cli, Some(TextEncoding::EucKr)));
    let lang = named_text_archive("NSlangData_UK.NOS").unwrap().unwrap();
    assert_eq!(lang.family, TextArchiveFamily::Lang);
    assert_eq!(lang.locale.as_deref(), Some("uk"));
    assert_eq!(lang.encoding, Some(TextEncoding::Windows1252));
    let cli_zz = named_text_archive("nsclidata_zz.nos").unwrap().unwrap();
    assert_eq!((cli_zz.family, cli_zz.encoding), (TextArchiveFamily::Cli, None));
    assert!(named_text_archive("renamed.NOS").unwrap().is_none());
    assert!(matches!(named_text_archive("NSlangData_.NOS"), Err(TextConvertError::EmptyArchiveLocale)));
}

#[test]
fn converted_paths_escape_names_and_use_json_stems() {
    assert_eq!(converted_output_path("Item.dat", TextArchiveOutputMode::Json).unwrap(), "Item.json");
    assert_eq!(converted_output_path("a b.dat", TextArchiveOutputMode::PlainText).unwrap(), "a%20b.dat");
    assert_eq!(converted_output_path("", TextArchiveOutputMode::Json).unwrap(), "unnamed.json");
    assert_eq!(converted_output_path("..", TextArchiveOutputMode::Json), None);
    assert_eq!(family_for_format(TextFormatArg::Etc), TextArchiveFamily::Etc);
    assert_eq!(TextArchiveFamily::Lang.name(), "NSlangData");
    assert_eq!(TextArchiveFamily::Cli.format(), TextFormatArg::Cli);
}

#[test]
fn language_archive_plan_takes_the_locale_code_page() {
    let a = archive("renamed.NOS", &[("_code_uk_Item.txt", 1), ("_code_UK_Skill.txt", 1)]);
    let plan = resolve_text_archive_conversion(&a, &[], TextArchiveOutputMode::Json, false, None).unwrap();
    assert_eq!(plan.family, TextArchiveFamily::Lang);
    assert_eq!(plan.encoding, Some(TextEncoding::Windows1252));
    assert_eq!(paths(&plan), vec!["_code_uk_Item.json", "_code_UK_Skill.json"]);
    assert_eq!(plan.records[1].index, 1);
}

#[test]
fn conflicting_language_locales_are_refused() {
    let a = archive("renamed.NOS", &[("_code_uk_Item.txt", 1), ("_code_de_Skill.txt", 1)]);
    match resolve_text_archive_conversion(&a, &[], TextArchiveOutputMode::Json, false, None) {
        Err(TextConvertError::LocaleConflict { index, locale, expected }) => {
            assert_eq!((index, locale.as_str(), expected.as_str()), (1, "de", "uk"));
        }
        _ => panic!("expected a locale conflict"),
    }
    let named = archive("NSlangData_de.NOS", &[("_code_uk_Item.txt", 1)]);
    assert!(matches!(
        resolve_text_archive_conversion(&named, &[], TextArchiveOutputMode::Json, false, None),
        Err(TextConvertError::ArchiveLocaleConflict { index: 0, .. })
    ));
}

#[test]
fn records_of_another_family_are_refused() {
    let a = archive("NSgtdData.NOS", &[("conststring.dat", 1)]);
    assert_eq!(
        resolve_text_archive_conversion(&a, &[None], TextArchiveOutputMode::Json, false, None).unwrap_err(),
        TextConvertError::FamilyMismatch {
            index: 0,
            record_family: TextArchiveFamily::Cli,
            archive_family: TextArchiveFamily::Gtd,
        }
    );
}

#[test]
fn gtd_archives_take_no_code_page() {
    let a = archive("NSgtdData.NOS", &[("Item.dat", 1), ("HK_ABUSE.LST", 0)]);
    let kinds = [Some(GtdNameKind::Record), Some(GtdNameKind::Abuse)];
    let plan = resolve_text_archive_conversion(&a, &kinds, TextArchiveOutputMode::Json, false, None).unwrap();
    assert_eq!((plan.family, plan.encoding), (TextArchiveFamily::Gtd, None));
    assert_eq!(paths(&plan), vec!["Item.json", "HK_ABUSE.json"]);
    assert_eq!(
        resolve_text_archive_conversion(&a, &kinds, TextArchiveOutputMode::Json, true, Some(TextEncoding::EucKr))
            .unwrap_err(),
        TextConvertError::EncodingWithGtd
    );
    let plain = resolve_text_archive_conversion(&a, &kinds, TextArchiveOutputMode::PlainText, false, None).unwrap();
    assert_eq!(paths(&plain), vec!["Item.dat", "HK_ABUSE.LST"]);
    assert_eq!(
        resolve_text_archive_conversion(&a, &kinds, TextArchiveOutputMode::PlainText, true, None).unwrap_err(),
        TextConvertError::EncodingWithPlainText
    );
}

#[test]
fn nsetc_records_need_their_payload_kind_and_default_to_euc_kr() {
    let a = archive("NSetcData.NOS", &[("MiniGame6WordData.dat", 1), ("TabooStr.lst", 0)]);
    let plan = resolve_text_archive_conversion(&a, &[], TextArchiveOutputMode::Json, false, None).unwrap();
    assert_eq!((plan.family, plan.encoding), (TextArchiveFamily::Etc, Some(TextEncoding::EucKr)));
    let wrong = archive("NSetcData.NOS", &[("TabooStr.lst", 1)]);
    assert_eq!(
        resolve_text_archive_conversion(&wrong, &[], TextArchiveOutputMode::Json, false, None).unwrap_err(),
        TextConvertError::NsetcKind { index: 0, expected: TextPayloadKind::List, actual: TextPayloadKind::Dat }
    );
}

#[test]
fn cli_archives_need_a_code_page_and_outputs_must_not_collide() {
    let a = archive("renamed.NOS", &[("conststring.dat", 1)]);
    assert_eq!(
        resolve_text_archive_conversion(&a, &[], TextArchiveOutputMode::Json, false, None).unwrap_err(),
        TextConvertError::MissingCliEncoding
    );
    let plan =
        resolve_text_archive_conversion(&a, &[], TextArchiveOutputMode::Json, true, Some(TextEncoding::Big5)).unwrap();
    assert_eq!(plan.encoding, Some(TextEncoding::Big5));
    let twins = archive("NSgtdData.NOS", &[("Item.dat", 1), ("ITEM.DAT", 1)]);
    let kinds = [Some(GtdNameKind::Record), Some(GtdNameKind::Record)];
    assert_eq!(
        resolve_text_archive_conversion(&twins, &kinds, TextArchiveOutputMode::Json, false, None).unwrap_err(),
        TextConvertError::OutputCollision { previous: 0, index: 1 }
    );
}

#[test]
fn empty_or_unknown_archives_are_refused() {
    let empty = archive("renamed.NOS", &[]);
    assert_eq!(
        resolve_text_archive_conversion(&empty, &[], TextArchiveOutputMode::Json, false, None).unwrap_err(),
        TextConvertError::UnidentifiedEmptyArchive
    );
    let unknown = archive("renamed.NOS", &[("x.bin", 0)]);
    assert_eq!(
        resolve_text_archive_conversion(&unknown, &[], TextArchiveOutputMode::Json, false, None).unwrap_err(),
        TextConvertError::RecordFormat { index: 0, error: StructuredFormatError::CannotInfer }
    );
}
