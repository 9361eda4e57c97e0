use taletool::binary_payloads::BinaryUnpackNamer;
use std::collections::BTreeSet;

use taletool::binary::BinaryCompression;
use taletool::binary_payloads::{
    binary_payload_output_name, explicit_indexes_for_binary_ids, order_binary_payload_entries,
    parse_binary_payload_filename, BinaryPayloadError, BinaryPayloadFilename, BinaryPayloadInput,
};

fn binary_input(source_name: &str, data_byte: u8, explicit_index: Option<usize>) -> BinaryPayloadInput {
    let parsed = parse_binary_payload_filename(source_name).unwrap();
    BinaryPayloadInput {
        file_id: parsed.file_id,
        duplicate_ordinal: parsed.duplicate_ordinal,
        explicit_index: explicit_index.or(parsed.explicit_index),
        compression: parsed.compression,
        source_name: source_name.to_owned(),
        data: vec![data_byte],
    }
}

fn meta(
    file_id: i32,
    duplicate_ordinal: Option<usize>,
    explicit_index: Option<usize>,
    compression: Option<BinaryCompression>,
) -> BinaryPayloadFilename {
    BinaryPayloadFilename { file_id, duplicate_ordinal, explicit_index, compression }
}

#[test]
fn parses_binary_payload_filename_metadata() {
    assert_eq!(parse_binary_payload_filename("123.bin").unwrap(), meta(123, None, None, None));
    assert_eq!(parse_binary_payload_filename("00123.bin").unwrap(), meta(123, None, None, None));
    assert_eq!(parse_binary_payload_filename("123__2.bin").unwrap(), meta(123, Some(2), None, None));
    assert_eq!(parse_binary_payload_filename("123__002.bin").unwrap(), meta(123, Some(2), None, None));
    assert_eq!(
        parse_binary_payload_filename("123__index124.bin").unwrap(),
        meta(123, None, Some(124), None)
    );
    assert_eq!(
        parse_binary_payload_filename("123__index000124.bin").unwrap(),
        meta(123, None, Some(124), None)
    );
    assert_eq!(
        parse_binary_payload_filename("123__2__index124.bin").unwrap(),
        meta(123, Some(2), Some(124), None)
    );
    assert_eq!(parse_binary_payload_filename("123_custom.bin").unwrap(), meta(123, None, None, None));
}

#[test]
fn parses_binary_payload_compression_filename_metadata() {
    assert_eq!(
        parse_binary_payload_filename("123__raw.bin").unwrap(),
        meta(123, None, None, Some(BinaryCompression::Raw))
    );
    assert_eq!(
        parse_binary_payload_filename("123__zlib.bin").unwrap(),
        meta(123, None, None, Some(BinaryCompression::Zlib))
    );
    assert_eq!(
        parse_binary_payload_filename("123__2__raw.bin").unwrap(),
        meta(123, Some(2), None, Some(BinaryCompression::Raw))
    );
    assert_eq!(
        parse_binary_payload_filename("123__index124__zlib.bin").unwrap(),
        meta(123, None, Some(124), Some(BinaryCompression::Zlib))
    );
    assert_eq!(
        parse_binary_payload_filename("123__2__index124__RAW.bin").unwrap(),
        meta(123, Some(2), Some(124), Some(BinaryCompression::Raw))
    );
}

#[test]
fn payload_filename_edge_cases() {
    assert_eq!(parse_binary_payload_filename("payload.bin"), None);
    assert_eq!(parse_binary_payload_filename(""), None);
    assert_eq!(parse_binary_payload_filename("2147483648.bin"), None);
    assert_eq!(
        parse_binary_payload_filename("2147483647").unwrap(),
        meta(2147483647, None, None, None)
    );
    // The stem ends at the last dot; a leading dot is part of the stem.
    assert_eq!(parse_binary_payload_filename("7.tar.gz").unwrap(), meta(7, None, None, None));
    assert_eq!(parse_binary_payload_filename("7__3.x.bin").unwrap(), meta(7, None, None, None));
    // A zero ordinal is ignored; the first positive ordinal counts.
    assert_eq!(parse_binary_payload_filename("7__0__5.bin").unwrap(), meta(7, Some(5), None, None));
    assert_eq!(parse_binary_payload_filename("7__4__5.bin").unwrap(), meta(7, Some(4), None, None));
    // `index` is case sensitive, compression markers are not.
    assert_eq!(parse_binary_payload_filename("7__INDEX3.bin").unwrap(), meta(7, None, None, None));
    assert_eq!(
        parse_binary_payload_filename("7__ZLib.bin").unwrap(),
        meta(7, None, None, Some(BinaryCompression::Zlib))
    );
    // Three underscores leave one on the next token.
    assert_eq!(parse_binary_payload_filename("7___raw.bin").unwrap(), meta(7, None, None, None));
}

#[test]
fn binary_payload_output_name_appends_compression_marker_last() {
    let mut used_names: Vec<String> = Vec::new();

    assert_eq!(
        binary_payload_output_name(105, 1, None, Some(BinaryCompression::Raw), &mut used_names)
            .unwrap(),
        "105__raw.bin"
    );
    assert_eq!(
        binary_payload_output_name(0, 2, Some(93), Some(BinaryCompression::Raw), &mut used_names)
            .unwrap(),
        "0__index93__raw.bin"
    );
}

#[test]
fn output_names_fall_back_to_the_ordinal_and_then_refuse() {
    let mut used_names: Vec<String> = Vec::new();
    assert_eq!(binary_payload_output_name(-4, 1, None, None, &mut used_names).unwrap(), "-4.bin");
    assert_eq!(binary_payload_output_name(9, 3, None, None, &mut used_names).unwrap(), "9__3.bin");
    assert_eq!(
        binary_payload_output_name(9, 1, Some(5), None, &mut used_names).unwrap(),
        "9__index5.bin"
    );
    assert_eq!(
        binary_payload_output_name(9, 2, Some(5), None, &mut used_names).unwrap(),
        "9__2__index5.bin"
    );
    let error = binary_payload_output_name(9, 2, Some(5), None, &mut used_names).unwrap_err();
    assert_eq!(error, BinaryPayloadError::DuplicateOutputName { file_id: 9 });
    assert_eq!(error.message(), "generated duplicate output filename for file id 9");
    let error = binary_payload_output_name(-4, 1, None, None, &mut used_names).unwrap_err();
    assert_eq!(error, BinaryPayloadError::DuplicateOutputName { file_id: -4 });
    assert_eq!(used_names.len(), 4);
}

#[test]
fn binary_payload_order_sorts_clean_files_by_id() {
    let ordered = order_binary_payload_entries(vec![
        binary_input("7.bin", 7, None),
        binary_input("2.bin", 2, None),
        binary_input("5.bin", 5, None),
    ])
    .unwrap();

    assert_eq!(ordered.iter().map(|entry| entry.file_id).collect::<Vec<_>>(), vec![2, 5, 7]);
}

#[test]
fn binary_payload_order_uses_duplicate_ordinal_as_tie_breaker() {
    let ordered = order_binary_payload_entries(vec![
        binary_input("123__3.bin", 3, None),
        binary_input("123.bin", 1, None),
        binary_input("123__2.bin", 2, None),
    ])
    .unwrap();

    assert_eq!(ordered.iter().map(|entry| entry.data[0]).collect::<Vec<_>>(), vec![1, 2, 3]);
}

#[test]
fn binary_payload_order_uses_source_name_then_input_order() {
    let ordered = order_binary_payload_entries(vec![
        binary_input("5_b.bin", 1, None),
        binary_input("5_a.bin", 2, None),
        binary_input("5_a.bin", 3, None),
    ])
    .unwrap();

    assert_eq!(ordered.iter().map(|entry| entry.data[0]).collect::<Vec<_>>(), vec![2, 3, 1]);
}

#[test]
fn binary_payload_order_reserves_explicit_indexes() {
    let mut entries = Vec::new();
    entries.push(binary_input("0.bin", 0, None));
    for id in 1..93 {
        entries.push(binary_input(&format!("{id}.bin"), id as u8, None));
    }
    entries.push(binary_input("0__index93.bin", 93, None));
    entries.push(binary_input("94.bin", 94, None));
    entries.push(binary_input("95.bin", 95, None));
    entries.push(binary_input("96.bin", 96, None));
    entries.push(binary_input("0__index97.bin", 97, None));

    let ordered = order_binary_payload_entries(entries).unwrap();
    assert_eq!(ordered[0].file_id, 0);
    assert_eq!(ordered[93].file_id, 0);
    assert_eq!(ordered[97].file_id, 0);
    assert_eq!(ordered[1].file_id, 1);
    assert_eq!(ordered[94].file_id, 94);
}

#[test]
fn binary_payload_order_preserves_compression_overrides() {
    let ordered = order_binary_payload_entries(vec![
        binary_input("2__raw.bin", 2, None),
        binary_input("1.bin", 1, None),
        binary_input("3__index1__zlib.bin", 3, None),
    ])
    .unwrap();

    assert_eq!(ordered[0].file_id, 1);
    assert_eq!(ordered[0].compression, None);
    assert_eq!(ordered[1].file_id, 3);
    assert_eq!(ordered[1].compression, Some(BinaryCompression::Zlib));
    assert_eq!(ordered[2].file_id, 2);
    assert_eq!(ordered[2].compression, Some(BinaryCompression::Raw));
}

#[test]
fn binary_payload_order_rejects_duplicate_explicit_indexes() {
    let error = order_binary_payload_entries(vec![
        binary_input("1__index1.bin", 1, None),
        binary_input("2__index1.bin", 2, None),
    ])
    .unwrap_err();

    assert!(error.message().contains("explicit index 1"));
    assert_eq!(error, BinaryPayloadError::DuplicateExplicitIndex { index: 1 });
}

#[test]
fn binary_payload_order_rejects_out_of_range_indexes() {
    let error = order_binary_payload_entries(vec![
        binary_input("1.bin", 1, None),
        binary_input("2__index2.bin", 2, None),
    ])
    .unwrap_err();

    assert_eq!(
        error.message(),
        "2__index2.bin claims explicit index 2, but this output chunk has 2 entries"
    );
}

#[test]
fn explicit_index_detector_marks_only_displaced_zero_rows() {
    let mut ids = Vec::new();
    ids.push(0);
    ids.extend(1..93);
    ids.push(0);
    ids.extend([94, 95, 96]);
    ids.push(0);

    assert_eq!(explicit_indexes_for_binary_ids(&ids), BTreeSet::from([93, 97]));
}

#[test]
fn unpacked_names_pack_back_into_the_same_table() {
    let ids = vec![5, 3, 5, 1, 3, 5];
    let explicit = explicit_indexes_for_binary_ids(&ids);
    let mut used_names: Vec<String> = Vec::new();
    let mut inputs = Vec::new();
    for (row, id) in ids.iter().enumerate() {
        let ordinal = ids[..=row].iter().filter(|other| *other == id).count();
        let index = explicit.contains(&row).then_some(row);
        let name = binary_payload_output_name(*id, ordinal, index, None, &mut used_names).unwrap();
        inputs.push(binary_input(&name, row as u8, None));
    }
    inputs.reverse();
    let ordered = order_binary_payload_entries(inputs).unwrap();
    assert_eq!(ordered.iter().map(|entry| entry.data[0]).collect::<Vec<_>>(), vec![0, 1, 2, 3, 4, 5]);
}

#[test]
fn unpack_namer_counts_duplicates_and_keeps_tokens() {
    let mut namer = BinaryUnpackNamer::new();
    let none = BTreeSet::new();
    let raw = BinaryCompression::Raw;
    let zlib = BinaryCompression::Zlib;
    assert_eq!(namer.next_name(5, 0, &none, raw, raw).unwrap(), "5.bin");
    assert_eq!(namer.next_name(5, 1, &none, raw, raw).unwrap(), "5__2.bin");
    assert_eq!(namer.next_name(7, 2, &none, zlib, raw).unwrap(), "7__zlib.bin");
    let explicit: BTreeSet<usize> = [3usize].into_iter().collect();
    assert_eq!(namer.next_name(9, 3, &explicit, raw, raw).unwrap(), "9__index3.bin");
}
