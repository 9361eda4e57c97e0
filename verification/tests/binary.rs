use taletool::binary::{family_archive_name, is_family_chunk_name};
use std::io::Read;

use taletool::binary::{
    write_binary_nos_archive_bytes, BinaryCompression, BinaryNosArchive, BinaryNosArchiveError,
    BinaryNosArchiveWriteEntry, BinaryNosArchiveWriteOptions, BinaryNosSplitArchive,
};

#[test]
fn parses_raw_archive_entry() {
    let mut data = vec![0_u8; 21 + 8];
    data[16..20].copy_from_slice(&1_i32.to_le_bytes());
    data[21..25].copy_from_slice(&7_i32.to_le_bytes());
    data[25..29].copy_from_slice(&29_i32.to_le_bytes());
    data.extend_from_slice(&[0, 0, 0, 0]);
    data.extend_from_slice(&3_u32.to_le_bytes());
    data.extend_from_slice(&3_u32.to_le_bytes());
    data.push(0);
    data.extend_from_slice(&[1, 2, 3]);

    let archive = BinaryNosArchive::from_bytes("fixture.NOS".to_string(), data).unwrap();
    let payload = archive.read_entry(7).unwrap().unwrap();
    assert_eq!(payload.data, vec![1, 2, 3]);
}

#[test]
fn reads_duplicate_ids_by_specific_entry() {
    let mut data = vec![0_u8; 21 + 16];
    data[16..20].copy_from_slice(&2_i32.to_le_bytes());
    data[21..25].copy_from_slice(&7_i32.to_le_bytes());
    data[25..29].copy_from_slice(&37_i32.to_le_bytes());
    data[29..33].copy_from_slice(&7_i32.to_le_bytes());
    data[33..37].copy_from_slice(&51_i32.to_le_bytes());

    data.extend_from_slice(&[0, 0, 0, 0]);
    data.extend_from_slice(&1_u32.to_le_bytes());
    data.extend_from_slice(&1_u32.to_le_bytes());
    data.push(0);
    data.push(1);

    data.extend_from_slice(&[0, 0, 0, 0]);
    data.extend_from_slice(&1_u32.to_le_bytes());
    data.extend_from_slice(&1_u32.to_le_bytes());
    data.push(0);
    data.push(2);

    let archive = BinaryNosArchive::from_bytes("fixture.NOS".to_string(), data).unwrap();
    assert_eq!(archive.read_entry(7).unwrap().unwrap().data, vec![1]);
    assert_eq!(
        archive
            .read_entry_payload(&archive.entries()[1])
            .unwrap()
            .data,
        vec![2]
    );
}

#[test]
fn writes_raw_archive_entry() {
    let options = BinaryNosArchiveWriteOptions {
        header: *b"NT Data 06\0\0\x15\x07\x04 ",
        direct_index: 0,
        compression: BinaryCompression::Raw,
        zlib_level: 9,
    };
    let data = write_binary_nos_archive_bytes(
        &[BinaryNosArchiveWriteEntry {
            file_id: 7,
            compression: None,
            data: vec![1, 2, 3],
        }],
        &options,
    )
    .unwrap();
    let archive = BinaryNosArchive::from_bytes("fixture.NOS".to_string(), data).unwrap();
    assert_eq!(archive.entries()[0].compression, BinaryCompression::Raw);
    assert_eq!(archive.read_entry(7).unwrap().unwrap().data, vec![1, 2, 3]);
}

#[test]
fn writes_zlib_archive_entry() {
    let options = BinaryNosArchiveWriteOptions {
        header: *b"NT Data 02\0\0\x15\x07\x04 ",
        direct_index: 0,
        compression: BinaryCompression::Zlib,
        zlib_level: 1,
    };
    let data = write_binary_nos_archive_bytes(
        &[BinaryNosArchiveWriteEntry {
            file_id: 7,
            compression: None,
            data: vec![1, 2, 3, 4, 5, 6],
        }],
        &options,
    )
    .unwrap();
    let archive = BinaryNosArchive::from_bytes("fixture.NOS".to_string(), data).unwrap();
    assert_eq!(archive.entries()[0].compression, BinaryCompression::Zlib);
    let stored = archive
        .read_entry_stored_bytes(&archive.entries()[0])
        .unwrap()
        .to_vec();
    let mut expected = Vec::new();
    flate2::read::ZlibEncoder::new(&[1u8, 2, 3, 4, 5, 6][..], flate2::Compression::new(1))
        .read_to_end(&mut expected)
        .unwrap();
    assert_eq!(stored, expected);
    assert_ne!(stored, vec![1, 2, 3, 4, 5, 6]);
    assert_eq!(
        archive.read_entry(7).unwrap().unwrap().data,
        vec![1, 2, 3, 4, 5, 6]
    );
}

#[test]
fn writes_entry_compression_overrides() {
    let options = BinaryNosArchiveWriteOptions {
        header: *b"NT Data 02\0\0\x15\x07\x04 ",
        direct_index: 0,
        compression: BinaryCompression::Zlib,
        zlib_level: 9,
    };
    let data = write_binary_nos_archive_bytes(
        &[
            BinaryNosArchiveWriteEntry {
                file_id: 1,
                compression: None,
                data: b"default zlib".to_vec(),
            },
            BinaryNosArchiveWriteEntry {
                file_id: 2,
                compression: Some(BinaryCompression::Raw),
                data: b"forced raw".to_vec(),
            },
        ],
        &options,
    )
    .unwrap();
    let archive = BinaryNosArchive::from_bytes("fixture.NOS".to_string(), data).unwrap();

    assert_eq!(archive.entries()[0].compression, BinaryCompression::Zlib);
    assert_eq!(archive.entries()[1].compression, BinaryCompression::Raw);
    assert_eq!(archive.read_entry(1).unwrap().unwrap().data, b"default zlib");
    assert_eq!(archive.read_entry(2).unwrap().unwrap().data, b"forced raw");
}

#[test]
fn builds_archive_from_scratch_and_reads_from_memory() {
    let options = BinaryNosArchiveWriteOptions::new(
        *b"NT Data 06\0\0\x15\x07\x04 ",
        0,
        BinaryCompression::Raw,
        9,
    );
    let archive = BinaryNosArchive::from_entries(
        "scratch.NOS".to_string(),
        vec![
            BinaryNosArchiveWriteEntry::new(7, b"seven".to_vec()),
            BinaryNosArchiveWriteEntry::with_compression(8, BinaryCompression::Raw, b"eight".to_vec()),
        ],
        &options,
    )
    .unwrap();

    assert_eq!(archive.entries().len(), 2);
    assert_eq!(archive.records().unwrap()[0].data, b"seven");

    let memory = BinaryNosArchive::from_memory(archive.as_bytes().to_vec()).unwrap();
    assert_eq!(memory.read_entry(8).unwrap().unwrap().data, b"eight");
    assert_eq!(memory.path(), "<memory>");
}

#[test]
fn mutates_archive_records_and_rebuilds_metadata() {
    let options = BinaryNosArchiveWriteOptions::new(
        *b"NT Data 06\0\0\x15\x07\x04 ",
        0,
        BinaryCompression::Raw,
        9,
    );
    let mut archive = BinaryNosArchive::empty("mutable.NOS".to_string(), &options).unwrap();

    let inserted_index = archive
        .push_record(BinaryNosArchiveWriteEntry::new(10, b"ten".to_vec()), &options)
        .unwrap();
    assert_eq!(inserted_index, 0);
    archive
        .insert_record(0, BinaryNosArchiveWriteEntry::new(5, b"five".to_vec()), &options)
        .unwrap();

    let old = archive
        .replace_record(10, b"updated".to_vec(), Some(BinaryCompression::Raw), &options)
        .unwrap()
        .unwrap();
    assert_eq!(old.data, b"ten");

    let removed = archive.remove_record(5, &options).unwrap().unwrap();
    assert_eq!(removed.data, b"five");

    assert_eq!(archive.entries().len(), 1);
    assert_eq!(archive.entries()[0].file_id, 10);
    assert_eq!(archive.read_entry(10).unwrap().unwrap().data, b"updated");
    assert_eq!(archive.entries()[0].data_offset, 21 + 8);
}

#[test]
fn rejects_bad_tables_and_reports_missing_ids() {
    assert_eq!(
        BinaryNosArchive::from_memory(vec![0; 20]).unwrap_err(),
        BinaryNosArchiveError::TooSmall { path: "<memory>".to_string() }
    );
    let mut data = vec![0_u8; 21];
    data[16..20].copy_from_slice(&(-2_i32).to_le_bytes());
    assert_eq!(
        BinaryNosArchive::from_memory(data).unwrap_err(),
        BinaryNosArchiveError::InvalidCount { path: "<memory>".to_string(), count: -2 }
    );
    let mut data = vec![0_u8; 21];
    data[16..20].copy_from_slice(&1_i32.to_le_bytes());
    assert_eq!(
        BinaryNosArchive::from_memory(data).unwrap_err(),
        BinaryNosArchiveError::EntryTableOutOfBounds { path: "<memory>".to_string() }
    );

    let options = BinaryNosArchiveWriteOptions::new(*b"NT Data 06\0\0\x15\x07\x04 ", 0, BinaryCompression::Raw, 9);
    let first = BinaryNosArchive::from_entries(
        "a.NOS".to_string(),
        vec![BinaryNosArchiveWriteEntry::new(1, b"a".to_vec())],
        &options,
    )
    .unwrap();
    let second = BinaryNosArchive::from_entries(
        "b.NOS".to_string(),
        vec![BinaryNosArchiveWriteEntry::new(2, b"b".to_vec())],
        &options,
    )
    .unwrap();
    let family = BinaryNosSplitArchive::from_archives("Fam".to_string(), vec![first, second]);
    assert_eq!(family.read_entry(1).unwrap().data, b"a");
    assert_eq!(family.read_entry(2).unwrap().source.archive, "b.NOS");
    assert_eq!(family.entries().len(), 2);
    assert!(matches!(
        family.read_entry(3),
        Err(BinaryNosArchiveError::MissingFileId { file_id: 3, .. })
    ));
}

#[test]
fn family_chunk_names_start_with_the_family_and_end_in_nos() {
    assert_eq!(family_archive_name("NStpData"), "NStpData.NOS");
    assert!(is_family_chunk_name("NStpData0A.NOS", "NStpData"));
    assert!(is_family_chunk_name("NStpData.NOS", "NStpData"));
    assert!(!is_family_chunk_name("NStpData0A.nos", "NStpData"));
    assert!(!is_family_chunk_name("nstpdata0A.NOS", "NStpData"));
    assert!(!is_family_chunk_name(".NOS", "NStpData"));
}

#[test]
fn split_archive_entries_come_with_their_chunk() {
    let options = BinaryNosArchiveWriteOptions::new(*b"NT Data 06\0\0\x15\x07\x04 ", 0, BinaryCompression::Raw, 9);
    let first = BinaryNosArchive::from_entries(
        "a.NOS".to_string(),
        vec![BinaryNosArchiveWriteEntry::new(1, b"a".to_vec()), BinaryNosArchiveWriteEntry::new(3, b"c".to_vec())],
        &options,
    )
    .unwrap();
    let second = BinaryNosArchive::from_entries(
        "b.NOS".to_string(),
        vec![BinaryNosArchiveWriteEntry::new(2, b"b".to_vec())],
        &options,
    )
    .unwrap();
    let family = BinaryNosSplitArchive::from_archives("Fam".to_string(), vec![first, second]);
    let pairs: Vec<(&str, i32)> = family.entries().iter().map(|(a, e)| (a.path(), e.file_id)).collect();
    assert_eq!(pairs, vec![("a.NOS", 1), ("a.NOS", 3), ("b.NOS", 2)]);
}

#[test]
fn zlib_levels_above_nine_are_refused() {
    let options = BinaryNosArchiveWriteOptions::new(*b"NT Data 06\0\0\x15\x07\x04 ", 0, BinaryCompression::Zlib, 10);
    let entries = vec![BinaryNosArchiveWriteEntry::new(4, b"data".to_vec())];
    assert_eq!(
        write_binary_nos_archive_bytes(&entries, &options).unwrap_err(),
        BinaryNosArchiveError::InvalidZlibLevel { file_id: 4, level: 10 }
    );
    let raw = vec![BinaryNosArchiveWriteEntry::with_compression(4, BinaryCompression::Raw, b"data".to_vec())];
    assert!(write_binary_nos_archive_bytes(&raw, &options).is_ok());
}

#[test]
fn record_index_errors_name_the_archive() {
    let options = BinaryNosArchiveWriteOptions::new(*b"NT Data 06\0\0\x15\x07\x04 ", 0, BinaryCompression::Raw, 9);
    let mut archive = BinaryNosArchive::from_entries(
        "x.NOS".to_string(),
        vec![BinaryNosArchiveWriteEntry::new(1, b"a".to_vec())],
        &options,
    )
    .unwrap();
    assert_eq!(
        archive.remove_record_at(3, &options).unwrap_err(),
        BinaryNosArchiveError::RecordIndexOutOfBounds { path: "x.NOS".to_string(), index: 3, count: 1 }
    );
}

#[test]
fn payload_errors_name_the_archive() {
    let mut data = vec![0_u8; 21 + 8];
    data[16..20].copy_from_slice(&1_i32.to_le_bytes());
    data[21..25].copy_from_slice(&7_i32.to_le_bytes());
    data[25..29].copy_from_slice(&29_i32.to_le_bytes());
    data.extend_from_slice(&[0, 0, 0, 0]);
    data.extend_from_slice(&3_u32.to_le_bytes());
    data.extend_from_slice(&9_u32.to_le_bytes());
    data.push(0);
    data.extend_from_slice(&[1, 2, 3]);

    assert_eq!(
        BinaryNosArchive::from_bytes("broken.NOS".to_string(), data).unwrap_err(),
        BinaryNosArchiveError::PayloadOutOfBounds { path: "broken.NOS".to_string(), file_id: 7 }
    );
}
