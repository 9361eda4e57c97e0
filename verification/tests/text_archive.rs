use taletool::text_archive::{
    write_text_nos_archive_bytes, TextNosArchive, TextNosArchiveError, TextNosRecordInput,
    TextPayloadKind,
};

const TEXT_ARCHIVE_TRAILER_MARKER: [u8; 4] = [0xee, 0x3e, 0x32, 0x01];

fn push_text_record(out: &mut Vec<u8>, id: i32, name: &str, packed_flag: i32, payload: &[u8]) {
    out.extend_from_slice(&id.to_le_bytes());
    out.extend_from_slice(&(name.len() as i32).to_le_bytes());
    out.extend_from_slice(name.as_bytes());
    out.extend_from_slice(&packed_flag.to_le_bytes());
    out.extend_from_slice(&(payload.len() as i32).to_le_bytes());
    out.extend_from_slice(payload);
}

#[test]
fn parses_text_archive_fixture_with_timestamp() {
    let mut archive = Vec::new();
    archive.extend_from_slice(&2_i32.to_le_bytes());
    push_text_record(&mut archive, 10, "foo.dat", 1, &[1, b'X' ^ 0x33, 0xff]);
    push_text_record(&mut archive, 20, "bar.LST", 0, &[1, 0, 0, 0]);
    archive.extend_from_slice(&2.00001_f64.to_le_bytes());
    archive.extend_from_slice(&TEXT_ARCHIVE_TRAILER_MARKER);

    let parsed = TextNosArchive::from_bytes("fixture.NOS".to_string(), archive).unwrap();
    assert_eq!(parsed.records().len(), 2);
    assert_eq!(parsed.records()[0].payload_kind(), TextPayloadKind::Dat);
    assert_eq!(parsed.records()[1].payload_kind(), TextPayloadKind::List);
    assert_eq!(parsed.records()[1].name, "bar.LST");
    assert_eq!(parsed.timestamp_bytes(), Some(2.00001_f64.to_le_bytes()));
    assert_eq!(parsed.trailing_bytes(), 0);
}

#[test]
fn ignores_non_matching_text_archive_trailing_bytes() {
    let mut archive = Vec::new();
    archive.extend_from_slice(&0_i32.to_le_bytes());
    archive.extend_from_slice(&[0_u8; 12]);

    let parsed = TextNosArchive::from_bytes("fixture.NOS".to_string(), archive).unwrap();
    assert!(parsed.timestamp_bytes().is_none());
    assert_eq!(parsed.trailing_bytes(), 12);
}

#[test]
fn writes_text_archive_with_sequential_ids() {
    let bytes = write_text_nos_archive_bytes(&[
        TextNosRecordInput {
            name: "a.dat".to_owned(),
            name_bytes: b"a.dat".to_vec(),
            packed_flag: 1,
            payload: vec![1, 2],
        },
        TextNosRecordInput {
            name: "b.lst".to_owned(),
            name_bytes: b"b.lst".to_vec(),
            packed_flag: 0,
            payload: vec![3],
        },
    ])
    .unwrap();
    let archive = TextNosArchive::from_bytes("fixture.NOS".to_string(), bytes).unwrap();
    assert_eq!(archive.records()[0].id, 1);
    assert_eq!(archive.records()[1].id, 2);
    assert_eq!(archive.records()[0].payload, vec![1, 2]);
    assert_eq!(archive.records()[1].payload, vec![3]);
    assert!(archive.records()[0].is_packed());
    assert_eq!(archive.records()[1].payload_kind(), TextPayloadKind::List);
}

#[test]
fn reports_negative_lengths_and_truncated_records() {
    let mut archive = 1_i32.to_le_bytes().to_vec();
    archive.extend_from_slice(&5_i32.to_le_bytes());
    archive.extend_from_slice(&(-1_i32).to_le_bytes());
    archive.extend_from_slice(&[0; 8]);
    assert_eq!(
        TextNosArchive::from_bytes("x".to_string(), archive).unwrap_err(),
        TextNosArchiveError::InvalidLength {
            field: "record.name_len",
            value: -1
        }
    );
    assert!(matches!(
        TextNosArchive::from_bytes("x".to_string(), vec![1, 0, 0, 0]),
        Err(TextNosArchiveError::TruncatedArchive {
            field: "record_table",
            ..
        })
    ));
    let mut raw = 1_i32.to_le_bytes().to_vec();
    push_text_record(&mut raw, 3, "notes.txt", 0, b"hi");
    let parsed = TextNosArchive::from_bytes("x".to_string(), raw).unwrap();
    assert_eq!(parsed.records()[0].payload_kind(), TextPayloadKind::Raw);
}
