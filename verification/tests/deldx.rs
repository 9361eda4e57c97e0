use taletool::deldx::{
    write_deldx_pack_bytes, DelDxPack, DelDxPackError, DelDxPackWriteEntry,
    DelDxPackWriteOptions, DelDxProblem, DELDX_PACK_HEADER_LEN, DELDX_PACK_RESERVED_HEADER_LEN,
    DELDX_PACK_RESERVED_HEADER_OFFSET, DELDX_PACK_ROW_LEN, DELDX_PACK_ROW_PREFIX_LEN,
};
use taletool::deldx_mutation::{
    apply_packed_archive_mutation, PackedArchiveMutation, PackedMutationRecord,
};

const PACK_MAGIC: &[u8] = b"DelDX Pack File ";
const PACK_MAGIC_LEN: u8 = 16;
const PACK_VERSION_OFFSET: usize = 0x14;
const PACK_COUNT_OFFSET: usize = 0x18;
const PACK_DATA_OFFSET: usize = 0x44;
const PACK_DATA_SIZE: usize = 0x48;
const PACK_PATCH_INLINE_ROW_LEN: usize = 0x50;

fn header(count: usize) -> Vec<u8> {
    let mut out = vec![0; DELDX_PACK_HEADER_LEN];
    out[0] = PACK_MAGIC_LEN;
    out[1..1 + PACK_MAGIC.len()].copy_from_slice(PACK_MAGIC);
    out[PACK_VERSION_OFFSET..PACK_VERSION_OFFSET + 4].copy_from_slice(&10i32.to_le_bytes());
    out[PACK_COUNT_OFFSET..PACK_COUNT_OFFSET + 4].copy_from_slice(&(count as i32).to_le_bytes());
    out
}

fn header_array(count: usize) -> [u8; DELDX_PACK_HEADER_LEN] {
    let mut out = [0; DELDX_PACK_HEADER_LEN];
    out.copy_from_slice(&header(count));
    out
}

fn row(name: &[u8], payload_len: usize) -> Vec<u8> {
    let mut row = vec![0; PACK_PATCH_INLINE_ROW_LEN];
    row[0] = name.len() as u8;
    row[1..1 + name.len()].copy_from_slice(name);
    row[PACK_DATA_SIZE..PACK_DATA_SIZE + 4].copy_from_slice(&(payload_len as u32).to_le_bytes());
    row
}

fn pack(entries: &[(&[u8], &[u8])]) -> Vec<u8> {
    let mut out = header(entries.len());
    out.resize(DELDX_PACK_HEADER_LEN + entries.len() * DELDX_PACK_ROW_LEN, 0);
    for (index, (name, payload)) in entries.iter().enumerate() {
        let table_offset = DELDX_PACK_HEADER_LEN + index * DELDX_PACK_ROW_LEN;
        let mut row = row(name, payload.len());
        let data_offset = out.len() as u32;
        row[PACK_DATA_OFFSET..PACK_DATA_OFFSET + 4].copy_from_slice(&data_offset.to_le_bytes());
        out[table_offset..table_offset + DELDX_PACK_ROW_LEN]
            .copy_from_slice(&row[..DELDX_PACK_ROW_LEN]);
        out.extend_from_slice(payload);
    }
    out
}

fn mutation(output_count: usize, records: &[Vec<u8>]) -> Vec<u8> {
    let mut out = header(output_count);
    out.extend_from_slice(&(records.len() as i32).to_le_bytes());
    for record in records {
        out.extend_from_slice(record);
    }
    out
}

fn copy_record(key: i32, source_index: i32) -> Vec<u8> {
    let mut out = vec![5];
    out.extend_from_slice(&key.to_le_bytes());
    out.extend_from_slice(&key.to_le_bytes());
    out.extend_from_slice(&source_index.to_le_bytes());
    out
}

fn inline_record(tag: u8, name: &[u8], payload: &[u8]) -> Vec<u8> {
    let mut out = vec![tag];
    out.extend_from_slice(&row(name, payload.len()));
    out.extend_from_slice(payload);
    out
}

#[test]
fn parses_valid_pack() {
    let bytes = pack(&[(b"base.10.wav", b"sound")]);
    let parsed = DelDxPack::from_memory(bytes).unwrap();
    assert_eq!(parsed.entries().len(), 1);
    assert_eq!(parsed.entries()[0].key, 10);
    assert_eq!(
        parsed.read_entry_payload(&parsed.entries()[0]).unwrap(),
        b"sound"
    );
}

#[test]
fn rebuilds_pack_from_entries() {
    let bytes = pack(&[(b"base.10.wav", b"sound"), (b"base.20.wav", b"")]);
    let parsed = DelDxPack::from_memory(bytes.clone()).unwrap();
    let rebuilt = write_deldx_pack_bytes(
        &parsed.write_entries().unwrap(),
        &DelDxPackWriteOptions::new(parsed.header()),
    )
    .unwrap();

    assert_eq!(rebuilt, bytes);
    let reparsed = DelDxPack::from_memory(rebuilt).unwrap();
    assert_eq!(reparsed.entries()[0].name, "base.10.wav");
    assert_eq!(reparsed.entries()[1].data_size, 0);
}

#[test]
fn rebuild_zeroes_reserved_header_bytes() {
    let mut bytes = pack(&[(b"base.10.wav", b"sound")]);
    bytes[DELDX_PACK_RESERVED_HEADER_OFFSET
        ..DELDX_PACK_RESERVED_HEADER_OFFSET + DELDX_PACK_RESERVED_HEADER_LEN]
        .copy_from_slice(&[0xf0, 0xfd, 0x7f]);
    let parsed = DelDxPack::from_memory(bytes).unwrap();
    let rebuilt = write_deldx_pack_bytes(
        &parsed.write_entries().unwrap(),
        &DelDxPackWriteOptions {
            header: parsed.header(),
        },
    )
    .unwrap();

    assert_eq!(
        &rebuilt[DELDX_PACK_RESERVED_HEADER_OFFSET
            ..DELDX_PACK_RESERVED_HEADER_OFFSET + DELDX_PACK_RESERVED_HEADER_LEN],
        &[0, 0, 0]
    );
    assert_eq!(
        DelDxPack::from_memory(rebuilt)
            .unwrap()
            .write_entries()
            .unwrap(),
        parsed.write_entries().unwrap()
    );
}

#[test]
fn mutates_pack_records_and_rebuilds_metadata() {
    let parsed = DelDxPack::from_memory(pack(&[(b"base.10.wav", b"sound")])).unwrap();
    let options = DelDxPackWriteOptions::new(parsed.header());
    let mut archive = DelDxPack::empty("snd.pck".to_string(), &options).unwrap();
    archive
        .push_record(
            DelDxPackWriteEntry::new(parsed.entries()[0].row_prefix.clone(), b"new".to_vec()),
            &options,
        )
        .unwrap();
    archive
        .replace_record_at(
            0,
            DelDxPackWriteEntry::new(parsed.entries()[0].row_prefix.clone(), b"replaced".to_vec()),
            &options,
        )
        .unwrap();

    assert_eq!(archive.entries()[0].data_size, b"replaced".len());
    assert_eq!(
        archive.read_entry_payload(&archive.entries()[0]).unwrap(),
        b"replaced"
    );
}

#[test]
fn rejects_too_new_pack_version() {
    let mut bytes = header(0);
    bytes[PACK_VERSION_OFFSET..PACK_VERSION_OFFSET + 4].copy_from_slice(&11i32.to_le_bytes());

    assert!(DelDxPack::from_memory(bytes).is_err());
}

#[test]
fn rejects_invalid_write_row_name() {
    let mut prefix = vec![0; DELDX_PACK_ROW_PREFIX_LEN];
    prefix[0] = DELDX_PACK_ROW_PREFIX_LEN as u8;
    let error = write_deldx_pack_bytes(
        &[DelDxPackWriteEntry::new(prefix, Vec::new())],
        &DelDxPackWriteOptions::new(header_array(1)),
    )
    .unwrap_err();

    assert!(matches!(
        error,
        DelDxPackError::InvalidWriteEntry {
            index: 0,
            problem: DelDxProblem::RowNameTooLong { .. }
        }
    ));
}

#[test]
fn applies_copy_inline_and_missing_copy_records() {
    let base = pack(&[(b"base.10.wav", b"base-a"), (b"base.20.wav", b"base-b")]);
    let mutation = mutation(
        3,
        &[
            copy_record(10, 0),
            inline_record(1, b"new.30.wav", b"new"),
            copy_record(999, 100),
        ],
    );

    let out = apply_packed_archive_mutation(&base, &mutation).unwrap();
    let parsed = DelDxPack::from_memory(out).unwrap();
    assert_eq!(parsed.entries().len(), 3);
    assert_eq!(parsed.entries()[0].key, 10);
    assert_eq!(parsed.entries()[1].key, 30);
    assert_eq!(parsed.entries()[2].data_size, 0);
    assert_eq!(
        parsed.read_entry_payload(&parsed.entries()[0]).unwrap(),
        b"base-a"
    );
    assert_eq!(
        parsed.read_entry_payload(&parsed.entries()[1]).unwrap(),
        b"new"
    );
}

#[test]
fn rejects_truncated_inline_payload() {
    let mut record = inline_record(1, b"new.30.wav", b"new");
    record.pop();
    let mutation = mutation(1, &[record]);
    assert!(PackedArchiveMutation::parse(&mutation).is_err());
}

#[test]
fn parses_updater_no_output_marker_tags() {
    let mutation = mutation(0, &[vec![3], vec![4], vec![6], vec![255]]);
    let parsed = PackedArchiveMutation::parse(&mutation).unwrap();

    assert_eq!(
        parsed.records(),
        vec![
            PackedMutationRecord::NoOutput { tag: 3 },
            PackedMutationRecord::NoOutput { tag: 4 },
            PackedMutationRecord::NoOutput { tag: 6 },
            PackedMutationRecord::NoOutput { tag: 255 },
        ]
    );
}

#[test]
fn mutation_output_count_mismatch_is_reported() {
    let mutation = mutation(2, &[inline_record(2, b"one.1.wav", b"x")]);
    assert!(matches!(
        PackedArchiveMutation::parse(&mutation),
        Err(DelDxPackError::InvalidMutation {
            problem: DelDxProblem::OutputCountMismatch {
                header: 2,
                records: 1
            }
        })
    ));
}

#[test]
fn skip_records_produce_no_rows_and_keys_fall_back_to_index() {
    let base = pack(&[(b"plain", b"p"), (b"x.-5.wav", b"q")]);
    let parsed = DelDxPack::from_memory(base.clone()).unwrap();
    assert_eq!(parsed.entries()[0].key, 0);
    assert_eq!(parsed.entries()[1].key, -5);

    let mut skip = vec![0];
    skip.extend_from_slice(&[0; 12]);
    let mutation = mutation(1, &[skip, copy_record(-5, 1)]);
    let out = apply_packed_archive_mutation(&base, &mutation).unwrap();
    let rebuilt = DelDxPack::from_memory(out).unwrap();
    assert_eq!(rebuilt.entries().len(), 1);
    assert_eq!(rebuilt.read_entry_payload(&rebuilt.entries()[0]).unwrap(), b"q");
}

#[test]
fn removes_and_inserts_records() {
    let parsed = DelDxPack::from_memory(pack(&[(b"a.1.wav", b"one"), (b"b.2.wav", b"two")]))
        .unwrap();
    let options = DelDxPackWriteOptions::new(parsed.header());
    let mut archive = parsed.clone();
    let removed = archive.remove_record_at(0, &options).unwrap();
    assert_eq!(removed.data, b"one");
    assert_eq!(archive.entries().len(), 1);
    assert_eq!(archive.entries()[0].key, 2);
    archive
        .insert_record(0, DelDxPackWriteEntry::new(removed.row_prefix.clone(), removed.data.clone()), &options)
        .unwrap();
    assert_eq!(archive.as_bytes(), parsed.as_bytes());
    assert!(matches!(
        archive.remove_record_at(5, &options),
        Err(DelDxPackError::RecordIndexOutOfBounds { index: 5, count: 2, .. })
    ));
}

#[test]
fn replaced_row_takes_the_new_payload_size() {
    let parsed = DelDxPack::from_memory(pack(&[(b"a.1.wav", b"one"), (b"b.2.wav", b"two")])).unwrap();
    let options = DelDxPackWriteOptions::new(parsed.header());
    let mut archive = parsed.clone();
    let old = archive
        .replace_record_at(1, DelDxPackWriteEntry::new(parsed.entries()[1].row_prefix.clone(), b"longer".to_vec()), &options)
        .unwrap();
    assert_eq!(old.data, b"two");
    assert_eq!(archive.entries().len(), 2);
    assert_eq!(archive.entries()[1].data_size, 6);
}

#[test]
fn invalid_pack_errors_name_the_archive() {
    assert_eq!(
        DelDxPack::from_bytes("data/broken.NOS".to_string(), vec![0_u8; 4]).unwrap_err(),
        DelDxPackError::InvalidArchive {
            path: "data/broken.NOS".to_string(),
            problem: DelDxProblem::ShorterThanHeader,
        }
    );
}
