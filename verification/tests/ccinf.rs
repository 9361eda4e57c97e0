use taletool::ccinf::{
    canonicalize_ccinf_entries, has_ccinf_header, write_ccinf_bytes, Ccinf, CcinfCell, CcinfEntry, CcinfError,
    CCINF_CELL_LIST_COUNT, CCINF_HEADER, CCINF_PREFIX_LEN,
};

fn empty_lists() -> [Vec<CcinfCell>; CCINF_CELL_LIST_COUNT] {
    std::array::from_fn(|_| Vec::new())
}

fn entry(entry_id: i32) -> CcinfEntry {
    CcinfEntry {
        entry_id,
        base_resource_key: entry_id + 10,
        remap_table_file_id: entry_id + 20,
        animation_file_id: entry_id + 30,
        cell_lists: empty_lists(),
    }
}

fn wrap_body(body: &[u8]) -> Vec<u8> {
    let size = body.len() as u32;
    let mut out = CCINF_HEADER.to_vec();
    out.extend_from_slice(&size.to_le_bytes());
    out.extend_from_slice(&size.to_le_bytes());
    out.push(0);
    out.extend_from_slice(body);
    out
}

fn read_u32_at(data: &[u8], offset: usize) -> u32 {
    u32::from_le_bytes(data[offset..offset + 4].try_into().unwrap())
}

#[test]
fn lib_detects_only_the_canonical_header() {
    assert!(has_ccinf_header(&CCINF_HEADER));
    assert!(has_ccinf_header(&write_ccinf_bytes(&[]).unwrap()));
    assert!(!has_ccinf_header(b"CCINF V1.20"));
    assert!(!has_ccinf_header(b"not ccinf"));

    assert!(matches!(
        Ccinf::from_memory(CCINF_HEADER.to_vec()),
        Err(CcinfError::TooSmall { .. })
    ));
}

#[test]
fn parses_and_rebuilds_all_seven_cell_lists() {
    let mut first = entry(7);
    for (list_index, cells) in first.cell_lists.iter_mut().enumerate() {
        cells.push(CcinfCell {
            selector: list_index as u16,
            texture_resource_key: 1000 + list_index as i32,
        });
    }
    let entries = vec![first, entry(-1)];
    let bytes = write_ccinf_bytes(&entries).unwrap();
    let ccinf = Ccinf::from_memory(bytes.clone()).unwrap();

    assert_eq!(ccinf.header(), CCINF_HEADER);
    assert_eq!(ccinf.unpacked_size(), bytes.len() - CCINF_PREFIX_LEN);
    assert_eq!(ccinf.unpacked_size(), ccinf.stored_size());
    assert_eq!(ccinf.compression_flag(), 0);
    assert_eq!(ccinf.entries(), entries);
    assert_eq!(ccinf.find_entry(-1), Some(&entries[1]));
    assert_eq!(ccinf.to_bytes().unwrap(), bytes);
}

#[test]
fn writes_dynamic_raw_wrapper_fields() {
    let bytes = write_ccinf_bytes(&[entry(1)]).unwrap();
    let body_size = (bytes.len() - CCINF_PREFIX_LEN) as u32;

    assert_eq!(&bytes[..16], &CCINF_HEADER);
    assert_eq!(read_u32_at(&bytes, 0x10), body_size);
    assert_eq!(read_u32_at(&bytes, 0x14), body_size);
    assert_eq!(bytes[0x18], 0);
}

#[test]
fn rejects_invalid_header_sizes_and_compression() {
    let bytes = write_ccinf_bytes(&[]).unwrap();

    let mut bad_header = bytes.clone();
    bad_header[0] = b'X';
    assert!(matches!(
        Ccinf::from_memory(bad_header),
        Err(CcinfError::InvalidHeader { .. })
    ));

    let mut bad_size = bytes.clone();
    bad_size[0x14..0x18].copy_from_slice(&99_u32.to_le_bytes());
    assert!(matches!(
        Ccinf::from_memory(bad_size),
        Err(CcinfError::SizeMismatch {
            field: "stored_size",
            ..
        })
    ));

    let mut compressed = bytes;
    compressed[0x18] = 1;
    assert!(matches!(
        Ccinf::from_memory(compressed),
        Err(CcinfError::UnsupportedCompression { flag: 1, .. })
    ));
}

#[test]
fn rejects_negative_count_and_truncated_records() {
    let negative = wrap_body(&(-1_i32).to_le_bytes());
    assert!(matches!(
        Ccinf::from_memory(negative),
        Err(CcinfError::InvalidEntryCount { count: -1, .. })
    ));

    let mut truncated_body = Vec::new();
    truncated_body.extend_from_slice(&1_i32.to_le_bytes());
    truncated_body.extend_from_slice(&[0; 10]);
    let truncated = wrap_body(&truncated_body);
    assert!(matches!(
        Ccinf::from_memory(truncated),
        Err(CcinfError::TruncatedFile { .. })
    ));
}

#[test]
fn rejects_trailing_bytes_after_entries() {
    let mut body = 0_i32.to_le_bytes().to_vec();
    body.push(0xaa);
    let bytes = wrap_body(&body);
    assert!(matches!(
        Ccinf::from_memory(bytes),
        Err(CcinfError::TrailingBytes { count: 1, .. })
    ));
}

#[test]
fn rejects_unsorted_entries_and_cells() {
    assert!(matches!(
        write_ccinf_bytes(&[entry(-1), entry(7)]),
        Err(CcinfError::UnsortedEntries { .. })
    ));

    let mut unsorted_cells = entry(7);
    unsorted_cells.cell_lists[0] = vec![
        CcinfCell {
            selector: 2,
            texture_resource_key: 20,
        },
        CcinfCell {
            selector: 1,
            texture_resource_key: 10,
        },
    ];
    assert!(matches!(
        write_ccinf_bytes(&[unsorted_cells]),
        Err(CcinfError::UnsortedCellList { .. })
    ));
}

#[test]
fn rejects_cell_lists_larger_than_u8_count() {
    let mut oversized = entry(1);
    oversized.cell_lists[0] = vec![
        CcinfCell {
            selector: 1,
            texture_resource_key: 2,
        };
        256
    ];

    assert!(matches!(
        write_ccinf_bytes(&[oversized]),
        Err(CcinfError::TooManyCells { count: 256, .. })
    ));
}

#[test]
fn reports_truncation_offsets_and_finds_absent_ids() {
    let mut body = 1_i32.to_le_bytes().to_vec();
    body.extend_from_slice(&[0; 16]);
    body.extend_from_slice(&[1, 0, 0, 0, 0, 0, 0]);
    let bytes = wrap_body(&body);
    assert_eq!(
        Ccinf::from_memory(bytes).unwrap_err(),
        CcinfError::TruncatedFile {
            path: "<memory>".to_string(),
            field: "cell_list.count",
            offset: 52,
            needed: 1,
            actual: 0,
        }
    );

    let ccinf = Ccinf::from_entries("cc.NOS".to_string(), vec![entry(1), entry(3)]).unwrap();
    assert_eq!(ccinf.find_entry(2), None);
    assert_eq!(ccinf.find_entry(3).unwrap().base_resource_key, 13);
    assert_eq!(ccinf.path(), "cc.NOS");
}

#[test]
fn canonical_order_sorts_entries_by_unsigned_id_and_cells_by_selector() {
    let mut a = entry(-1);
    a.cell_lists[2] = vec![
        CcinfCell { selector: 9, texture_resource_key: 1 },
        CcinfCell { selector: 3, texture_resource_key: 2 },
        CcinfCell { selector: 9, texture_resource_key: 3 },
    ];
    let b = entry(5);
    let c = entry(2);
    let d = entry(5);
    let mut d2 = d.clone();
    d2.base_resource_key = 99;
    let out = canonicalize_ccinf_entries(vec![a, b, c, d2]);
    let ids: Vec<i32> = out.iter().map(|e| e.entry_id).collect();
    assert_eq!(ids, vec![2, 5, 5, -1]);
    assert_eq!(out[1].base_resource_key, 15);
    assert_eq!(out[2].base_resource_key, 99);
    let keys: Vec<(u16, i32)> = out[3].cell_lists[2].iter().map(|c| (c.selector, c.texture_resource_key)).collect();
    assert_eq!(keys, vec![(3, 2), (9, 1), (9, 3)]);
}

#[test]
fn file_errors_name_the_file() {
    assert_eq!(
        Ccinf::from_bytes("data/broken.ccinf".to_string(), vec![0_u8; 3]).unwrap_err(),
        CcinfError::TooSmall { path: "data/broken.ccinf".to_string() }
    );
}
