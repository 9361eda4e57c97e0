use taletool::binary::{BinaryCompression, BinaryNosArchive, BinaryNosArchiveWriteOptions};
use taletool::binary_pack::{build_pack_chunk, plan_binary_pack, BinaryPackError, CompressionArg, PackChunkPlan};
use taletool::binary_payloads::{BinaryPayloadError, BinaryPayloadInput};
use taletool::binary_preset::{BinaryPresetError, ChunkingArg};

fn file(name: &str, data: &[u8]) -> (String, Vec<u8>) {
    (name.to_string(), data.to_vec())
}

fn input(file_id: i32, explicit_index: Option<usize>, name: &str, data: &[u8]) -> BinaryPayloadInput {
    BinaryPayloadInput {
        file_id,
        duplicate_ordinal: None,
        explicit_index,
        compression: None,
        source_name: name.to_string(),
        data: data.to_vec(),
    }
}

#[test]
fn plan_without_numeric_payloads_fails() {
    let files = vec![file("readme.txt", b"x"), file("notes.json", b"{}")];
    let result = plan_binary_pack(
        files, "out.NOS", "none", Some("4e54 2044 6174 6120 3036 0000 1507 0420"), None,
        CompressionArg::Raw, "auto", None, None, None,
    );
    assert!(matches!(result, Err(BinaryPackError::NoPayloads)));
}

#[test]
fn plan_without_header_or_family_fails() {
    let files = vec![file("1.bin", b"a")];
    let result =
        plan_binary_pack(files, "out.NOS", "none", None, None, CompressionArg::Raw, "auto", None, None, None);
    assert!(matches!(result, Err(BinaryPackError::MissingHeader)));
}

#[test]
fn plan_without_compression_or_family_fails() {
    let files = vec![file("1.bin", b"a")];
    let result = plan_binary_pack(
        files, "out.NOS", "none", Some("4e54 2044 6174 6120 3036 0000 1507 0420"), None,
        CompressionArg::Auto, "auto", None, None, None,
    );
    assert!(matches!(result, Err(BinaryPackError::MissingCompression)));
}

#[test]
fn plan_rejects_a_bad_header() {
    let files = vec![file("1.bin", b"a")];
    let result =
        plan_binary_pack(files, "out.NOS", "none", Some("zz"), None, CompressionArg::Raw, "auto", None, None, None);
    assert!(matches!(result, Err(BinaryPackError::Setting(_))));
}

#[test]
fn plan_rejects_zero_chunks() {
    let files = vec![file("1.bin", b"a")];
    let result = plan_binary_pack(
        files, "out", "NStpData", None, None, CompressionArg::Auto, "auto", None, Some(0), None,
    );
    assert!(matches!(result, Err(BinaryPackError::ZeroChunkCount)));
}

#[test]
fn plan_single_chunk_keeps_numeric_files_in_order() {
    let files = vec![file("7.bin", b"seven"), file("skip.txt", b"no"), file("3.bin", b"three")];
    let plan = plan_binary_pack(
        files, "out", "NStgeData", None, Some(2), CompressionArg::Zlib, "6", None, None, None,
    )
    .unwrap();
    assert_eq!(plan.chunk_count, 1);
    assert_eq!(plan.pattern, "out/NStgeData.NOS");
    assert_eq!(plan.options.direct_index, 2);
    assert_eq!(plan.options.compression, BinaryCompression::Zlib);
    assert_eq!(plan.options.zlib_level, 6);
    assert_eq!(plan.chunks.len(), 1);
    assert_eq!(plan.chunks[0].chunk, 0);
    let ids: Vec<i32> = plan.chunks[0].inputs.iter().map(|e| e.file_id).collect();
    assert_eq!(ids, vec![7, 3]);
    assert_eq!(plan.chunks[0].inputs[1].data, b"three".to_vec());
    assert_eq!(plan.chunks[0].inputs[0].source_name, "7.bin");
}

#[test]
fn plan_routes_payloads_by_low_id_byte() {
    let files = vec![file("1.bin", b"a"), file("258.bin", b"b"), file("2.bin", b"c"), file("257.bin", b"d")];
    let plan = plan_binary_pack(
        files, "out", "NStgData", None, None, CompressionArg::Auto, "auto", None, None, None,
    )
    .unwrap();
    assert_eq!(plan.chunk_count, 4);
    assert_eq!(plan.chunks.len(), 4);
    let ids = |c: usize| plan.chunks[c].inputs.iter().map(|e| e.file_id).collect::<Vec<i32>>();
    assert_eq!(ids(0), Vec::<i32>::new());
    assert_eq!(ids(1), vec![1, 257]);
    assert_eq!(ids(2), vec![258, 2]);
    assert_eq!(ids(3), Vec::<i32>::new());
}

#[test]
fn plan_reports_a_payload_past_the_chunk_count() {
    let files = vec![file("1.bin", b"a"), file("6.bin", b"b"), file("9.bin", b"c")];
    let result = plan_binary_pack(
        files, "out", "NStgData", None, None, CompressionArg::Auto, "auto", None, None, None,
    );
    match result {
        Err(BinaryPackError::ChunkOutOfRange { file_id, chunk, chunk_count }) => {
            assert_eq!((file_id, chunk, chunk_count), (6, 6, 4));
        }
        _ => panic!("expected an out-of-range chunk"),
    }
}

#[test]
fn plan_reports_a_missing_chunk_pattern() {
    let files = vec![file("1.bin", b"a")];
    let result = plan_binary_pack(
        files, "single.NOS", "none", Some("4e54 2044 6174 6120 3036 0000 1507 0420"), None,
        CompressionArg::Raw, "auto", Some(ChunkingArg::LowByte), Some(4), None,
    );
    assert!(matches!(
        result,
        Err(BinaryPackError::Setting(BinaryPresetError::MissingChunkPattern))
    ));
}

#[test]
fn packed_chunk_reads_back_in_table_order() {
    let options = BinaryNosArchiveWriteOptions {
        header: *b"NT Data 06\0\0\x15\x07\x04 ",
        direct_index: 0,
        compression: BinaryCompression::Raw,
        zlib_level: 6,
    };
    let chunk = PackChunkPlan {
        chunk: 2,
        inputs: vec![input(9, None, "9.bin", b"nine"), input(4, Some(0), "4__index0.bin", b"four")],
    };
    let packed = build_pack_chunk("out/NStgData{chunk:02X}.NOS", &options, 4, chunk).unwrap();
    assert_eq!(packed.path, "out/NStgData02.NOS");
    assert_eq!(packed.entry_count, 2);
    let archive = BinaryNosArchive::from_bytes(packed.path.clone(), packed.bytes).unwrap();
    let ids: Vec<i32> = archive.entries().iter().map(|e| e.file_id).collect();
    assert_eq!(ids, vec![4, 9]);
    assert_eq!(archive.read_entry(9).unwrap().unwrap().data, b"nine".to_vec());
    assert_eq!(archive.read_entry(4).unwrap().unwrap().data, b"four".to_vec());
}

#[test]
fn packed_single_chunk_uses_the_pattern_as_its_path() {
    let options = BinaryNosArchiveWriteOptions {
        header: *b"NT Data 10\0\0\x15\x07\x04 ",
        direct_index: 0,
        compression: BinaryCompression::Zlib,
        zlib_level: 9,
    };
    let chunk = PackChunkPlan { chunk: 0, inputs: vec![input(1, None, "1.bin", b"hello hello hello")] };
    let packed = build_pack_chunk("out/NStgeData.NOS", &options, 1, chunk).unwrap();
    assert_eq!(packed.path, "out/NStgeData.NOS");
    let archive = BinaryNosArchive::from_bytes(packed.path.clone(), packed.bytes).unwrap();
    assert_eq!(archive.read_entry(1).unwrap().unwrap().data, b"hello hello hello".to_vec());
}

#[test]
fn packed_chunk_reports_an_explicit_index_past_the_table() {
    let options = BinaryNosArchiveWriteOptions {
        header: *b"NT Data 06\0\0\x15\x07\x04 ",
        direct_index: 0,
        compression: BinaryCompression::Raw,
        zlib_level: 6,
    };
    let chunk = PackChunkPlan { chunk: 0, inputs: vec![input(1, Some(3), "1__index3.bin", b"x")] };
    match build_pack_chunk("a.NOS", &options, 1, chunk) {
        Err(BinaryPackError::Order(BinaryPayloadError::ExplicitIndexOutOfRange { index, entry_count, .. })) => {
            assert_eq!((index, entry_count), (3, 1));
        }
        _ => panic!("expected an ordering error"),
    }
}
