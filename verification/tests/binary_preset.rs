use taletool::binary::{
    write_binary_nos_archive_bytes, BinaryCompression, BinaryNosArchive, BinaryNosArchiveWriteEntry,
    BinaryNosArchiveWriteOptions,
};
use taletool::binary_preset::{
    auto_preset_name_is_sliceable, binary_nos_archive_default_compression, binary_preset_for_header,
    binary_presets, format_chunk_pattern, infer_default_compression, output_pattern,
    parse_header_hex, resolve_binary_nos_preset_for_archives, resolve_binary_preset,
    resolve_zlib_level, BinaryAssetKind, BinaryPresetError, ChunkingArg, EffectAssetKind,
};

fn binary_nos_archive_with_compressions(path: &str, compressions: &[BinaryCompression]) -> BinaryNosArchive {
    binary_nos_archive_with_header(path, *b"Unknown NOS fmt!", compressions)
}

fn binary_nos_archive_with_header(
    path: &str,
    header: [u8; 16],
    compressions: &[BinaryCompression],
) -> BinaryNosArchive {
    let entries = compressions
        .iter()
        .enumerate()
        .map(|(index, compression)| BinaryNosArchiveWriteEntry {
            file_id: index as i32,
            compression: Some(*compression),
            data: vec![index as u8],
        })
        .collect::<Vec<_>>();
    let data = write_binary_nos_archive_bytes(
        &entries,
        &BinaryNosArchiveWriteOptions {
            header,
            direct_index: 0,
            compression: BinaryCompression::Zlib,
            zlib_level: 9,
        },
    )
    .unwrap();
    BinaryNosArchive::from_bytes(path.to_string(), data).unwrap()
}

fn empty_binary_nos_archive(path: &str, header: [u8; 16], direct_index: u8) -> BinaryNosArchive {
    let data = write_binary_nos_archive_bytes(
        &[],
        &BinaryNosArchiveWriteOptions {
            header,
            direct_index,
            compression: BinaryCompression::Raw,
            zlib_level: 9,
        },
    )
    .unwrap();
    BinaryNosArchive::from_bytes(path.to_string(), data).unwrap()
}

#[test]
fn strict_conversion_resolver_maps_every_supported_family() {
    let expected = [
        ("NStgData", BinaryAssetKind::Geometry),
        ("NStgeData", BinaryAssetKind::Geometry),
        ("NStpData", BinaryAssetKind::Texture),
        ("NStpeData", BinaryAssetKind::Texture),
        ("NStpuData", BinaryAssetKind::Texture),
        ("NSedData", BinaryAssetKind::Effect(EffectAssetKind::ColorAnimation)),
        ("NSemData", BinaryAssetKind::Effect(EffectAssetKind::TransformAnimation)),
        ("NSesData", BinaryAssetKind::Effect(EffectAssetKind::TextureAnimation)),
        ("NSeffData", BinaryAssetKind::Effect(EffectAssetKind::Definition)),
        ("NStcData", BinaryAssetKind::CellFlag),
        ("NStuData", BinaryAssetKind::MapData),
        ("NSipData", BinaryAssetKind::MapObjectSprite),
        ("NSmcData", BinaryAssetKind::SpriteAnimation),
        ("NSmpData", BinaryAssetKind::MapObjectSprite),
        ("NSppData", BinaryAssetKind::MapObjectSprite),
        ("NSpcData", BinaryAssetKind::SpriteAnimation),
        ("NSpmData", BinaryAssetKind::SpriteRemap),
        ("NStkData", BinaryAssetKind::MapNeighborhood),
        ("NSgrdData", BinaryAssetKind::HeightGrid),
        ("NS4BbData", BinaryAssetKind::FreeSizeSprite),
    ];

    assert_eq!(expected.len(), binary_presets().len());
    for (name, asset_kind) in expected {
        let preset = resolve_binary_preset(&format!("{name}.NOS"), "auto").unwrap();
        assert_eq!(preset.asset_kind, asset_kind, "{name}");
        let named = empty_binary_nos_archive(&format!("{name}.NOS"), preset.header, preset.direct_index);
        let renamed = empty_binary_nos_archive("renamed.NOS", preset.header, preset.direct_index);
        assert_eq!(resolve_binary_nos_preset_for_archives(&[named]).unwrap().name, name);
        assert_eq!(resolve_binary_nos_preset_for_archives(&[renamed]).unwrap().name, name);
    }
}

#[test]
fn strict_conversion_resolver_rejects_conflicts_and_unknown_families() {
    let nstg = resolve_binary_preset("NStgData.NOS", "auto").unwrap();
    let nstp = resolve_binary_preset("NStpData.NOS", "auto").unwrap();
    let conflicting = empty_binary_nos_archive("NStpData.NOS", nstg.header, nstg.direct_index);
    let error = resolve_binary_nos_preset_for_archives(&[conflicting]).unwrap_err();
    assert_eq!(
        error,
        BinaryPresetError::FamilyConflict {
            path: "NStpData.NOS".to_string(),
            named: "NStpData",
            header: "NStgData",
        }
    );

    let wrong_header = empty_binary_nos_archive("NStpData.NOS", *b"Unknown NOS fmt!", nstp.direct_index);
    assert!(matches!(
        resolve_binary_nos_preset_for_archives(&[wrong_header]).unwrap_err(),
        BinaryPresetError::HeaderMismatch { named: "NStpData", .. }
    ));

    for (path, header) in [
        ("NStsData.NOS", *b"NT Data 09\0\0\x15\x07\x04 "),
        ("custom.NOS", *b"Unknown NOS fmt!"),
    ] {
        let archive = empty_binary_nos_archive(path, header, 0);
        assert_eq!(
            resolve_binary_nos_preset_for_archives(&[archive]).unwrap_err(),
            BinaryPresetError::UnknownFamily { path: path.to_string() },
            "{path}"
        );
    }
}

#[test]
fn strict_conversion_resolver_rejects_inconsistent_chunks() {
    let nstg = resolve_binary_preset("NStgData.NOS", "auto").unwrap();
    let nstp = resolve_binary_preset("NStpData.NOS", "auto").unwrap();
    let archives = [
        empty_binary_nos_archive("renamed-a.NOS", nstg.header, nstg.direct_index),
        empty_binary_nos_archive("renamed-b.NOS", nstp.header, nstp.direct_index),
    ];
    let error = resolve_binary_nos_preset_for_archives(&archives).unwrap_err();
    assert_eq!(
        error,
        BinaryPresetError::InconsistentChunk {
            path: "renamed-b.NOS".to_string(),
            actual: "NStpData",
            expected: "NStgData",
        }
    );
    assert_eq!(resolve_binary_nos_preset_for_archives(&[]).unwrap_err(), BinaryPresetError::EmptyArchiveSet);
}

#[test]
fn binary_nos_archive_default_compression_prefers_known_profile() {
    let archive = binary_nos_archive_with_compressions(
        "NStpData00.NOS",
        &[BinaryCompression::Zlib, BinaryCompression::Zlib, BinaryCompression::Raw],
    );

    assert_eq!(binary_nos_archive_default_compression(&archive), BinaryCompression::Raw);
}

#[test]
fn binary_nos_archive_default_compression_prefers_known_header_profile() {
    let archive = binary_nos_archive_with_header(
        "renamed.NOS",
        *b"NT Data 02\0\0\x15\x07\x04 ",
        &[BinaryCompression::Raw, BinaryCompression::Raw],
    );

    assert_eq!(binary_nos_archive_default_compression(&archive), BinaryCompression::Zlib);
}

#[test]
fn binary_presets_define_zlib112_profiles_for_known_zlib_archives() {
    for (name, level, chunk_count) in [
        ("NSipData", 1, 1),
        ("NSmpData", 1, 16),
        ("NSppData", 1, 32),
        ("NStuData", 9, 1),
        ("NStcData", 9, 1),
        ("NS4BbData", 9, 1),
    ] {
        let preset = resolve_binary_preset(&format!("{name}.NOS"), "auto").unwrap();
        assert_eq!(preset.compression, BinaryCompression::Zlib);
        assert_eq!(preset.zlib_level, Some(level));
        assert_eq!(preset.chunk_count, chunk_count);
    }
}

#[test]
fn effect_archive_presets_are_raw_single_file_archives() {
    for (name, data_number) in [
        ("NSedData", b"20"),
        ("NSemData", b"21"),
        ("NSesData", b"22"),
        ("NSeffData", b"23"),
    ] {
        let preset = resolve_binary_preset(&format!("{name}.NOS"), "auto").unwrap();
        assert_eq!(preset.compression, BinaryCompression::Raw);
        assert_eq!(preset.chunking, ChunkingArg::Single);
        assert_eq!(preset.chunk_count, 1);
        assert_eq!(&preset.header[8..10], data_number);
    }
}

#[test]
fn animation_and_remap_presets_define_raw_single_file_archives() {
    for (name, header) in [
        ("NSmcData", *b"NT Data 16\0\0\x15\x07\x04 "),
        ("NSpcData", *b"NT Data 13\0\0\x15\x07\x04 "),
        ("NSpmData", *b"NT Data 15\0\0\x15\x07\x04 "),
    ] {
        let preset = resolve_binary_preset(&format!("{name}.NOS"), "auto").unwrap();
        assert_eq!(preset.header, header);
        assert_eq!(preset.direct_index, 1);
        assert_eq!(preset.compression, BinaryCompression::Raw);
        assert_eq!(preset.zlib_level, None);
        assert_eq!(preset.chunking, ChunkingArg::Single);
        assert_eq!(preset.chunk_count, 1);
        assert_eq!(preset.chunk_format, format!("{name}.NOS"));
    }
}

#[test]
fn resolves_zlib_profile_from_preset_or_explicit_value() {
    let preset = resolve_binary_preset("NSipData.NOS", "auto").unwrap();

    assert_eq!(resolve_zlib_level("auto", BinaryCompression::Zlib, Some(&preset)).unwrap(), 1);
    assert_eq!(resolve_zlib_level("AUTO", BinaryCompression::Zlib, Some(&preset)).unwrap(), 1);
    assert_eq!(resolve_zlib_level("6", BinaryCompression::Zlib, Some(&preset)).unwrap(), 6);
    assert_eq!(
        resolve_zlib_level("10", BinaryCompression::Zlib, Some(&preset)).unwrap_err(),
        BinaryPresetError::InvalidZlibLevel
    );
    assert_eq!(
        resolve_zlib_level("auto", BinaryCompression::Zlib, None).unwrap_err(),
        BinaryPresetError::MissingZlibLevel
    );
    let raw = resolve_binary_preset("NStgData.NOS", "auto").unwrap();
    assert_eq!(
        resolve_zlib_level("auto", BinaryCompression::Zlib, Some(&raw)).unwrap_err(),
        BinaryPresetError::MissingZlibLevel
    );
    assert_eq!(resolve_zlib_level("auto", BinaryCompression::Raw, None).unwrap(), 9);
}

#[test]
fn binary_nos_archive_default_compression_uses_uniform_unknown_archive() {
    let archive = binary_nos_archive_with_compressions(
        "fixture.NOS",
        &[BinaryCompression::Raw, BinaryCompression::Raw],
    );

    assert_eq!(binary_nos_archive_default_compression(&archive), BinaryCompression::Raw);
}

#[test]
fn binary_nos_archive_default_compression_uses_majority_or_zlib_tie_for_unknown_archive() {
    let majority = binary_nos_archive_with_compressions(
        "fixture.NOS",
        &[BinaryCompression::Zlib, BinaryCompression::Zlib, BinaryCompression::Raw],
    );
    let tie = binary_nos_archive_with_compressions(
        "fixture.NOS",
        &[BinaryCompression::Raw, BinaryCompression::Zlib],
    );

    assert_eq!(binary_nos_archive_default_compression(&majority), BinaryCompression::Zlib);
    assert_eq!(binary_nos_archive_default_compression(&tie), BinaryCompression::Zlib);
}

#[test]
fn preset_resolution_reads_paths_placeholders_and_arguments() {
    assert_eq!(resolve_binary_preset("out/nstpdata1f.nos", "auto").unwrap().name, "NStpData");
    assert_eq!(resolve_binary_preset("out/NStpData{chunk:02X}.NOS", "auto").unwrap().name, "NStpData");
    assert_eq!(resolve_binary_preset("out/NStpData{chunk}.NOS", "auto").unwrap().name, "NStpData");
    assert_eq!(resolve_binary_preset("out/NStgData/", "auto").unwrap().name, "NStgData");
    assert_eq!(resolve_binary_preset("anything.bin", "nsipdata").unwrap().name, "NSipData");
    assert!(resolve_binary_preset("NStpData.NOS", "None").is_none());
    assert!(resolve_binary_preset("NStpData.NOS", "unknown").is_none());
    assert!(resolve_binary_preset("..", "auto").is_none());
    assert!(auto_preset_name_is_sliceable("NStpData00.NOS"));
    assert!(!auto_preset_name_is_sliceable("NStpDat\u{20ac}.NOS"));
    assert!(binary_preset_for_header(*b"NT Data 16\0\0\x15\x07\x04 ", 0).is_none());
    assert_eq!(binary_preset_for_header(*b"NT Data 16\0\0\x15\x07\x04 ", 1).unwrap().name, "NSmcData");
}

#[test]
fn infers_default_compression_from_counts() {
    assert_eq!(infer_default_compression(&[]), BinaryCompression::Zlib);
    assert_eq!(
        infer_default_compression(&[BinaryCompression::Raw, BinaryCompression::Raw, BinaryCompression::Zlib]),
        BinaryCompression::Raw
    );
}

#[test]
fn formats_chunk_patterns_and_output_patterns() {
    assert_eq!(format_chunk_pattern("NStpData{chunk:02X}.NOS", 10), "NStpData0A.NOS");
    assert_eq!(format_chunk_pattern("NStpData{chunk:02x}.NOS", 255), "NStpDataff.NOS");
    assert_eq!(format_chunk_pattern("part{chunk}-{chunk:02X}", 300), "part300-12C");
    let preset = resolve_binary_preset("NStpData.NOS", "auto").unwrap();
    assert_eq!(output_pattern("out", None, Some(&preset), 32).unwrap(), "out/NStpData{chunk:02X}.NOS");
    assert_eq!(output_pattern("out/", Some("x{chunk}.NOS"), None, 2).unwrap(), "out/x{chunk}.NOS");
    assert_eq!(output_pattern("out", Some("/abs/x.NOS"), None, 2).unwrap(), "/abs/x.NOS");
    assert_eq!(output_pattern("a{chunk:02X}.NOS", None, None, 4).unwrap(), "a{chunk:02X}.NOS");
    assert_eq!(output_pattern("single.NOS", None, Some(&preset), 1).unwrap(), "single.NOS");
    assert_eq!(
        output_pattern("single.NOS", None, None, 4).unwrap_err(),
        BinaryPresetError::MissingChunkPattern
    );
}

#[test]
fn parses_header_hex_values() {
    assert_eq!(
        parse_header_hex("4e54 2044 6174 6120 3036 0000 1507 0420").unwrap(),
        *b"NT Data 06\0\0\x15\x07\x04 "
    );
    assert_eq!(
        parse_header_hex("4e_54_20_44_61_74_61_20_30_36_00_00_15_07_04_20").unwrap(),
        *b"NT Data 06\0\0\x15\x07\x04 "
    );
    assert_eq!(parse_header_hex("00").unwrap_err(), BinaryPresetError::HeaderHexLength);
    assert_eq!(
        parse_header_hex("00112233445566778899aabbccddeegg").unwrap_err(),
        BinaryPresetError::HeaderHexDigit { index: 15 }
    );
}
