use taletool::paths::ArchiveNameError;
use taletool::sound_pack::{
    check_manifest_entry_path, decode_manifest_header, infer_sound_name_from_entry_file_name,
    manifest_entry_row_prefix, row_prefix_from_name, sound_pack_format, sound_pack_manifest_file,
    sound_pack_header_hex, sound_payload_file_name, validate_manifest_header, SoundPackError,
};

fn row_prefix(name: &[u8]) -> Vec<u8> {
    let mut out = vec![0; 0x44];
    out[0] = name.len() as u8;
    out[1..1 + name.len()].copy_from_slice(name);
    out
}

#[test]
fn sound_manifest_entry_file_name_must_match_position() {
    assert_eq!(
        manifest_entry_row_prefix(0, "000001__base.10.wav"),
        Err(SoundPackError::MissingPrefix { position: 0 })
    );
    assert_eq!(manifest_entry_row_prefix(1, "000001__base.10.wav").unwrap(), row_prefix(b"base.10.wav"));
}

#[test]
fn payload_file_names_pad_the_index_and_escape_the_name() {
    assert_eq!(sound_payload_file_name(0, "base.10.wav"), "000000__base.10.wav");
    assert_eq!(sound_payload_file_name(42, "a b/c"), "000042__a%20b%2Fc");
    assert_eq!(sound_payload_file_name(1234567, "x"), "1234567__x");
    assert_eq!(sound_payload_file_name(3, ""), "000003__unnamed");
}

#[test]
fn payload_file_names_read_back_as_their_names() {
    for (index, name) in [(0usize, "base.10.wav"), (7, "a b/c"), (1234567, "몬스터.wav")] {
        let file = sound_payload_file_name(index, name);
        assert_eq!(infer_sound_name_from_entry_file_name(index, &file).unwrap(), name);
        assert_eq!(check_manifest_entry_path(&file), Ok(()));
    }
}

#[test]
fn inferred_names_report_prefix_name_and_escape_problems() {
    assert_eq!(
        infer_sound_name_from_entry_file_name(2, "000002__"),
        Err(SoundPackError::MissingName { position: 2 })
    );
    assert_eq!(
        infer_sound_name_from_entry_file_name(2, "2__x"),
        Err(SoundPackError::MissingPrefix { position: 2 })
    );
    assert_eq!(
        infer_sound_name_from_entry_file_name(2, "000002__bad%"),
        Err(SoundPackError::BadName { position: 2, error: ArchiveNameError::TruncatedEscape })
    );
}

#[test]
fn row_prefixes_hold_length_and_name_bytes() {
    assert_eq!(row_prefix_from_name(0, "abc").unwrap(), row_prefix(b"abc"));
    assert_eq!(row_prefix_from_name(0, "").unwrap(), row_prefix(b""));
    let long = "x".repeat(0x43);
    assert_eq!(row_prefix_from_name(0, &long).unwrap(), row_prefix(long.as_bytes()));
    let too_long = "x".repeat(0x44);
    assert_eq!(row_prefix_from_name(5, &too_long), Err(SoundPackError::NameTooLong { position: 5 }));
}

#[test]
fn manifest_entries_must_be_plain_file_names() {
    assert_eq!(check_manifest_entry_path("000000__a.wav"), Ok(()));
    assert_eq!(check_manifest_entry_path("a.wav/"), Ok(()));
    assert_eq!(check_manifest_entry_path("a.wav/."), Ok(()));
    assert_eq!(check_manifest_entry_path("sound-pack.json"), Err(SoundPackError::ManifestEntry));
    assert_eq!(check_manifest_entry_path("/etc/passwd"), Err(SoundPackError::AbsoluteEntry));
    assert_eq!(check_manifest_entry_path("../a.wav"), Err(SoundPackError::NotAFileName));
    assert_eq!(check_manifest_entry_path(".."), Err(SoundPackError::NotAFileName));
    assert_eq!(check_manifest_entry_path("./a.wav"), Err(SoundPackError::NotAFileName));
    assert_eq!(check_manifest_entry_path("."), Err(SoundPackError::NotAFileName));
    assert_eq!(check_manifest_entry_path("dir/a.wav"), Err(SoundPackError::NotAFileName));
    assert_eq!(check_manifest_entry_path(""), Err(SoundPackError::NotAFileName));
}

#[test]
fn manifest_header_and_format_are_checked() {
    assert_eq!(sound_pack_format(), "sound");
    assert_eq!(sound_pack_manifest_file(), "sound-pack.json");
    assert_eq!(validate_manifest_header("sound", 1), Ok(()));
    assert_eq!(validate_manifest_header("sound", 2), Err(SoundPackError::UnsupportedVersion { version: 2 }));
    assert_eq!(validate_manifest_header("text", 1), Err(SoundPackError::UnsupportedFormat));
    let hex = "10".to_string() + &"44".repeat(27);
    let header = decode_manifest_header(&hex).unwrap();
    assert_eq!(header[0], 0x10);
    assert_eq!(header[27], 0x44);
    assert_eq!(decode_manifest_header("1044"), Err(SoundPackError::HeaderLength { actual: 2 }));
    assert_eq!(decode_manifest_header("zz"), Err(SoundPackError::HeaderHex));
}

#[test]
fn manifest_header_hex_zeroes_reserved_bytes_and_decodes_back() {
    let mut header = [0u8; 28];
    header[0] = 16;
    header[1..17].copy_from_slice(b"DelDX Pack File ");
    header[17] = 0xaa;
    header[18] = 0xbb;
    header[19] = 0xcc;
    header[20] = 10;
    let hex = sound_pack_header_hex(header);
    assert_eq!(hex.len(), 56);
    assert_eq!(&hex[34..40], "000000");
    assert_eq!(&hex[0..2], "10");
    let back = decode_manifest_header(&hex).unwrap();
    let mut expected = header;
    expected[17] = 0;
    expected[18] = 0;
    expected[19] = 0;
    assert_eq!(back, expected);
}
