use taletool::archive_rules::{
    detect_archive_type, has_id3v2_header, has_mp3_frame_header, infer_pack_type, is_scannable_data_file,
    media_format, output_is_ccinf, output_is_sound, output_is_text, pack_type_from_file_names,
    ArchiveDetectError, ArchiveType, MediaFormat,
};

#[test]
fn output_names_select_sound_ccinf_and_text_containers() {
    assert!(output_is_sound("out/snd.pck"));
    assert!(output_is_sound("SOUND.PCK"));
    assert!(!output_is_sound("snd.nos"));
    assert!(output_is_ccinf("data/NSmnData.NOS"));
    assert!(output_is_ccinf("nspndata.nos"));
    assert!(!output_is_ccinf("NSmnData2.NOS"));
    assert!(output_is_text("out/NSgtdData.NOS"));
    assert!(output_is_text("nslangdata_uk.nos"));
    assert!(!output_is_text("NStgData.NOS"));
    assert!(!output_is_text("dir/"));
}

#[test]
fn pack_type_follows_explicit_type_manifest_output_and_preset() {
    assert_eq!(infer_pack_type(ArchiveType::Binary, true, "snd.pck", "auto"), Some(ArchiveType::Binary));
    assert_eq!(infer_pack_type(ArchiveType::Auto, true, "x.NOS", "auto"), Some(ArchiveType::Sound));
    assert_eq!(infer_pack_type(ArchiveType::Auto, false, "snd.pck", "auto"), Some(ArchiveType::Sound));
    assert_eq!(infer_pack_type(ArchiveType::Auto, false, "x.NOS", "NSgtdData"), Some(ArchiveType::Text));
    assert_eq!(infer_pack_type(ArchiveType::Auto, false, "NSlangData.NOS", "auto"), Some(ArchiveType::Text));
    assert_eq!(infer_pack_type(ArchiveType::Auto, false, "x.NOS", "auto"), None);
}

#[test]
fn pack_type_from_names_is_binary_only_when_every_name_is_numeric() {
    let numeric = vec!["1.bin".to_string(), "0002__3.bin".to_string()];
    assert_eq!(pack_type_from_file_names(&numeric), ArchiveType::Binary);
    let mixed = vec!["1.bin".to_string(), "Item.dat".to_string()];
    assert_eq!(pack_type_from_file_names(&mixed), ArchiveType::Text);
    assert_eq!(pack_type_from_file_names(&[]), ArchiveType::Binary);
}

#[test]
fn detection_needs_exactly_one_matching_container() {
    assert_eq!(detect_archive_type(ArchiveType::Auto, true, false, false), Ok(ArchiveType::Binary));
    assert_eq!(detect_archive_type(ArchiveType::Auto, false, true, false), Ok(ArchiveType::Text));
    assert_eq!(detect_archive_type(ArchiveType::Auto, false, false, true), Ok(ArchiveType::Sound));
    assert_eq!(detect_archive_type(ArchiveType::Auto, false, false, false), Err(ArchiveDetectError::NoMatch));
    assert_eq!(detect_archive_type(ArchiveType::Auto, true, true, false), Err(ArchiveDetectError::Ambiguous));
    assert_eq!(
        detect_archive_type(ArchiveType::Text, true, false, false),
        Err(ArchiveDetectError::NotThatType(ArchiveType::Text))
    );
    assert_eq!(detect_archive_type(ArchiveType::Sound, false, true, true), Ok(ArchiveType::Sound));
}

#[test]
fn media_headers_are_classified() {
    assert_eq!(media_format(b"RIFF\0\0\0\0WAVEfmt "), Some(MediaFormat::Wav));
    assert_eq!(media_format(b"OggS\0\x02"), Some(MediaFormat::Ogg));
    assert_eq!(media_format(b"ID3\x03\0\0\0\0\0\x21"), Some(MediaFormat::Mp3));
    assert_eq!(media_format(&[0xff, 0xfb, 0x90, 0x00]), Some(MediaFormat::Mp3));
    assert_eq!(media_format(&[0, 0, 1, 0xba]), Some(MediaFormat::Mpeg));
    assert_eq!(media_format(&[0, 0, 1, 0xb3]), Some(MediaFormat::Mpeg));
    assert_eq!(media_format(b"NT Data"), None);
    assert!(!has_id3v2_header(b"ID3\xff\0\0\0\0\0\0"));
    assert!(!has_mp3_frame_header(&[0xff, 0xfb, 0xf0, 0x00]));
    assert_eq!(MediaFormat::Mpeg.scan_type(), "video");
    assert_eq!(MediaFormat::Ogg.scan_type(), "audio");
    assert_eq!(MediaFormat::Mp3.name(), "mp3");
}

#[test]
fn only_nos_and_pck_files_are_scanned_as_data() {
    assert!(is_scannable_data_file("dir/NStgData.NOS"));
    assert!(is_scannable_data_file("snd.pck"));
    assert!(!is_scannable_data_file("dir/.nos"));
    assert!(!is_scannable_data_file("readme.txt"));
    assert!(!is_scannable_data_file("nos"));
}
