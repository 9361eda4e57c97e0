use taletool::audio::{
    SoundFilename, SoundInfoEntry, SoundInfoTable, SoundKey, SOUND_INFO_FILENAME_CAPACITY,
    SOUND_INFO_UNKNOWN_47_LEN,
};
use taletool::common::AssetId;
use taletool::sound_info::{
    escape_filename, unescape_filename, FilenameEscapeError, ManifestEntryProblem,
    SoundInfoManifest, SoundInfoManifestEntry, SoundManifestError,
};

#[test]
fn manifest_round_trip_preserves_every_byte() {
    let filename = SoundFilename::from_parts(
        vec![b'a', b'%', 0x81, 0x00],
        vec![0xa5; SOUND_INFO_FILENAME_CAPACITY - 4],
    )
    .unwrap();
    let mut entry = SoundInfoEntry::new(SoundKey::new(4, -1, 2), AssetId(-1), filename);
    entry.unknown_10 = -77;
    entry.unknown_47 = [0x5a; SOUND_INFO_UNKNOWN_47_LEN];
    let mut table = SoundInfoTable::new(vec![entry]);
    table.set_trailing_bytes(vec![0xde, 0xad]);

    let manifest = SoundInfoManifest::from_table(&table);
    assert_eq!(manifest.entries[0].filename, "a%25%81%00");
    assert_eq!(manifest.trailing_hex, "dead");
    assert_eq!(manifest.format, "sndinfo");
    assert_eq!(manifest.version, 1);
    assert_eq!(manifest.into_table().unwrap(), table);
}

#[test]
fn manifest_round_trip_rebuilds_the_same_bytes() {
    let mut entry = SoundInfoEntry::new(
        SoundKey::new(3, 0, 0),
        AssetId(30000),
        SoundFilename::new(b"BGM (1).30000.wav".to_vec()).unwrap(),
    );
    entry.unknown_47[7] = 9;
    let table = SoundInfoTable::new(vec![entry]);

    let rebuilt = SoundInfoManifest::from_table(&table).into_table().unwrap();
    assert_eq!(rebuilt.to_bytes().unwrap(), table.to_bytes().unwrap());
}

fn manifest_with(entry: SoundInfoManifestEntry) -> SoundInfoManifest {
    SoundInfoManifest {
        format: "sndinfo".to_owned(),
        version: 1,
        trailing_hex: String::new(),
        entries: vec![entry],
    }
}

fn manifest_entry(filename: &str, padding_hex: String, unknown_47_hex: String) -> SoundInfoManifestEntry {
    SoundInfoManifestEntry {
        key: SoundKey::new(1, 0, 1),
        sound_id: AssetId(1),
        unknown_10: 0,
        filename: filename.to_owned(),
        filename_padding_hex: padding_hex,
        unknown_47_hex,
    }
}

#[test]
fn manifest_rejects_unknown_fields_and_invalid_storage_lengths() {
    let manifest = manifest_with(manifest_entry(
        "abc",
        String::new(),
        hex::encode(&[0; SOUND_INFO_UNKNOWN_47_LEN]),
    ));
    assert_eq!(
        manifest.into_table().unwrap_err(),
        SoundManifestError::Entry {
            index: 0,
            problem: ManifestEntryProblem::PaddingLength { actual: 0, expected: 47 },
        }
    );
}

#[test]
fn manifest_reports_each_problem() {
    let mut manifest = manifest_with(manifest_entry("abc", hex::encode(&[0; 47]), hex::encode(&[0; 53])));
    manifest.format = "other".to_owned();
    assert_eq!(
        manifest.clone().into_table().unwrap_err(),
        SoundManifestError::UnsupportedFormat { format: "other".to_owned() }
    );
    manifest.format = "sndinfo".to_owned();
    manifest.version = 2;
    assert_eq!(manifest.clone().into_table().unwrap_err(), SoundManifestError::UnsupportedVersion { version: 2 });
    manifest.version = 1;
    manifest.trailing_hex = "abc".to_owned();
    assert_eq!(manifest.clone().into_table().unwrap_err(), SoundManifestError::TrailingHex);
    manifest.trailing_hex = "AbCd".to_owned();
    assert_eq!(manifest.clone().into_table().unwrap().trailing_bytes(), &[0xab, 0xcd]);

    let long = "x".repeat(51);
    let cases = [
        (manifest_entry("a%4", hex::encode(&[0; 49]), hex::encode(&[0; 53])), ManifestEntryProblem::Filename(FilenameEscapeError::IncompleteEscape { index: 1 })),
        (manifest_entry(&long, String::new(), hex::encode(&[0; 53])), ManifestEntryProblem::FilenameTooLong { length: 51 }),
        (manifest_entry("abc", "zz".to_owned(), hex::encode(&[0; 53])), ManifestEntryProblem::PaddingHex),
        (manifest_entry("abc", hex::encode(&[0; 47]), "0".to_owned()), ManifestEntryProblem::Unknown47Hex),
        (manifest_entry("abc", hex::encode(&[0; 47]), hex::encode(&[0; 52])), ManifestEntryProblem::Unknown47Length { actual: 52 }),
    ];
    for (entry, problem) in cases {
        assert_eq!(
            manifest_with(entry).into_table().unwrap_err(),
            SoundManifestError::Entry { index: 0, problem }
        );
    }
}

#[test]
fn filename_escape_is_reversible_and_strict() {
    let bytes = [b'A', b' ', b'%', 0, 0xff];
    assert_eq!(unescape_filename(&escape_filename(&bytes)).unwrap(), bytes);
    assert!(unescape_filename("bad%0").is_err());
    assert!(unescape_filename("bad%GG").is_err());
    assert!(unescape_filename("Korean: 한").is_err());
}

#[test]
fn filename_escape_forms_and_errors() {
    assert_eq!(escape_filename(&[b'a', b'%', 0x81, 0x00, b'~', 0x7f]), "a%25%81%00~%7F");
    assert_eq!(unescape_filename("%+F").unwrap(), vec![0x0f]);
    assert_eq!(unescape_filename("ab%4").unwrap_err(), FilenameEscapeError::IncompleteEscape { index: 2 });
    assert_eq!(unescape_filename("ab%GG").unwrap_err(), FilenameEscapeError::InvalidEscape { index: 2 });
    assert_eq!(unescape_filename("é").unwrap_err(), FilenameEscapeError::NotAscii);
}
