use taletool::audio::{
    first_file_with_sound_id, SoundFilename, SoundInfoEntry, SoundInfoError, SoundInfoTable, SoundKey,
    SOUND_INFO_ENTRY_LEN, SOUND_INFO_FILENAME_CAPACITY, SOUND_INFO_HEADER_LEN,
    SOUND_INFO_UNKNOWN_47_LEN,
};
use taletool::common::AssetId;

const FILENAME_OFFSET: usize = 0x14;

fn entry(key: SoundKey, sound_id: i32, filename: &[u8]) -> SoundInfoEntry {
    SoundInfoEntry::new(
        key,
        AssetId(sound_id),
        SoundFilename::new(filename.to_vec()).unwrap(),
    )
}

fn push_row(
    out: &mut Vec<u8>,
    key: SoundKey,
    sound_id: i32,
    unknown_10: i32,
    filename: &[u8],
    padding_byte: u8,
    unknown_byte: u8,
) {
    out.extend_from_slice(&key.group.to_le_bytes());
    out.extend_from_slice(&key.primary.to_le_bytes());
    out.extend_from_slice(&key.secondary.to_le_bytes());
    out.extend_from_slice(&sound_id.to_le_bytes());
    out.extend_from_slice(&unknown_10.to_le_bytes());
    out.push(filename.len() as u8);
    out.extend_from_slice(filename);
    out.resize(
        out.len() + SOUND_INFO_FILENAME_CAPACITY - filename.len(),
        padding_byte,
    );
    out.resize(out.len() + SOUND_INFO_UNKNOWN_47_LEN, unknown_byte);
}

#[test]
fn parses_and_exactly_reserializes_every_stored_byte() {
    let mut bytes = Vec::new();
    bytes.extend_from_slice(&2_i32.to_le_bytes());
    push_row(
        &mut bytes,
        SoundKey::new(4, 12, -3),
        -1,
        0x1234_5678,
        &[0x81, 0x41],
        0xa0,
        0xb0,
    );
    push_row(
        &mut bytes,
        SoundKey::new(1, 0, 7),
        1007,
        -99,
        b"click.1007.wav",
        0xc0,
        0xd0,
    );
    bytes.extend_from_slice(&[0xee, 0xff]);

    let table = SoundInfoTable::from_bytes(&bytes).unwrap();
    assert_eq!(table.entries().len(), 2);
    assert_eq!(table.entries()[0].key, SoundKey::new(4, 12, -3));
    assert_eq!(table.entries()[0].sound_id, AssetId(-1));
    assert!(!table.entries()[0].is_enabled());
    assert_eq!(table.entries()[0].filename.as_bytes(), [0x81, 0x41]);
    assert_eq!(table.trailing_bytes(), [0xee, 0xff]);
    assert_eq!(table.to_bytes().unwrap(), bytes);
}

#[test]
fn accepts_an_empty_table() {
    let table = SoundInfoTable::from_bytes(&0_i32.to_le_bytes()).unwrap();
    assert!(table.entries().is_empty());
    assert_eq!(table.to_bytes().unwrap(), 0_i32.to_le_bytes());
}

#[test]
fn rejects_negative_count_and_truncated_rows() {
    for length in 0..SOUND_INFO_HEADER_LEN {
        assert!(matches!(
            SoundInfoTable::from_bytes(&[0; SOUND_INFO_HEADER_LEN][..length]),
            Err(SoundInfoError::TruncatedHeader { .. })
        ));
    }

    assert!(matches!(
        SoundInfoTable::from_bytes(&(-1_i32).to_le_bytes()),
        Err(SoundInfoError::InvalidEntryCount { count: -1 })
    ));

    for length in SOUND_INFO_HEADER_LEN..SOUND_INFO_HEADER_LEN + SOUND_INFO_ENTRY_LEN {
        let mut truncated = 1_i32.to_le_bytes().to_vec();
        truncated.resize(length, 0);
        assert!(matches!(
            SoundInfoTable::from_bytes(&truncated),
            Err(SoundInfoError::TruncatedTable { .. })
        ));
    }

    assert!(matches!(
        SoundInfoTable::from_bytes(&i32::MAX.to_le_bytes()),
        Err(SoundInfoError::TruncatedTable { .. })
    ));
}

#[test]
fn rejects_invalid_filename_lengths_and_padding() {
    let mut bytes = 1_i32.to_le_bytes().to_vec();
    bytes.resize(SOUND_INFO_HEADER_LEN + SOUND_INFO_ENTRY_LEN, 0);
    bytes[SOUND_INFO_HEADER_LEN + FILENAME_OFFSET] = 51;
    assert!(matches!(
        SoundInfoTable::from_bytes(&bytes),
        Err(SoundInfoError::InvalidFilenameLength { .. })
    ));

    assert!(matches!(
        SoundFilename::new(vec![0; 51]),
        Err(SoundInfoError::FilenameTooLong { .. })
    ));
    assert!(matches!(
        SoundFilename::from_parts(b"abc".to_vec(), vec![0; 46]),
        Err(SoundInfoError::InvalidFilenamePadding { .. })
    ));
}

#[test]
fn lookups_return_the_first_source_order_match() {
    let key = SoundKey::new(3, 7, 0);
    let table = SoundInfoTable::new(vec![
        entry(key, 30007, b"first.wav"),
        entry(SoundKey::new(1, 0, 1), 10, b"other.wav"),
        entry(key, 30008, b"second.wav"),
        entry(SoundKey::new(5, 2, 1), 10, b"duplicate.wav"),
    ]);

    assert_eq!(table.entry_by_key(key).unwrap().sound_id, AssetId(30007));
    assert_eq!(
        table
            .entry_by_sound_id(AssetId(10))
            .unwrap()
            .filename
            .as_bytes(),
        b"other.wav"
    );
    assert!(table.entry_by_sound_id(AssetId(999)).is_none());
}

#[test]
fn new_filenames_are_zero_padded_and_edits_keep_the_table_bytes() {
    let mut name = SoundFilename::new(b"a.wav".to_vec()).unwrap();
    assert_eq!(name.padding(), vec![0; 45]);
    name.set_bytes(b"bb".to_vec()).unwrap();
    assert_eq!(name.as_bytes(), b"bb");
    assert_eq!(name.padding().len(), 48);
    assert!(name.set_bytes(vec![1; 60]).is_err());
    assert_eq!(name.as_bytes(), b"bb");

    let mut table = SoundInfoTable::new(Vec::new());
    table.push(entry(SoundKey::new(1, 2, 3), 4, b"x.wav"));
    table.set_trailing_bytes(vec![9]);
    let bytes = table.to_bytes().unwrap();
    assert_eq!(bytes.len(), 4 + SOUND_INFO_ENTRY_LEN + 1);
    let reparsed = SoundInfoTable::from_bytes(&bytes).unwrap();
    assert_eq!(reparsed, table);
    table.entries_mut()[0].unknown_10 = 5;
    assert_eq!(table.into_entries()[0].unknown_10, 5);
}

#[test]
fn stripped_wav_name_cuts_at_the_first_wav() {
    let name = SoundFilename::new(b"base.10.wav.wav".to_vec()).unwrap();
    assert_eq!(name.stripped_wav_name().unwrap(), "base.10");
    let none = SoundFilename::new(b"base.ogg".to_vec()).unwrap();
    assert_eq!(none.stripped_wav_name(), None);
    let front = SoundFilename::new(b".wav".to_vec()).unwrap();
    assert_eq!(front.stripped_wav_name().unwrap(), "");
    let korean = SoundFilename::new(vec![0xb0, 0xa1, b'.', b'w', b'a', b'v']).unwrap();
    assert_eq!(korean.stripped_wav_name().unwrap(), "\u{AC00}");
}

#[test]
fn sound_id_fallback_takes_the_first_name_holding_the_id() {
    let names = vec!["a_100.wav".to_string(), "b_1234.wav".to_string(), "c_123.wav".to_string()];
    assert_eq!(first_file_with_sound_id(&names, AssetId(123)), Some(1));
    assert_eq!(first_file_with_sound_id(&names, AssetId(100)), Some(0));
    assert_eq!(first_file_with_sound_id(&names, AssetId(-1)), None);
    assert_eq!(first_file_with_sound_id(&["x-1.wav".to_string()], AssetId(-1)), Some(0));
    assert_eq!(first_file_with_sound_id(&[], AssetId(1)), None);
}
