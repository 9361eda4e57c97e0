use taletool::sprite_remap::{
    sprite_remap_document_format, validate_sprite_remap_document_header, SpriteRemapDocumentError,
    SPRITE_REMAP_DOCUMENT_VERSION,
};
use taletool::sprite_remap::{
    decode_sprite_resource_remap, write_sprite_resource_remap_bytes, SpriteFrameResourceRemap,
    SpriteResourceRemap, SpriteResourceRemapError, MAX_SPRITE_REMAP_FRAMES,
    SPRITE_RESOURCE_SLOT_COUNT,
};

const IDENTITY_RESOURCE_INDICES: [u8; SPRITE_RESOURCE_SLOT_COUNT] = [0, 1, 2, 3, 4, 5, 6, 7];

fn frame(resource_indices: [u8; SPRITE_RESOURCE_SLOT_COUNT]) -> SpriteFrameResourceRemap {
    SpriteFrameResourceRemap { resource_indices }
}

#[test]
fn decodes_representative_real_layout_rows_and_round_trips_exactly() {
    let bytes = [2, 1, 6, 0, 4, 2, 3, 5, 7, 1, 6, 0, 4, 2, 3, 5, 7];

    let remap = decode_sprite_resource_remap(&bytes).unwrap();

    assert_eq!(
        remap.frames,
        vec![
            frame([1, 6, 0, 4, 2, 3, 5, 7]),
            frame([1, 6, 0, 4, 2, 3, 5, 7]),
        ]
    );
    assert_eq!(write_sprite_resource_remap_bytes(&remap).unwrap(), bytes);
}

#[test]
fn supports_empty_and_maximum_frame_payloads() {
    let empty = decode_sprite_resource_remap(&[0]).unwrap();
    assert!(empty.frames.is_empty());
    assert_eq!(write_sprite_resource_remap_bytes(&empty).unwrap(), [0]);

    let maximum = SpriteResourceRemap {
        frames: vec![frame(IDENTITY_RESOURCE_INDICES); MAX_SPRITE_REMAP_FRAMES],
    };
    let bytes = write_sprite_resource_remap_bytes(&maximum).unwrap();
    assert_eq!(bytes.len(), 1 + MAX_SPRITE_REMAP_FRAMES * 8);
    assert_eq!(decode_sprite_resource_remap(&bytes).unwrap(), maximum);
}

#[test]
fn reports_truncated_and_trailing_data() {
    assert!(matches!(
        decode_sprite_resource_remap(&[]),
        Err(SpriteResourceRemapError::Truncated(_))
    ));
    assert!(matches!(
        decode_sprite_resource_remap(&[2, 0, 1, 2]),
        Err(SpriteResourceRemapError::TruncatedFrames {
            frame_count: 2,
            needed: 16,
            actual: 3,
        })
    ));
    assert!(matches!(
        decode_sprite_resource_remap(&[0, 9]),
        Err(SpriteResourceRemapError::TrailingBytes { count: 1 })
    ));
}

#[test]
fn rejects_oversized_frame_lists_when_writing() {
    let remap = SpriteResourceRemap {
        frames: vec![frame(IDENTITY_RESOURCE_INDICES); MAX_SPRITE_REMAP_FRAMES + 1],
    };

    assert!(matches!(
        write_sprite_resource_remap_bytes(&remap),
        Err(SpriteResourceRemapError::TooManyFrames {
            count: 256,
            maximum: 255,
        })
    ));
}

#[test]
fn counts_identity_frames_and_preserves_out_of_range_skip_values() {
    let remap = SpriteResourceRemap {
        frames: vec![
            frame(IDENTITY_RESOURCE_INDICES),
            frame([0, 1, 2, 3, 4, 5, 8, u8::MAX]),
        ],
    };

    assert_eq!(remap.identity_frame_count(), 1);
    assert_eq!(remap.skipped_slot_count(), 2);

    let bytes = write_sprite_resource_remap_bytes(&remap).unwrap();
    assert_eq!(decode_sprite_resource_remap(&bytes).unwrap(), remap);
}

#[test]
fn single_frame_identity_checks() {
    assert!(frame(IDENTITY_RESOURCE_INDICES).is_identity());
    assert!(!frame([1, 0, 2, 3, 4, 5, 6, 7]).is_identity());
    assert_eq!(frame([8, 9, 2, 3, 4, 5, 6, 7]).skipped_slot_count(), 2);
}

#[test]
fn remap_documents_need_the_sprite_resource_remap_format_and_version_one() {
    assert_eq!(sprite_remap_document_format(), "sprite-resource-remap");
    assert_eq!(SPRITE_REMAP_DOCUMENT_VERSION, 1);
    assert_eq!(validate_sprite_remap_document_header("sprite-resource-remap", 1), Ok(()));
    assert_eq!(
        validate_sprite_remap_document_header("sprite-resource-remap", 999),
        Err(SpriteRemapDocumentError::UnsupportedVersion { version: 999 })
    );
    assert_eq!(
        validate_sprite_remap_document_header("another-format", 1),
        Err(SpriteRemapDocumentError::UnsupportedFormat)
    );
}
