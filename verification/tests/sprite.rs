use taletool::sprite::{
    sprite_animation_document_format, validate_sprite_animation_document_header,
    SpriteAnimationDocumentError, SPRITE_ANIMATION_DOCUMENT_VERSION,
};
use taletool::sprite::{
    decode_sprite_animation, write_sprite_animation_bytes, SpriteAnimation, SpriteAnimationError,
    SpriteAnimationFrame, ANIMATION_LOOP_FLAG, MAX_ANIMATION_FRAMES,
};

#[test]
fn decodes_and_encodes_animation_losslessly() {
    let bytes = [3, 0x85, 4, 0, 7, 2, 9, 0xff];
    let animation = decode_sprite_animation(&bytes).unwrap();
    assert_eq!(animation.playback_flags, 0x85);
    assert!(animation.is_looping());
    assert_eq!(animation.duration_ticks(), 180);
    assert_eq!(animation.marked_frame_count(), 2);
    assert_eq!(
        animation.frames,
        [
            SpriteAnimationFrame {
                sprite_frame_index: 4,
                event_timing_flag: 0,
            },
            SpriteAnimationFrame {
                sprite_frame_index: 7,
                event_timing_flag: 2,
            },
            SpriteAnimationFrame {
                sprite_frame_index: 9,
                event_timing_flag: 0xff,
            },
        ]
    );
    assert_eq!(write_sprite_animation_bytes(&animation).unwrap(), bytes);
}

#[test]
fn preserves_empty_and_maximum_length_animations() {
    let empty = SpriteAnimation {
        playback_flags: 0x01,
        frames: Vec::new(),
    };
    assert_eq!(write_sprite_animation_bytes(&empty).unwrap(), [0, 1]);
    assert_eq!(decode_sprite_animation(&[0, 1]).unwrap(), empty);

    let maximum = SpriteAnimation {
        playback_flags: 0,
        frames: vec![
            SpriteAnimationFrame {
                sprite_frame_index: 0xfe,
                event_timing_flag: 0,
            };
            MAX_ANIMATION_FRAMES
        ],
    };
    let encoded = write_sprite_animation_bytes(&maximum).unwrap();
    assert_eq!(encoded[0], u8::MAX);
    assert_eq!(decode_sprite_animation(&encoded).unwrap(), maximum);
}

#[test]
fn distinguishes_looping_from_unknown_flags() {
    let animation = SpriteAnimation {
        playback_flags: 0x7f,
        frames: Vec::new(),
    };
    assert!(!animation.is_looping());

    let looping = SpriteAnimation {
        playback_flags: ANIMATION_LOOP_FLAG,
        frames: Vec::new(),
    };
    assert!(looping.is_looping());
}

#[test]
fn rejects_truncated_and_trailing_payloads() {
    assert!(matches!(
        decode_sprite_animation(&[]),
        Err(SpriteAnimationError::Truncated(_))
    ));
    assert!(matches!(
        decode_sprite_animation(&[1]),
        Err(SpriteAnimationError::Truncated(_))
    ));
    assert_eq!(
        decode_sprite_animation(&[2, 0, 1, 0]),
        Err(SpriteAnimationError::TruncatedFrames {
            frame_count: 2,
            needed: 4,
            actual: 2,
        })
    );
    assert_eq!(
        decode_sprite_animation(&[0, 0, 1]),
        Err(SpriteAnimationError::TrailingBytes { count: 1 })
    );
}

#[test]
fn rejects_more_than_255_frames() {
    let animation = SpriteAnimation {
        playback_flags: 0,
        frames: vec![
            SpriteAnimationFrame {
                sprite_frame_index: 0,
                event_timing_flag: 0,
            };
            MAX_ANIMATION_FRAMES + 1
        ],
    };
    assert_eq!(
        write_sprite_animation_bytes(&animation),
        Err(SpriteAnimationError::TooManyFrames {
            count: MAX_ANIMATION_FRAMES + 1,
            maximum: MAX_ANIMATION_FRAMES,
        })
    );
}

#[test]
fn unmarked_animation_has_no_marked_frames_and_counts_ticks_per_frame() {
    let animation = decode_sprite_animation(&[2, 0, 1, 0, 2, 0]).unwrap();
    assert!(!animation.is_looping());
    assert_eq!(animation.marked_frame_count(), 0);
    assert_eq!(animation.duration_ticks(), 120);
}

#[test]
fn animation_documents_need_the_sprite_animation_format_and_version_one() {
    assert_eq!(sprite_animation_document_format(), "sprite-animation");
    assert_eq!(SPRITE_ANIMATION_DOCUMENT_VERSION, 1);
    assert_eq!(validate_sprite_animation_document_header("sprite-animation", 1), Ok(()));
    assert_eq!(
        validate_sprite_animation_document_header("sprite-animation", 999),
        Err(SpriteAnimationDocumentError::UnsupportedVersion { version: 999 })
    );
    assert_eq!(
        validate_sprite_animation_document_header("sprite-resource-remap", 1),
        Err(SpriteAnimationDocumentError::UnsupportedFormat)
    );
}
