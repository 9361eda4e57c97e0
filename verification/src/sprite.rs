//! Sprite-animation payloads stored in `NSmcData` and `NSpcData` archives.
//!
//! A payload is one frame-count byte, one playback-flags byte and then, for
//! each frame, a sprite-frame index byte and an event-timing flag byte.
use vstd::prelude::*;

use crate::common::{ByteReadError, ByteReader};

verus! {

/// Duration of one sprite-animation frame in game ticks.
pub const ANIMATION_FRAME_TICKS: u32 = 60;

/// Playback flag that makes an animation wrap to its first frame.
pub const ANIMATION_LOOP_FLAG: u8 = 0x80;

/// Maximum number of frames representable by the payload's count byte.
pub const MAX_ANIMATION_FRAMES: usize = 255;

/// One frame in a sprite-animation sequence.
#[derive(Debug, Clone, Copy, PartialEq, Eq, Structural)]
pub struct SpriteAnimationFrame {
    /// Frame selected from each participating sprite resource.
    pub sprite_frame_index: u8,
    /// Raw event-timing flag; zero is unmarked and every other value marks the frame end.
    pub event_timing_flag: u8,
}

/// A complete sprite-animation sequence.
#[derive(Debug, Clone, PartialEq, Eq)]
pub struct SpriteAnimation {
    /// Raw playback flags; unknown bits are preserved.
    pub playback_flags: u8,
    /// Ordered sprite frames and their event-timing flags.
    pub frames: Vec<SpriteAnimationFrame>,
}

/// The mathematical content of a sprite animation.
pub struct SpriteAnimationView {
    pub playback_flags: u8,
    pub frames: Seq<SpriteAnimationFrame>,
}

impl View for SpriteAnimation {
    type V = SpriteAnimationView;

    open spec fn view(&self) -> SpriteAnimationView {
        SpriteAnimationView { playback_flags: self.playback_flags, frames: self.frames@ }
    }
}

/// Number of frames whose event-timing flag is non-zero.
pub open spec fn marked_count(frames: Seq<SpriteAnimationFrame>) -> nat
    decreases frames.len(),
{
    if frames.len() == 0 {
        0
    } else {
        marked_count(frames.drop_last()) + if frames.last().event_timing_flag != 0 {
            1nat
        } else {
            0nat
        }
    }
}

impl SpriteAnimation {
    /// Whether playback wraps after the last frame.
    pub fn is_looping(&self) -> (r: bool)
        ensures
            r == (self.playback_flags & ANIMATION_LOOP_FLAG != 0),
    {
        self.playback_flags & ANIMATION_LOOP_FLAG != 0
    }

    /// Total duration of the sequence in game ticks, saturating at `u32::MAX`.
    pub fn duration_ticks(&self) -> (r: u32)
        ensures
            r == (if self.frames@.len() * 60 > u32::MAX {
                u32::MAX as int
            } else {
                (self.frames@.len() * 60) as int
            }),
    {
        let n = self.frames.len();
        if n > 71582788 {
            u32::MAX
        } else {
            (n as u32) * ANIMATION_FRAME_TICKS
        }
    }

    /// Number of frames whose event-timing flag is non-zero.
    pub fn marked_frame_count(&self) -> (r: usize)
        ensures
            r == marked_count(self.frames@),
    {
        let mut count: usize = 0;
        let mut i: usize = 0;
        while i < self.frames.len()
            invariant
                i <= self.frames@.len(),
                count == marked_count(self.frames@.subrange(0, i as int)),
                count <= i,
            decreases self.frames@.len() - i,
        {
            assert(self.frames@.subrange(0, i + 1).drop_last() =~= self.frames@.subrange(
                0,
                i as int,
            ));
            if self.frames[i].event_timing_flag != 0 {
                count = count + 1;
            }
            i = i + 1;
        }
        assert(self.frames@.subrange(0, i as int) =~= self.frames@);
        count
    }
}

/// Errors produced while decoding or encoding sprite animations.
#[derive(Debug, Clone, PartialEq, Eq)]
pub enum SpriteAnimationError {
    Truncated(ByteReadError),
    TruncatedFrames { frame_count: usize, needed: usize, actual: usize },
    TrailingBytes { count: usize },
    TooManyFrames { count: usize, maximum: usize },
}

/// The frames stored in the payload bytes after the two header bytes.
pub open spec fn frames_from_bytes(d: Seq<u8>, n: nat) -> Seq<SpriteAnimationFrame> {
    Seq::new(
        n,
        |i: int| SpriteAnimationFrame { sprite_frame_index: d[2 + 2 * i], event_timing_flag: d[3 + 2 * i] },
    )
}

/// What decoding a payload returns.
pub open spec fn decode_spec(d: Seq<u8>) -> Result<SpriteAnimationView, SpriteAnimationError> {
    if d.len() == 0 {
        Err(
            SpriteAnimationError::Truncated(
                ByteReadError {
                    field: "sprite_animation.frame_count",
                    offset: 0,
                    needed: 1,
                    actual: 0,
                },
            ),
        )
    } else if d.len() == 1 {
        Err(
            SpriteAnimationError::Truncated(
                ByteReadError {
                    field: "sprite_animation.playback_flags",
                    offset: 1,
                    needed: 1,
                    actual: 0,
                },
            ),
        )
    } else if d.len() - 2 < 2 * d[0] {
        Err(
            SpriteAnimationError::TruncatedFrames {
                frame_count: d[0] as usize,
                needed: (2 * d[0]) as usize,
                actual: (d.len() - 2) as usize,
            },
        )
    } else if d.len() - 2 > 2 * d[0] {
        Err(SpriteAnimationError::TrailingBytes { count: (d.len() - 2 - 2 * d[0]) as usize })
    } else {
        Ok(SpriteAnimationView { playback_flags: d[1], frames: frames_from_bytes(d, d[0] as nat) })
    }
}

/// The bytes of a list of frames.
pub open spec fn frame_bytes(frames: Seq<SpriteAnimationFrame>) -> Seq<u8> {
    Seq::new(
        2 * frames.len(),
        |j: int|
            if j % 2 == 0 {
                frames[j / 2].sprite_frame_index
            } else {
                frames[j / 2].event_timing_flag
            },
    )
}

/// The native payload of an animation with at most 255 frames.
pub open spec fn encode_spec(a: SpriteAnimationView) -> Seq<u8> {
    seq![a.frames.len() as u8, a.playback_flags] + frame_bytes(a.frames)
}

/// The decoded result seen through the view of the animation.
pub open spec fn decoded_view(r: Result<SpriteAnimation, SpriteAnimationError>) -> Result<
    SpriteAnimationView,
    SpriteAnimationError,
> {
    match r {
        Ok(a) => Ok(a@),
        Err(e) => Err(e),
    }
}

/// Decode one `NSmcData` or `NSpcData` archive-entry payload.
pub fn decode_sprite_animation(data: &[u8]) -> (r: Result<SpriteAnimation, SpriteAnimationError>)
    ensures
        decoded_view(r) == decode_spec(data@),
{
    let mut reader = ByteReader::new(data);
    let frame_count = match reader.read_u8("sprite_animation.frame_count") {
        Ok(v) => v as usize,
        Err(e) => return Err(SpriteAnimationError::Truncated(e)),
    };
    let playback_flags = match reader.read_u8("sprite_animation.playback_flags") {
        Ok(v) => v,
        Err(e) => return Err(SpriteAnimationError::Truncated(e)),
    };
    let frame_bytes = frame_count * 2;
    if reader.remaining() < frame_bytes {
        return Err(
            SpriteAnimationError::TruncatedFrames {
                frame_count,
                needed: frame_bytes,
                actual: reader.remaining(),
            },
        );
    }
    let mut frames: Vec<SpriteAnimationFrame> = Vec::with_capacity(frame_count);
    let mut i: usize = 0;
    while i < frame_count
        invariant
            i <= frame_count,
            frame_count == data@[0],
            data@.len() >= 2 + 2 * frame_count,
            reader.bytes() == data@,
            reader.pos() == 2 + 2 * i,
            frames@ == frames_from_bytes(data@, frame_count as nat).subrange(0, i as int),
        decreases frame_count - i,
    {
        let sprite_frame_index = match reader.read_u8("sprite_animation.frame.sprite_frame_index") {
            Ok(v) => v,
            Err(e) => return Err(SpriteAnimationError::Truncated(e)),
        };
        let event_timing_flag = match reader.read_u8("sprite_animation.frame.event_timing_flag") {
            Ok(v) => v,
            Err(e) => return Err(SpriteAnimationError::Truncated(e)),
        };
        frames.push(SpriteAnimationFrame { sprite_frame_index, event_timing_flag });
        i = i + 1;
        assert(frames@ =~= frames_from_bytes(data@, frame_count as nat).subrange(0, i as int));
    }
    if reader.remaining() != 0 {
        return Err(SpriteAnimationError::TrailingBytes { count: reader.remaining() });
    }
    assert(frames@ =~= frames_from_bytes(data@, frame_count as nat));
    Ok(SpriteAnimation { playback_flags, frames })
}

/// Encode one sprite animation into its native payload layout.
pub fn write_sprite_animation_bytes(animation: &SpriteAnimation) -> (r: Result<
    Vec<u8>,
    SpriteAnimationError,
>)
    ensures
        animation.frames@.len() > 255 ==> r == Err::<Vec<u8>, SpriteAnimationError>(
            SpriteAnimationError::TooManyFrames {
                count: animation.frames@.len() as usize,
                maximum: MAX_ANIMATION_FRAMES,
            },
        ),
        animation.frames@.len() <= 255 ==> r is Ok && r->Ok_0@ == encode_spec(animation@),
{
    let frame_count = animation.frames.len();
    if frame_count > 255 {
        return Err(
            SpriteAnimationError::TooManyFrames { count: frame_count, maximum: MAX_ANIMATION_FRAMES },
        );
    }
    let mut output: Vec<u8> = Vec::with_capacity(2 + frame_count * 2);
    output.push(frame_count as u8);
    output.push(animation.playback_flags);
    let mut i: usize = 0;
    while i < frame_count
        invariant
            i <= frame_count,
            frame_count == animation.frames@.len(),
            frame_count <= 255,
            output@ == seq![frame_count as u8, animation.playback_flags] + frame_bytes(
                animation.frames@.subrange(0, i as int),
            ),
        decreases frame_count - i,
    {
        let frame = animation.frames[i];
        output.push(frame.sprite_frame_index);
        output.push(frame.event_timing_flag);
        proof {
            let prev = frame_bytes(animation.frames@.subrange(0, i as int));
            let next = frame_bytes(animation.frames@.subrange(0, i + 1));
            assert forall|j: int| 0 <= j < 2 * i implies #[trigger] next[j] == prev[j] by {
                assert(j / 2 < i) by (nonlinear_arith)
                    requires
                        0 <= j < 2 * i,
                ;
            }
            assert((2 * i) / 2 == i && (2 * i) % 2 == 0 && (2 * i + 1) / 2 == i && (2 * i + 1) % 2
                == 1) by (nonlinear_arith);
            assert(next =~= prev.push(frame.sprite_frame_index).push(frame.event_timing_flag));
        }
        i = i + 1;
    }
    assert(animation.frames@.subrange(0, i as int) =~= animation.frames@);
    Ok(output)
}

/// Decoding an encoded animation gives the same animation back.
pub proof fn lemma_decode_encode(a: SpriteAnimationView)
    requires
        a.frames.len() <= 255,
    ensures
        decode_spec(encode_spec(a)) == Ok::<SpriteAnimationView, SpriteAnimationError>(a),
{
    let d = encode_spec(a);
    let n = a.frames.len();
    assert(d.len() == 2 + 2 * n);
    assert(d[0] == n as u8);
    let back = frames_from_bytes(d, n);
    assert forall|i: int| 0 <= i < n implies #[trigger] back[i] == a.frames[i] by {
        assert((2 * i) / 2 == i && (2 * i) % 2 == 0 && (2 * i + 1) / 2 == i && (2 * i + 1) % 2 == 1)
            by (nonlinear_arith);
        assert(d[2 + 2 * i] == frame_bytes(a.frames)[2 * i]);
        assert(d[3 + 2 * i] == frame_bytes(a.frames)[2 * i + 1]);
    }
    assert(back =~= a.frames);
}

/// Encoding a successfully decoded payload gives the same bytes back.
pub proof fn lemma_encode_decode(d: Seq<u8>)
    requires
        decode_spec(d) is Ok,
    ensures
        encode_spec(decode_spec(d)->Ok_0) == d,
{
    let a = decode_spec(d)->Ok_0;
    let e = encode_spec(a);
    let n = d[0] as int;
    assert(a.frames.len() == n);
    assert forall|j: int| 0 <= j < d.len() implies #[trigger] e[j] == d[j] by {
        if j >= 2 {
            let k = j - 2;
            assert(k == 2 * (k / 2) + k % 2 && 0 <= k % 2 < 2) by (nonlinear_arith)
                requires
                    k >= 0,
            ;
            assert(0 <= k / 2 < n) by (nonlinear_arith)
                requires
                    0 <= k < 2 * n,
            ;
        }
    }
    assert(e =~= d);
}

/// Why a sprite-animation JSON document is refused before its contents are read.
#[derive(Debug, Clone, Copy, PartialEq, Eq, Structural)]
pub enum SpriteAnimationDocumentError {
    /// The document's `format` is not `sprite-animation`.
    UnsupportedFormat,
    /// The document's `version` is not 1.
    UnsupportedVersion { version: u32 },
}

/// `sprite-animation`
pub open spec fn sprite_animation_format_word() -> Seq<char> {
    seq!['s', 'p', 'r', 'i', 't', 'e', '-', 'a', 'n', 'i', 'm', 'a', 't', 'i', 'o', 'n']
}

/// The version of the sprite-animation document layout.
pub const SPRITE_ANIMATION_DOCUMENT_VERSION: u32 = 1;

/// The `format` a sprite-animation document carries.
pub fn sprite_animation_document_format() -> (r: String)
    ensures
        r@ == sprite_animation_format_word(),
{
    crate::textenc::chars_to_string(&['s', 'p', 'r', 'i', 't', 'e', '-', 'a', 'n', 'i', 'm', 'a', 't', 'i', 'o', 'n'])
}

/// Checks a sprite-animation document's `format` and `version`.
pub fn validate_sprite_animation_document_header(format: &str, version: u32) -> (r: Result<(), SpriteAnimationDocumentError>)
    ensures
        format@ != sprite_animation_format_word() ==> r == Err::<(), SpriteAnimationDocumentError>(
            SpriteAnimationDocumentError::UnsupportedFormat,
        ),
        format@ == sprite_animation_format_word() && version != 1 ==> r == Err::<(), SpriteAnimationDocumentError>(
            SpriteAnimationDocumentError::UnsupportedVersion { version },
        ),
        format@ == sprite_animation_format_word() && version == 1 ==> r is Ok,
{
    let expected = sprite_animation_document_format();
    if format.to_owned() != expected {
        return Err(SpriteAnimationDocumentError::UnsupportedFormat);
    }
    if version != SPRITE_ANIMATION_DOCUMENT_VERSION {
        return Err(SpriteAnimationDocumentError::UnsupportedVersion { version });
    }
    Ok(())
}

} // verus!
