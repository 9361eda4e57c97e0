//! Player sprite-resource remap payloads.
//!
//! A payload is one frame-count byte followed by eight resource-index bytes
//! per frame.
use vstd::prelude::*;

use crate::common::{ByteReadError, ByteReader};

verus! {

/// Number of rendering resource slots in every remap frame.
pub const SPRITE_RESOURCE_SLOT_COUNT: usize = 8;

/// Maximum frame count representable by the native one-byte header.
pub const MAX_SPRITE_REMAP_FRAMES: usize = 255;

/// Resource-index ordering used for one sprite animation frame.
///
/// Indices outside the eight-slot range are preserved because the client uses
/// them to skip the corresponding rendering slot.
#[derive(Debug, Clone, Copy, PartialEq, Eq)]
pub struct SpriteFrameResourceRemap {
    pub resource_indices: [u8; 8],
}

/// Whether a frame keeps every resource in its own slot.
pub open spec fn is_identity_spec(indices: Seq<u8>) -> bool {
    forall|k: int| 0 <= k < 8 ==> indices[k] == k
}

/// Number of slots of `indices` that name no rendering slot.
pub open spec fn skipped_count(indices: Seq<u8>) -> nat
    decreases indices.len(),
{
    if indices.len() == 0 {
        0
    } else {
        skipped_count(indices.drop_last()) + if indices.last() >= 8 {
            1nat
        } else {
            0nat
        }
    }
}

/// Number of identity frames.
pub open spec fn identity_count(frames: Seq<Seq<u8>>) -> nat
    decreases frames.len(),
{
    if frames.len() == 0 {
        0
    } else {
        identity_count(frames.drop_last()) + if is_identity_spec(frames.last()) {
            1nat
        } else {
            0nat
        }
    }
}

/// Total skipped slots over all frames.
pub open spec fn total_skipped(frames: Seq<Seq<u8>>) -> nat
    decreases frames.len(),
{
    if frames.len() == 0 {
        0
    } else {
        total_skipped(frames.drop_last()) + skipped_count(frames.last())
    }
}

impl SpriteFrameResourceRemap {
    /// Whether this frame keeps every rendering resource in its original slot.
    pub fn is_identity(&self) -> (r: bool)
        ensures
            r == is_identity_spec(self.resource_indices@),
    {
        let mut i: usize = 0;
        while i < 8
            invariant
                i <= 8,
                self.resource_indices@.len() == 8,
                forall|k: int| 0 <= k < i ==> self.resource_indices@[k] == k,
            decreases 8 - i,
        {
            if self.resource_indices[i] as usize != i {
                return false;
            }
            i = i + 1;
        }
        true
    }

    /// The number of rendering slots skipped by this frame.
    pub fn skipped_slot_count(&self) -> (r: usize)
        ensures
            r == skipped_count(self.resource_indices@),
            r <= 8,
    {
        let mut count: usize = 0;
        let mut i: usize = 0;
        while i < 8
            invariant
                i <= 8,
                self.resource_indices@.len() == 8,
                count == skipped_count(self.resource_indices@.subrange(0, i as int)),
                count <= i,
            decreases 8 - i,
        {
            assert(self.resource_indices@.subrange(0, i + 1).drop_last()
                =~= self.resource_indices@.subrange(0, i as int));
            if self.resource_indices[i] as usize >= SPRITE_RESOURCE_SLOT_COUNT {
                count = count + 1;
            }
            i = i + 1;
        }
        assert(self.resource_indices@.subrange(0, 8) =~= self.resource_indices@);
        count
    }
}

/// Ordered resource remaps selected by the active sprite animation frame.
#[derive(Debug, Clone, PartialEq, Eq)]
pub struct SpriteResourceRemap {
    pub frames: Vec<SpriteFrameResourceRemap>,
}

/// The index bytes of each frame.
pub open spec fn frames_view(frames: Seq<SpriteFrameResourceRemap>) -> Seq<Seq<u8>> {
    Seq::new(frames.len(), |i: int| frames[i].resource_indices@)
}

impl View for SpriteResourceRemap {
    type V = Seq<Seq<u8>>;

    open spec fn view(&self) -> Seq<Seq<u8>> {
        frames_view(self.frames@)
    }
}

impl SpriteResourceRemap {
    /// How many frames use the identity resource ordering.
    pub fn identity_frame_count(&self) -> (r: usize)
        ensures
            r == identity_count(self@),
    {
        let mut count: usize = 0;
        let mut i: usize = 0;
        while i < self.frames.len()
            invariant
                i <= self.frames@.len(),
                count == identity_count(self@.subrange(0, i as int)),
                count <= i,
            decreases self.frames@.len() - i,
        {
            assert(self@.subrange(0, i + 1).drop_last() =~= self@.subrange(0, i as int));
            if self.frames[i].is_identity() {
                count = count + 1;
            }
            i = i + 1;
        }
        assert(self@.subrange(0, i as int) =~= self@);
        count
    }

    /// The total number of skipped rendering slots across all frames.
    pub fn skipped_slot_count(&self) -> (r: usize)
        requires
            self.frames@.len() * 8 <= usize::MAX,
        ensures
            r == total_skipped(self@),
    {
        let mut count: usize = 0;
        let mut i: usize = 0;
        while i < self.frames.len()
            invariant
                i <= self.frames@.len(),
                count == total_skipped(self@.subrange(0, i as int)),
                count <= 8 * i,
                self.frames@.len() * 8 <= usize::MAX,
            decreases self.frames@.len() - i,
        {
            assert(self@.subrange(0, i + 1).drop_last() =~= self@.subrange(0, i as int));
            let skipped = self.frames[i].skipped_slot_count();
            count = count + skipped;
            i = i + 1;
        }
        assert(self@.subrange(0, i as int) =~= self@);
        count
    }
}

/// Errors produced while decoding or encoding a sprite-resource remap.
#[derive(Debug, Clone, PartialEq, Eq)]
pub enum SpriteResourceRemapError {
    Truncated(ByteReadError),
    TruncatedFrames { frame_count: usize, needed: usize, actual: usize },
    TrailingBytes { count: usize },
    TooManyFrames { count: usize, maximum: usize },
}

/// The frames stored after the count byte.
pub open spec fn remap_frames_from_bytes(d: Seq<u8>, n: nat) -> Seq<Seq<u8>> {
    Seq::new(n, |i: int| d.subrange(1 + 8 * i, 9 + 8 * i))
}

/// What decoding a remap payload returns.
pub open spec fn decode_remap_spec(d: Seq<u8>) -> Result<Seq<Seq<u8>>, SpriteResourceRemapError> {
    if d.len() == 0 {
        Err(
            SpriteResourceRemapError::Truncated(
                ByteReadError {
                    field: "sprite remap frame count",
                    offset: 0,
                    needed: 1,
                    actual: 0,
                },
            ),
        )
    } else if d.len() - 1 < 8 * d[0] {
        Err(
            SpriteResourceRemapError::TruncatedFrames {
                frame_count: d[0] as usize,
                needed: (8 * d[0]) as usize,
                actual: (d.len() - 1) as usize,
            },
        )
    } else if d.len() - 1 > 8 * d[0] {
        Err(SpriteResourceRemapError::TrailingBytes { count: (d.len() - 1 - 8 * d[0]) as usize })
    } else {
        Ok(remap_frames_from_bytes(d, d[0] as nat))
    }
}

/// The concatenated index bytes of a list of frames.
pub open spec fn remap_frame_bytes(frames: Seq<Seq<u8>>) -> Seq<u8>
    decreases frames.len(),
{
    if frames.len() == 0 {
        Seq::empty()
    } else {
        remap_frame_bytes(frames.drop_last()) + frames.last()
    }
}

/// The native payload of a remap with at most 255 frames.
pub open spec fn encode_remap_spec(frames: Seq<Seq<u8>>) -> Seq<u8> {
    seq![frames.len() as u8] + remap_frame_bytes(frames)
}

/// The decoded result seen through the view of the remap.
pub open spec fn decoded_remap_view(r: Result<SpriteResourceRemap, SpriteResourceRemapError>) -> Result<
    Seq<Seq<u8>>,
    SpriteResourceRemapError,
> {
    match r {
        Ok(a) => Ok(a@),
        Err(e) => Err(e),
    }
}

/// The frame bytes of `n` eight-byte frames have `8 * n` bytes, frame `i` at offset `8 * i`.
pub proof fn lemma_remap_frame_bytes(frames: Seq<Seq<u8>>)
    requires
        forall|i: int| 0 <= i < frames.len() ==> (#[trigger] frames[i]).len() == 8,
    ensures
        remap_frame_bytes(frames).len() == 8 * frames.len(),
        forall|i: int, k: int|
            0 <= i < frames.len() && 0 <= k < 8 ==> #[trigger] remap_frame_bytes(frames)[8 * i + k]
                == frames[i][k],
    decreases frames.len(),
{
    if frames.len() > 0 {
        lemma_remap_frame_bytes(frames.drop_last());
        let prev = remap_frame_bytes(frames.drop_last());
        let all = remap_frame_bytes(frames);
        assert forall|i: int, k: int| 0 <= i < frames.len() && 0 <= k < 8 implies #[trigger] all[8
            * i + k] == frames[i][k] by {
            if i < frames.len() - 1 {
                assert(8 * i + k < 8 * (frames.len() - 1)) by (nonlinear_arith)
                    requires
                        i < frames.len() - 1,
                        0 <= k < 8,
                ;
                assert(frames.drop_last()[i] == frames[i]);
            } else {
                assert(8 * i + k - prev.len() == k);
            }
        }
    }
}

/// Decodes a complete native sprite-resource remap payload.
pub fn decode_sprite_resource_remap(bytes: &[u8]) -> (r: Result<
    SpriteResourceRemap,
    SpriteResourceRemapError,
>)
    ensures
        decoded_remap_view(r) == decode_remap_spec(bytes@),
{
    let mut reader = ByteReader::new(bytes);
    let frame_count = match reader.read_u8("sprite remap frame count") {
        Ok(v) => v as usize,
        Err(e) => return Err(SpriteResourceRemapError::Truncated(e)),
    };
    let needed = frame_count * SPRITE_RESOURCE_SLOT_COUNT;
    let actual = reader.remaining();
    if actual < needed {
        return Err(SpriteResourceRemapError::TruncatedFrames { frame_count, needed, actual });
    }
    let mut frames: Vec<SpriteFrameResourceRemap> = Vec::with_capacity(frame_count);
    let mut i: usize = 0;
    while i < frame_count
        invariant
            i <= frame_count,
            frame_count == bytes@[0],
            bytes@.len() >= 1 + 8 * frame_count,
            reader.bytes() == bytes@,
            reader.pos() == 1 + 8 * i,
            frames_view(frames@) == remap_frames_from_bytes(bytes@, frame_count as nat).subrange(0, i as int),
        decreases frame_count - i,
    {
        let resource_indices = match reader.read_array::<8>("sprite frame resource indices") {
            Ok(v) => v,
            Err(e) => return Err(SpriteResourceRemapError::Truncated(e)),
        };
        let ghost old_frames = frames@;
        assert(frames_view(old_frames).len() == i);
        assert(old_frames.len() == i);
        assert(resource_indices@ == bytes@.subrange(1 + 8 * i, 9 + 8 * i));
        frames.push(SpriteFrameResourceRemap { resource_indices });
        proof {
            let target = remap_frames_from_bytes(bytes@, frame_count as nat).subrange(0, i + 1);
            assert forall|k: int| 0 <= k < i + 1 implies frames_view(frames@)[k] == target[k] by {
                if k < i {
                    assert(frames@[k] == old_frames[k]);
                    assert(frames_view(old_frames)[k] == target[k]);
                }
            }
        }
        i = i + 1;
        assert(frames_view(frames@)
            =~= remap_frames_from_bytes(bytes@, frame_count as nat).subrange(0, i as int));
    }
    let trailing = reader.remaining();
    if trailing != 0 {
        return Err(SpriteResourceRemapError::TrailingBytes { count: trailing });
    }
    let result = SpriteResourceRemap { frames };
    assert(result@ =~= remap_frames_from_bytes(bytes@, frame_count as nat));
    Ok(result)
}

/// Encodes a sprite-resource remap in its native representation.
pub fn write_sprite_resource_remap_bytes(remap: &SpriteResourceRemap) -> (r: Result<
    Vec<u8>,
    SpriteResourceRemapError,
>)
    ensures
        remap.frames@.len() > 255 ==> r == Err::<Vec<u8>, SpriteResourceRemapError>(
            SpriteResourceRemapError::TooManyFrames {
                count: remap.frames@.len() as usize,
                maximum: MAX_SPRITE_REMAP_FRAMES,
            },
        ),
        remap.frames@.len() <= 255 ==> r is Ok && r->Ok_0@ == encode_remap_spec(remap@),
{
    let frame_count = remap.frames.len();
    if frame_count > 255 {
        return Err(
            SpriteResourceRemapError::TooManyFrames {
                count: frame_count,
                maximum: MAX_SPRITE_REMAP_FRAMES,
            },
        );
    }
    let mut bytes: Vec<u8> = Vec::with_capacity(1 + frame_count * SPRITE_RESOURCE_SLOT_COUNT);
    bytes.push(frame_count as u8);
    let mut i: usize = 0;
    while i < frame_count
        invariant
            i <= frame_count,
            frame_count == remap.frames@.len(),
            frame_count <= 255,
            bytes@ == seq![frame_count as u8] + remap_frame_bytes(remap@.subrange(0, i as int)),
        decreases frame_count - i,
    {
        let frame = &remap.frames[i];
        let ghost before = bytes@;
        let mut k: usize = 0;
        while k < 8
            invariant
                k <= 8,
                frame.resource_indices@.len() == 8,
                bytes@ == before + frame.resource_indices@.subrange(0, k as int),
            decreases 8 - k,
        {
            bytes.push(frame.resource_indices[k]);
            k = k + 1;
            assert(bytes@ =~= before + frame.resource_indices@.subrange(0, k as int));
        }
        assert(frame.resource_indices@.subrange(0, 8) =~= frame.resource_indices@);
        assert(remap@.subrange(0, i + 1).drop_last() =~= remap@.subrange(0, i as int));
        i = i + 1;
        assert(bytes@ =~= seq![frame_count as u8] + remap_frame_bytes(remap@.subrange(0, i as int)));
    }
    assert(remap@.subrange(0, i as int) =~= remap@);
    Ok(bytes)
}

/// Decoding an encoded remap gives the same frames back.
pub proof fn lemma_decode_encode_remap(frames: Seq<Seq<u8>>)
    requires
        frames.len() <= 255,
        forall|i: int| 0 <= i < frames.len() ==> (#[trigger] frames[i]).len() == 8,
    ensures
        decode_remap_spec(encode_remap_spec(frames)) == Ok::<
            Seq<Seq<u8>>,
            SpriteResourceRemapError,
        >(frames),
{
    lemma_remap_frame_bytes(frames);
    let d = encode_remap_spec(frames);
    let n = frames.len();
    assert(d.len() == 1 + 8 * n);
    let back = remap_frames_from_bytes(d, n);
    assert forall|i: int| 0 <= i < n implies #[trigger] back[i] == frames[i] by {
        assert forall|k: int| 0 <= k < 8 implies back[i][k] == frames[i][k] by {
            assert(d[1 + 8 * i + k] == remap_frame_bytes(frames)[8 * i + k]);
        }
        assert(back[i] =~= frames[i]);
    }
    assert(back =~= frames);
}

/// Encoding a successfully decoded payload gives the same bytes back.
pub proof fn lemma_encode_decode_remap(d: Seq<u8>)
    requires
        decode_remap_spec(d) is Ok,
    ensures
        encode_remap_spec(decode_remap_spec(d)->Ok_0) == d,
{
    let frames = decode_remap_spec(d)->Ok_0;
    let n = d[0] as int;
    assert forall|i: int| 0 <= i < frames.len() implies (#[trigger] frames[i]).len() == 8 by {}
    lemma_remap_frame_bytes(frames);
    let e = encode_remap_spec(frames);
    assert forall|j: int| 0 <= j < d.len() implies #[trigger] e[j] == d[j] by {
        if j >= 1 {
            let m = j - 1;
            let i = m / 8;
            let k = m % 8;
            assert(m == 8 * i + k && 0 <= k < 8 && 0 <= i < n) by (nonlinear_arith)
                requires
                    0 <= m < 8 * n,
                    i == m / 8,
                    k == m % 8,
            ;
            assert(remap_frame_bytes(frames)[8 * i + k] == frames[i][k]);
        }
    }
    assert(e =~= d);
}

/// Why a sprite-resource remap JSON document is refused before its contents are read.
#[derive(Debug, Clone, Copy, PartialEq, Eq, Structural)]
pub enum SpriteRemapDocumentError {
    /// The document's `format` is not `sprite-resource-remap`.
    UnsupportedFormat,
    /// The document's `version` is not 1.
    UnsupportedVersion { version: u32 },
}

/// `sprite-resource-remap`
pub open spec fn sprite_remap_format_word() -> Seq<char> {
    seq!['s', 'p', 'r', 'i', 't', 'e', '-', 'r', 'e', 's', 'o', 'u', 'r', 'c', 'e', '-', 'r', 'e', 'm', 'a', 'p']
}

/// The version of the sprite-resource remap document layout.
pub const SPRITE_REMAP_DOCUMENT_VERSION: u32 = 1;

/// The `format` a sprite-resource remap document carries.
pub fn sprite_remap_document_format() -> (r: String)
    ensures
        r@ == sprite_remap_format_word(),
{
    crate::textenc::chars_to_string(&['s', 'p', 'r', 'i', 't', 'e', '-', 'r', 'e', 's', 'o', 'u', 'r', 'c', 'e', '-', 'r', 'e', 'm', 'a', 'p'])
}

/// Checks a sprite-resource remap document's `format` and `version`.
pub fn validate_sprite_remap_document_header(format: &str, version: u32) -> (r: Result<(), SpriteRemapDocumentError>)
    ensures
        format@ != sprite_remap_format_word() ==> r == Err::<(), SpriteRemapDocumentError>(
            SpriteRemapDocumentError::UnsupportedFormat,
        ),
        format@ == sprite_remap_format_word() && version != 1 ==> r == Err::<(), SpriteRemapDocumentError>(
            SpriteRemapDocumentError::UnsupportedVersion { version },
        ),
        format@ == sprite_remap_format_word() && version == 1 ==> r is Ok,
{
    let expected = sprite_remap_document_format();
    if format.to_owned() != expected {
        return Err(SpriteRemapDocumentError::UnsupportedFormat);
    }
    if version != SPRITE_REMAP_DOCUMENT_VERSION {
        return Err(SpriteRemapDocumentError::UnsupportedVersion { version });
    }
    Ok(())
}

} // verus!
