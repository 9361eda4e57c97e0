//! Known binary archive families: their headers, packing defaults and the
//! payload kind each one stores, and the rules that pick a family for a file.
use vstd::prelude::*;

use crate::binary::{BinaryCompression, BinaryNosArchive, BinaryNosArchiveEntry};
use crate::binary_payloads::file_stem;
use crate::chartext::{
    ascii_char_vec, eq_ignore_ascii_case, is_white_space, replace_all, replace_all_exec, str_chars,
    text_eq_ignore_case, texts_eq_ignore_ascii_case, white_space,
};
use crate::numtext::{
    hex_text2, lemma_hex_digits_ascii, nat_digits, parse_hex, parse_u8_hex, push_decimal_u64,
    push_hex2_u64,
};
use crate::paths::{
    chunk_suffix_slice_ok, chunk_suffix_slice_ok_exec, file_name_span_exec, path_file_name,
    path_file_stem, stem_len_of, strip_chunk_suffix, strip_chunk_suffix_len, is_chunk_digit, lemma_chunk_number_stripped,
    lemma_file_name_span_bounds,
};
use crate::textenc::{ascii_chars, chars_to_string, push_utf8};
use vstd::string::StrSliceExecFns;

verus! {

/// The kind of an effect payload.
#[derive(Debug, Clone, Copy, PartialEq, Eq, Structural)]
pub enum EffectAssetKind {
    ColorAnimation,
    TransformAnimation,
    TextureAnimation,
    Definition,
}

/// The payload type stored by a recognized binary archive family.
#[derive(Debug, Clone, Copy, PartialEq, Eq, Structural)]
pub enum BinaryAssetKind {
    Geometry,
    Texture,
    Effect(EffectAssetKind),
    CellFlag,
    MapData,
    MapObjectSprite,
    SpriteAnimation,
    SpriteRemap,
    MapNeighborhood,
    HeightGrid,
    FreeSizeSprite,
}

/// How payloads are spread over archive chunks.
#[derive(Debug, Clone, Copy, PartialEq, Eq, Structural)]
pub enum ChunkingArg {
    /// Every payload in one archive file.
    Single,
    /// Payloads routed by the low byte of the file id.
    LowByte,
}

/// Packing defaults of a known binary archive family.
#[derive(Debug, Clone, Copy)]
pub struct BinaryPreset {
    /// Family name.
    pub name: &'static str,
    /// Sixteen-byte archive header.
    pub header: [u8; 16],
    /// Direct-index byte of the header.
    pub direct_index: u8,
    /// Default compression of entries.
    pub compression: BinaryCompression,
    /// zlib level of the family's zlib records.
    pub zlib_level: Option<u32>,
    /// Default chunk routing.
    pub chunking: ChunkingArg,
    /// Default number of chunks.
    pub chunk_count: usize,
    /// Default output file name or chunk file name pattern.
    pub chunk_format: &'static str,
    /// Payload type of the family.
    pub asset_kind: BinaryAssetKind,
}

/// The known families, in lookup order.
pub open spec fn preset_table() -> Seq<BinaryPreset> {
    seq![
        BinaryPreset {
            name: "NStgData",
            header: [78, 84, 32, 68, 97, 116, 97, 32, 48, 54, 0, 0, 21, 7, 4, 32],
            direct_index: 0,
            compression: BinaryCompression::Raw,
            zlib_level: None,
            chunking: ChunkingArg::LowByte,
            chunk_count: 4,
            chunk_format: "NStgData{chunk:02X}.NOS",
            asset_kind: BinaryAssetKind::Geometry,
        },
        BinaryPreset {
            name: "NStgeData",
            header: [78, 84, 32, 68, 97, 116, 97, 32, 49, 48, 0, 0, 21, 7, 4, 32],
            direct_index: 0,
            compression: BinaryCompression::Raw,
            zlib_level: None,
            chunking: ChunkingArg::Single,
            chunk_count: 1,
            chunk_format: "NStgeData.NOS",
            asset_kind: BinaryAssetKind::Geometry,
        },
        BinaryPreset {
            name: "NStpData",
            header: [78, 84, 32, 68, 97, 116, 97, 32, 48, 55, 0, 0, 21, 7, 4, 32],
            direct_index: 0,
            compression: BinaryCompression::Raw,
            zlib_level: None,
            chunking: ChunkingArg::LowByte,
            chunk_count: 32,
            chunk_format: "NStpData{chunk:02X}.NOS",
            asset_kind: BinaryAssetKind::Texture,
        },
        BinaryPreset {
            name: "NStpeData",
            header: [78, 84, 32, 68, 97, 116, 97, 32, 49, 49, 0, 0, 21, 7, 4, 32],
            direct_index: 0,
            compression: BinaryCompression::Raw,
            zlib_level: None,
            chunking: ChunkingArg::LowByte,
            chunk_count: 8,
            chunk_format: "NStpeData{chunk:02X}.NOS",
            asset_kind: BinaryAssetKind::Texture,
        },
        BinaryPreset {
            name: "NStpuData",
            header: [78, 84, 32, 68, 97, 116, 97, 32, 49, 50, 0, 0, 21, 7, 4, 32],
            direct_index: 0,
            compression: BinaryCompression::Raw,
            zlib_level: None,
            chunking: ChunkingArg::LowByte,
            chunk_count: 4,
            chunk_format: "NStpuData{chunk:02X}.NOS",
            asset_kind: BinaryAssetKind::Texture,
        },
        BinaryPreset {
            name: "NSedData",
            header: [78, 84, 32, 68, 97, 116, 97, 32, 50, 48, 0, 0, 21, 7, 4, 32],
            direct_index: 0,
            compression: BinaryCompression::Raw,
            zlib_level: None,
            chunking: ChunkingArg::Single,
            chunk_count: 1,
            chunk_format: "NSedData.NOS",
            asset_kind: BinaryAssetKind::Effect(EffectAssetKind::ColorAnimation),
        },
        BinaryPreset {
            name: "NSemData",
            header: [78, 84, 32, 68, 97, 116, 97, 32, 50, 49, 0, 0, 21, 7, 4, 32],
            direct_index: 0,
            compression: BinaryCompression::Raw,
            zlib_level: None,
            chunking: ChunkingArg::Single,
            chunk_count: 1,
            chunk_format: "NSemData.NOS",
            asset_kind: BinaryAssetKind::Effect(EffectAssetKind::TransformAnimation),
        },
        BinaryPreset {
            name: "NSesData",
            header: [78, 84, 32, 68, 97, 116, 97, 32, 50, 50, 0, 0, 21, 7, 4, 32],
            direct_index: 0,
            compression: BinaryCompression::Raw,
            zlib_level: None,
            chunking: ChunkingArg::Single,
            chunk_count: 1,
            chunk_format: "NSesData.NOS",
            asset_kind: BinaryAssetKind::Effect(EffectAssetKind::TextureAnimation),
        },
        BinaryPreset {
            name: "NSeffData",
            header: [78, 84, 32, 68, 97, 116, 97, 32, 50, 51, 0, 0, 21, 7, 4, 32],
            direct_index: 0,
            compression: BinaryCompression::Raw,
            zlib_level: None,
            chunking: ChunkingArg::Single,
            chunk_count: 1,
            chunk_format: "NSeffData.NOS",
            asset_kind: BinaryAssetKind::Effect(EffectAssetKind::Definition),
        },
        BinaryPreset {
            name: "NStcData",
            header: [78, 84, 32, 68, 97, 116, 97, 32, 48, 53, 0, 0, 21, 7, 4, 32],
            direct_index: 0,
            compression: BinaryCompression::Zlib,
            zlib_level: Some(9u32),
            chunking: ChunkingArg::Single,
            chunk_count: 1,
            chunk_format: "NStcData.NOS",
            asset_kind: BinaryAssetKind::CellFlag,
        },
        BinaryPreset {
            name: "NStuData",
            header: [78, 84, 32, 68, 97, 116, 97, 32, 48, 50, 0, 0, 21, 7, 4, 32],
            direct_index: 0,
            compression: BinaryCompression::Zlib,
            zlib_level: Some(9u32),
            chunking: ChunkingArg::Single,
            chunk_count: 1,
            chunk_format: "NStuData.NOS",
            asset_kind: BinaryAssetKind::MapData,
        },
        BinaryPreset {
            name: "NSipData",
            header: [78, 84, 32, 68, 97, 116, 97, 32, 50, 52, 0, 0, 34, 8, 3, 32],
            direct_index: 0,
            compression: BinaryCompression::Zlib,
            zlib_level: Some(1u32),
            chunking: ChunkingArg::Single,
            chunk_count: 1,
            chunk_format: "NSipData.NOS",
            asset_kind: BinaryAssetKind::MapObjectSprite,
        },
        BinaryPreset {
            name: "NSmcData",
            header: [78, 84, 32, 68, 97, 116, 97, 32, 49, 54, 0, 0, 21, 7, 4, 32],
            direct_index: 1,
            compression: BinaryCompression::Raw,
            zlib_level: None,
            chunking: ChunkingArg::Single,
            chunk_count: 1,
            chunk_format: "NSmcData.NOS",
            asset_kind: BinaryAssetKind::SpriteAnimation,
        },
        BinaryPreset {
            name: "NSmpData",
            header: [78, 84, 32, 68, 97, 116, 97, 32, 49, 55, 0, 0, 21, 7, 4, 32],
            direct_index: 0,
            compression: BinaryCompression::Zlib,
            zlib_level: Some(1u32),
            chunking: ChunkingArg::LowByte,
            chunk_count: 16,
            chunk_format: "NSmpData{chunk:02X}.NOS",
            asset_kind: BinaryAssetKind::MapObjectSprite,
        },
        BinaryPreset {
            name: "NSppData",
            header: [78, 84, 32, 68, 97, 116, 97, 32, 49, 52, 0, 0, 21, 7, 4, 32],
            direct_index: 0,
            compression: BinaryCompression::Zlib,
            zlib_level: Some(1u32),
            chunking: ChunkingArg::LowByte,
            chunk_count: 32,
            chunk_format: "NSppData{chunk:02X}.NOS",
            asset_kind: BinaryAssetKind::MapObjectSprite,
        },
        BinaryPreset {
            name: "NSpcData",
            header: [78, 84, 32, 68, 97, 116, 97, 32, 49, 51, 0, 0, 21, 7, 4, 32],
            direct_index: 1,
            compression: BinaryCompression::Raw,
            zlib_level: None,
            chunking: ChunkingArg::Single,
            chunk_count: 1,
            chunk_format: "NSpcData.NOS",
            asset_kind: BinaryAssetKind::SpriteAnimation,
        },
        BinaryPreset {
            name: "NSpmData",
            header: [78, 84, 32, 68, 97, 116, 97, 32, 49, 53, 0, 0, 21, 7, 4, 32],
            direct_index: 1,
            compression: BinaryCompression::Raw,
            zlib_level: None,
            chunking: ChunkingArg::Single,
            chunk_count: 1,
            chunk_format: "NSpmData.NOS",
            asset_kind: BinaryAssetKind::SpriteRemap,
        },
        BinaryPreset {
            name: "NStkData",
            header: [78, 84, 32, 68, 97, 116, 97, 32, 48, 51, 0, 0, 21, 7, 4, 32],
            direct_index: 0,
            compression: BinaryCompression::Raw,
            zlib_level: None,
            chunking: ChunkingArg::Single,
            chunk_count: 1,
            chunk_format: "NStkData.NOS",
            asset_kind: BinaryAssetKind::MapNeighborhood,
        },
        BinaryPreset {
            name: "NSgrdData",
            header: [78, 84, 32, 68, 97, 116, 97, 32, 50, 54, 0, 0, 4, 17, 5, 32],
            direct_index: 0,
            compression: BinaryCompression::Raw,
            zlib_level: None,
            chunking: ChunkingArg::Single,
            chunk_count: 1,
            chunk_format: "NSgrdData.NOS",
            asset_kind: BinaryAssetKind::HeightGrid,
        },
        BinaryPreset {
            name: "NS4BbData",
            header: [51, 50, 71, 66, 83, 32, 86, 49, 46, 48, 26, 0, 8, 9, 3, 32],
            direct_index: 0,
            compression: BinaryCompression::Zlib,
            zlib_level: Some(9u32),
            chunking: ChunkingArg::Single,
            chunk_count: 1,
            chunk_format: "NS4BbData.NOS",
            asset_kind: BinaryAssetKind::FreeSizeSprite,
        }
    ]
}

/// The known families, in lookup order.
pub fn binary_presets() -> (r: Vec<BinaryPreset>)
    ensures
        r@ == preset_table(),
{
    vec![
        BinaryPreset {
            name: "NStgData",
            header: [78, 84, 32, 68, 97, 116, 97, 32, 48, 54, 0, 0, 21, 7, 4, 32],
            direct_index: 0,
            compression: BinaryCompression::Raw,
            zlib_level: None,
            chunking: ChunkingArg::LowByte,
            chunk_count: 4,
            chunk_format: "NStgData{chunk:02X}.NOS",
            asset_kind: BinaryAssetKind::Geometry,
        },
        BinaryPreset {
            name: "NStgeData",
            header: [78, 84, 32, 68, 97, 116, 97, 32, 49, 48, 0, 0, 21, 7, 4, 32],
            direct_index: 0,
            compression: BinaryCompression::Raw,
            zlib_level: None,
            chunking: ChunkingArg::Single,
            chunk_count: 1,
            chunk_format: "NStgeData.NOS",
            asset_kind: BinaryAssetKind::Geometry,
        },
        BinaryPreset {
            name: "NStpData",
            header: [78, 84, 32, 68, 97, 116, 97, 32, 48, 55, 0, 0, 21, 7, 4, 32],
            direct_index: 0,
            compression: BinaryCompression::Raw,
            zlib_level: None,
            chunking: ChunkingArg::LowByte,
            chunk_count: 32,
            chunk_format: "NStpData{chunk:02X}.NOS",
            asset_kind: BinaryAssetKind::Texture,
        },
        BinaryPreset {
            name: "NStpeData",
            header: [78, 84, 32, 68, 97, 116, 97, 32, 49, 49, 0, 0, 21, 7, 4, 32],
            direct_index: 0,
            compression: BinaryCompression::Raw,
            zlib_level: None,
            chunking: ChunkingArg::LowByte,
            chunk_count: 8,
            chunk_format: "NStpeData{chunk:02X}.NOS",
            asset_kind: BinaryAssetKind::Texture,
        },
        BinaryPreset {
            name: "NStpuData",
            header: [78, 84, 32, 68, 97, 116, 97, 32, 49, 50, 0, 0, 21, 7, 4, 32],
            direct_index: 0,
            compression: BinaryCompression::Raw,
            zlib_level: None,
            chunking: ChunkingArg::LowByte,
            chunk_count: 4,
            chunk_format: "NStpuData{chunk:02X}.NOS",
            asset_kind: BinaryAssetKind::Texture,
        },
        BinaryPreset {
            name: "NSedData",
            header: [78, 84, 32, 68, 97, 116, 97, 32, 50, 48, 0, 0, 21, 7, 4, 32],
            direct_index: 0,
            compression: BinaryCompression::Raw,
            zlib_level: None,
            chunking: ChunkingArg::Single,
            chunk_count: 1,
            chunk_format: "NSedData.NOS",
            asset_kind: BinaryAssetKind::Effect(EffectAssetKind::ColorAnimation),
        },
        BinaryPreset {
            name: "NSemData",
            header: [78, 84, 32, 68, 97, 116, 97, 32, 50, 49, 0, 0, 21, 7, 4, 32],
            direct_index: 0,
            compression: BinaryCompression::Raw,
            zlib_level: None,
            chunking: ChunkingArg::Single,
            chunk_count: 1,
            chunk_format: "NSemData.NOS",
            asset_kind: BinaryAssetKind::Effect(EffectAssetKind::TransformAnimation),
        },
        BinaryPreset {
            name: "NSesData",
            header: [78, 84, 32, 68, 97, 116, 97, 32, 50, 50, 0, 0, 21, 7, 4, 32],
            direct_index: 0,
            compression: BinaryCompression::Raw,
            zlib_level: None,
            chunking: ChunkingArg::Single,
            chunk_count: 1,
            chunk_format: "NSesData.NOS",
            asset_kind: BinaryAssetKind::Effect(EffectAssetKind::TextureAnimation),
        },
        BinaryPreset {
            name: "NSeffData",
            header: [78, 84, 32, 68, 97, 116, 97, 32, 50, 51, 0, 0, 21, 7, 4, 32],
            direct_index: 0,
            compression: BinaryCompression::Raw,
            zlib_level: None,
            chunking: ChunkingArg::Single,
            chunk_count: 1,
            chunk_format: "NSeffData.NOS",
            asset_kind: BinaryAssetKind::Effect(EffectAssetKind::Definition),
        },
        BinaryPreset {
            name: "NStcData",
            header: [78, 84, 32, 68, 97, 116, 97, 32, 48, 53, 0, 0, 21, 7, 4, 32],
            direct_index: 0,
            compression: BinaryCompression::Zlib,
            zlib_level: Some(9u32),
            chunking: ChunkingArg::Single,
            chunk_count: 1,
            chunk_format: "NStcData.NOS",
            asset_kind: BinaryAssetKind::CellFlag,
        },
        BinaryPreset {
            name: "NStuData",
            header: [78, 84, 32, 68, 97, 116, 97, 32, 48, 50, 0, 0, 21, 7, 4, 32],
            direct_index: 0,
            compression: BinaryCompression::Zlib,
            zlib_level: Some(9u32),
            chunking: ChunkingArg::Single,
            chunk_count: 1,
            chunk_format: "NStuData.NOS",
            asset_kind: BinaryAssetKind::MapData,
        },
        BinaryPreset {
            name: "NSipData",
            header: [78, 84, 32, 68, 97, 116, 97, 32, 50, 52, 0, 0, 34, 8, 3, 32],
            direct_index: 0,
            compression: BinaryCompression::Zlib,
            zlib_level: Some(1u32),
            chunking: ChunkingArg::Single,
            chunk_count: 1,
            chunk_format: "NSipData.NOS",
            asset_kind: BinaryAssetKind::MapObjectSprite,
        },
        BinaryPreset {
            name: "NSmcData",
            header: [78, 84, 32, 68, 97, 116, 97, 32, 49, 54, 0, 0, 21, 7, 4, 32],
            direct_index: 1,
            compression: BinaryCompression::Raw,
            zlib_level: None,
            chunking: ChunkingArg::Single,
            chunk_count: 1,
            chunk_format: "NSmcData.NOS",
            asset_kind: BinaryAssetKind::SpriteAnimation,
        },
        BinaryPreset {
            name: "NSmpData",
            header: [78, 84, 32, 68, 97, 116, 97, 32, 49, 55, 0, 0, 21, 7, 4, 32],
            direct_index: 0,
            compression: BinaryCompression::Zlib,
            zlib_level: Some(1u32),
            chunking: ChunkingArg::LowByte,
            chunk_count: 16,
            chunk_format: "NSmpData{chunk:02X}.NOS",
            asset_kind: BinaryAssetKind::MapObjectSprite,
        },
        BinaryPreset {
            name: "NSppData",
            header: [78, 84, 32, 68, 97, 116, 97, 32, 49, 52, 0, 0, 21, 7, 4, 32],
            direct_index: 0,
            compression: BinaryCompression::Zlib,
            zlib_level: Some(1u32),
            chunking: ChunkingArg::LowByte,
            chunk_count: 32,
            chunk_format: "NSppData{chunk:02X}.NOS",
            asset_kind: BinaryAssetKind::MapObjectSprite,
        },
        BinaryPreset {
            name: "NSpcData",
            header: [78, 84, 32, 68, 97, 116, 97, 32, 49, 51, 0, 0, 21, 7, 4, 32],
            direct_index: 1,
            compression: BinaryCompression::Raw,
            zlib_level: None,
            chunking: ChunkingArg::Single,
            chunk_count: 1,
            chunk_format: "NSpcData.NOS",
            asset_kind: BinaryAssetKind::SpriteAnimation,
        },
        BinaryPreset {
            name: "NSpmData",
            header: [78, 84, 32, 68, 97, 116, 97, 32, 49, 53, 0, 0, 21, 7, 4, 32],
            direct_index: 1,
            compression: BinaryCompression::Raw,
            zlib_level: None,
            chunking: ChunkingArg::Single,
            chunk_count: 1,
            chunk_format: "NSpmData.NOS",
            asset_kind: BinaryAssetKind::SpriteRemap,
        },
        BinaryPreset {
            name: "NStkData",
            header: [78, 84, 32, 68, 97, 116, 97, 32, 48, 51, 0, 0, 21, 7, 4, 32],
            direct_index: 0,
            compression: BinaryCompression::Raw,
            zlib_level: None,
            chunking: ChunkingArg::Single,
            chunk_count: 1,
            chunk_format: "NStkData.NOS",
            asset_kind: BinaryAssetKind::MapNeighborhood,
        },
        BinaryPreset {
            name: "NSgrdData",
            header: [78, 84, 32, 68, 97, 116, 97, 32, 50, 54, 0, 0, 4, 17, 5, 32],
            direct_index: 0,
            compression: BinaryCompression::Raw,
            zlib_level: None,
            chunking: ChunkingArg::Single,
            chunk_count: 1,
            chunk_format: "NSgrdData.NOS",
            asset_kind: BinaryAssetKind::HeightGrid,
        },
        BinaryPreset {
            name: "NS4BbData",
            header: [51, 50, 71, 66, 83, 32, 86, 49, 46, 48, 26, 0, 8, 9, 3, 32],
            direct_index: 0,
            compression: BinaryCompression::Zlib,
            zlib_level: Some(9u32),
            chunking: ChunkingArg::Single,
            chunk_count: 1,
            chunk_format: "NS4BbData.NOS",
            asset_kind: BinaryAssetKind::FreeSizeSprite,
        }
    ]
}


/// The position of the first family named `name` (ignoring ASCII case) at or after `k`.
pub open spec fn preset_index_named(name: Seq<char>, k: int) -> Option<int>
    decreases preset_table().len() - k,
{
    if k < 0 || k >= preset_table().len() {
        None
    } else if texts_eq_ignore_ascii_case(preset_table()[k].name@, name) {
        Some(k)
    } else {
        preset_index_named(name, k + 1)
    }
}

/// The first family named `name`, ignoring ASCII case.
pub open spec fn preset_named(name: Seq<char>) -> Option<BinaryPreset> {
    match preset_index_named(name, 0) {
        Some(i) => Some(preset_table()[i]),
        None => None,
    }
}

/// The position of the first family with this header and direct index at or after `k`.
pub open spec fn preset_index_with_header(header: Seq<u8>, direct_index: u8, k: int) -> Option<int>
    decreases preset_table().len() - k,
{
    if k < 0 || k >= preset_table().len() {
        None
    } else if preset_table()[k].header@ == header && preset_table()[k].direct_index == direct_index {
        Some(k)
    } else {
        preset_index_with_header(header, direct_index, k + 1)
    }
}

/// The first family with this header and direct index.
pub open spec fn preset_with_header(header: Seq<u8>, direct_index: u8) -> Option<BinaryPreset> {
    match preset_index_with_header(header, direct_index, 0) {
        Some(i) => Some(preset_table()[i]),
        None => None,
    }
}

/// The first family named `name`, ignoring ASCII case.
fn find_preset_named(name: &[char]) -> (r: Option<BinaryPreset>)
    ensures
        r == preset_named(name@),
{
    let table = binary_presets();
    let mut k: usize = 0;
    while k < table.len()
        invariant
            table@ == preset_table(),
            k <= table@.len(),
            preset_index_named(name@, 0) == preset_index_named(name@, k as int),
        decreases table@.len() - k,
    {
        let candidate = str_chars(table[k].name);
        if text_eq_ignore_case(candidate.as_slice(), name) {
            return Some(table[k]);
        }
        k = k + 1;
    }
    None
}

/// Whether two headers hold the same bytes.
fn same_header(a: &[u8; 16], b: &[u8; 16]) -> (r: bool)
    ensures
        r == (a@ == b@),
{
    let mut i: usize = 0;
    while i < 16
        invariant
            i <= 16,
            a@.len() == 16,
            b@.len() == 16,
            forall|k: int| 0 <= k < i ==> a@[k] == b@[k],
        decreases 16 - i,
    {
        if a[i] != b[i] {
            return false;
        }
        i = i + 1;
    }
    assert(a@ =~= b@);
    true
}

/// The first known family with this header and direct-index byte.
pub fn binary_preset_for_header(header: [u8; 16], direct_index: u8) -> (r: Option<BinaryPreset>)
    ensures
        r == preset_with_header(header@, direct_index),
{
    let table = binary_presets();
    let mut k: usize = 0;
    while k < table.len()
        invariant
            table@ == preset_table(),
            k <= table@.len(),
            preset_index_with_header(header@, direct_index, 0) == preset_index_with_header(
                header@,
                direct_index,
                k as int,
            ),
        decreases table@.len() - k,
    {
        if same_header(&table[k].header, &header) && table[k].direct_index == direct_index {
            return Some(table[k]);
        }
        k = k + 1;
    }
    None
}

/// The number of entries stored with compression `c`.
pub open spec fn count_compression(cs: Seq<BinaryCompression>, c: BinaryCompression) -> nat
    decreases cs.len(),
{
    if cs.len() == 0 {
        0
    } else {
        count_compression(cs.drop_last(), c) + if cs.last() == c {
            1nat
        } else {
            0nat
        }
    }
}

/// The default compression of an unknown archive: raw when more entries are raw than
/// zlib, zlib otherwise (a tie or an empty archive included).
pub open spec fn majority_compression(cs: Seq<BinaryCompression>) -> BinaryCompression {
    if count_compression(cs, BinaryCompression::Raw) > count_compression(cs, BinaryCompression::Zlib) {
        BinaryCompression::Raw
    } else {
        BinaryCompression::Zlib
    }
}

/// The compressions of table entries.
pub open spec fn entry_compressions(es: Seq<BinaryNosArchiveEntry>) -> Seq<BinaryCompression> {
    Seq::new(es.len(), |i: int| es[i].compression)
}

/// Picks a default compression for an unknown archive from its entries.
pub fn infer_default_compression(compressions: &[BinaryCompression]) -> (r: BinaryCompression)
    ensures
        r == majority_compression(compressions@),
{
    let mut raw: usize = 0;
    let mut zlib: usize = 0;
    let mut i: usize = 0;
    while i < compressions.len()
        invariant
            i <= compressions@.len(),
            raw == count_compression(compressions@.take(i as int), BinaryCompression::Raw),
            zlib == count_compression(compressions@.take(i as int), BinaryCompression::Zlib),
            raw + zlib == i,
        decreases compressions@.len() - i,
    {
        assert(compressions@.take(i + 1).drop_last() =~= compressions@.take(i as int));
        match compressions[i] {
            BinaryCompression::Raw => raw = raw + 1,
            BinaryCompression::Zlib => zlib = zlib + 1,
        }
        i = i + 1;
    }
    assert(compressions@.take(i as int) =~= compressions@);
    if raw > zlib {
        BinaryCompression::Raw
    } else {
        BinaryCompression::Zlib
    }
}

/// The bytes of `{chunk:02X}`.
pub open spec fn chunk_upper_word() -> Seq<u8> {
    seq![123u8, 99, 104, 117, 110, 107, 58, 48, 50, 88, 125]
}

/// The bytes of `{chunk:02x}`.
pub open spec fn chunk_lower_word() -> Seq<u8> {
    seq![123u8, 99, 104, 117, 110, 107, 58, 48, 50, 120, 125]
}

/// The bytes of `{chunk}`.
pub open spec fn chunk_plain_word() -> Seq<u8> {
    seq![123u8, 99, 104, 117, 110, 107, 125]
}

/// The bytes of `auto`.
pub open spec fn auto_word() -> Seq<u8> {
    seq![97u8, 117, 116, 111]
}

/// The bytes of `none`.
pub open spec fn none_word() -> Seq<u8> {
    seq![110u8, 111, 110, 101]
}

/// A name with the chunk placeholders removed.
pub open spec fn without_placeholders(name: Seq<char>) -> Seq<char> {
    replace_all(
        replace_all(
            replace_all(name, ascii_chars(chunk_upper_word()), Seq::empty()),
            ascii_chars(chunk_lower_word()),
            Seq::empty(),
        ),
        ascii_chars(chunk_plain_word()),
        Seq::empty(),
    )
}

/// The stem that names a family for an output path: its file name (or the whole path
/// when it names no file) without chunk placeholders, then that name's file stem (or
/// the name itself when it has none).
pub open spec fn auto_stem(out: Seq<char>) -> Seq<char> {
    let name = match path_file_name(out) {
        Some(n) => n,
        None => out,
    };
    let cleaned = without_placeholders(name);
    match path_file_stem(cleaned) {
        Some(st) => st,
        None => cleaned,
    }
}

/// The family `resolve_binary_preset` picks: none for `none`, the family named by the
/// argument unless it is `auto` (both ignoring ASCII case), and for `auto` the family
/// named by the output path's stem without a two-digit hexadecimal chunk suffix.
pub open spec fn resolved_preset(out: Seq<char>, preset_arg: Seq<char>) -> Option<BinaryPreset> {
    if eq_ignore_ascii_case(preset_arg, none_word()) {
        None
    } else if !eq_ignore_ascii_case(preset_arg, auto_word()) {
        preset_named(preset_arg)
    } else {
        preset_named(strip_chunk_suffix(auto_stem(out)))
    }
}

/// With `auto`, an output whose stem is a family name followed by a two-digit
/// hexadecimal chunk number, in either case, resolves to that family's preset.
pub proof fn lemma_auto_preset_ignores_chunk_number(out: Seq<char>, f: Seq<char>, a: char, b: char)
    requires
        auto_stem(out) == f + seq![a, b],
        f.len() >= 1,
        is_chunk_digit(a),
        is_chunk_digit(b),
    ensures
        resolved_preset(out, ascii_chars(auto_word())) == preset_named(f),
{
    lemma_chunk_number_stripped(f, a, b);
    let arg = ascii_chars(auto_word());
    assert(arg[0] as u32 == 97 && arg[1] as u32 == 117 && arg[2] as u32 == 116 && arg[3] as u32 == 111);
    assert(eq_ignore_ascii_case(arg, auto_word()));
    assert(!eq_ignore_ascii_case(arg, none_word()));
}

/// The characters of a path's file stem.
pub(crate) fn path_file_stem_chars(s: &[char]) -> (r: Option<Vec<char>>)
    ensures
        r matches Some(v) ==> path_file_stem(s@) == Some(v@),
        r is None ==> path_file_stem(s@) is None,
{
    match file_name_span_exec(s) {
        None => None,
        Some((b, e)) => {
            proof {
                lemma_file_name_span_bounds(s@, s@.len() as int);
            }
            let name = vstd::slice::slice_subrange(s, b, e);
            let k = stem_len_of(name);
            let stem = vstd::slice::slice_subrange(name, 0, k);
            assert(stem@ =~= name@.take(k as int));
            Some(vstd::slice::slice_to_vec(stem))
        },
    }
}

/// The stem that names a family for an output path.
fn auto_stem_exec(out: &str) -> (r: Vec<char>)
    ensures
        r@ == auto_stem(out@),
{
    let chars = str_chars(out);
    let name: Vec<char> = match file_name_span_exec(chars.as_slice()) {
        Some((b, e)) => {
            proof {
                lemma_file_name_span_bounds(chars@, chars@.len() as int);
            }
            vstd::slice::slice_to_vec(vstd::slice::slice_subrange(chars.as_slice(), b, e))
        },
        None => chars,
    };
    let upper = ascii_char_vec(&[123u8, 99, 104, 117, 110, 107, 58, 48, 50, 88, 125]);
    let lower = ascii_char_vec(&[123u8, 99, 104, 117, 110, 107, 58, 48, 50, 120, 125]);
    let plain = ascii_char_vec(&[123u8, 99, 104, 117, 110, 107, 125]);
    let empty: Vec<char> = Vec::new();
    let a = replace_all_exec(name.as_slice(), upper.as_slice(), empty.as_slice());
    let b = replace_all_exec(a.as_slice(), lower.as_slice(), empty.as_slice());
    let cleaned = replace_all_exec(b.as_slice(), plain.as_slice(), empty.as_slice());
    match path_file_stem_chars(cleaned.as_slice()) {
        Some(st) => st,
        None => cleaned,
    }
}

/// Whether resolving an output path's family by its name reads its stem without
/// splitting a character; `resolve_binary_preset` needs this for `auto`.
pub fn auto_preset_name_is_sliceable(out: &str) -> (r: bool)
    ensures
        r == chunk_suffix_slice_ok(auto_stem(out@)),
{
    let stem = auto_stem_exec(out);
    chunk_suffix_slice_ok_exec(stem.as_slice())
}

/// Whether `arg` is `word` ignoring ASCII case.
fn is_word(arg: &[char], word: &[u8]) -> (r: bool)
    requires
        forall|i: int| 0 <= i < word@.len() ==> 97 <= #[trigger] word@[i] <= 122,
    ensures
        r == eq_ignore_ascii_case(arg@, word@),
{
    let w = ascii_char_vec(word);
    let r = text_eq_ignore_case(arg, w.as_slice());
    proof {
        if r {
            assert forall|i: int| 0 <= i < arg@.len() implies crate::chartext::lower_code(#[trigger] arg@[i]) == word@[i] as u32 by {
                assert(crate::chartext::lower_code(w@[i]) == word@[i] as u32);
            }
        } else if eq_ignore_ascii_case(arg@, word@) {
            assert forall|i: int| 0 <= i < arg@.len() implies crate::chartext::lower_code(#[trigger] arg@[i]) == crate::chartext::lower_code(w@[i]) by {
                assert(crate::chartext::lower_code(w@[i]) == word@[i] as u32);
            }
        }
    }
    r
}

/// Resolves a family from a `--preset` value or, for `auto`, from the output path.
pub fn resolve_binary_preset(out: &str, preset_arg: &str) -> (r: Option<BinaryPreset>)
    requires
        eq_ignore_ascii_case(preset_arg@, auto_word()) ==> chunk_suffix_slice_ok(auto_stem(out@)),
    ensures
        r == resolved_preset(out@, preset_arg@),
{
    let arg = str_chars(preset_arg);
    if is_word(arg.as_slice(), &[110u8, 111, 110, 101]) {
        return None;
    }
    if !is_word(arg.as_slice(), &[97u8, 117, 116, 111]) {
        return find_preset_named(arg.as_slice());
    }
    let stem = auto_stem_exec(out);
    let keep = strip_chunk_suffix_len(stem.as_slice());
    let key = vstd::slice::slice_subrange(stem.as_slice(), 0, keep);
    assert(key@ =~= stem@.take(keep as int));
    find_preset_named(key)
}

/// The family of an archive by its path, or else by its header and direct index.
pub open spec fn lenient_archive_preset(a: BinaryNosArchive) -> Option<BinaryPreset> {
    match resolved_preset(a.path_view(), ascii_chars(auto_word())) {
        Some(p) => Some(p),
        None => preset_with_header(a.bytes().subrange(0, 16), a.direct_index_spec()),
    }
}

/// The family of an archive by its path, or else by its header and direct index.
fn preset_for_archive_lenient(archive: &BinaryNosArchive) -> (r: Option<BinaryPreset>)
    requires
        archive.wf(),
        chunk_suffix_slice_ok(auto_stem(archive.path_view())),
    ensures
        r == lenient_archive_preset(*archive),
{
    let auto = ascii_char_vec(&[97u8, 117, 116, 111]);
    assert(eq_ignore_ascii_case(auto@, auto_word()));
    let auto_text = chars_to_string(auto.as_slice());
    match resolve_binary_preset(archive.path(), auto_text.as_str()) {
        Some(p) => Some(p),
        None => binary_preset_for_header(archive.header(), archive.direct_index()),
    }
}

/// The compression that unpacking leaves out of payload file names: the family's
/// default for a known family, the majority of the archive's entries otherwise.
pub fn binary_nos_archive_default_compression(archive: &BinaryNosArchive) -> (r: BinaryCompression)
    requires
        archive.wf(),
        chunk_suffix_slice_ok(auto_stem(archive.path_view())),
    ensures
        r == match lenient_archive_preset(*archive) {
            Some(p) => p.compression,
            None => majority_compression(entry_compressions(archive.entries_spec())),
        },
{
    if let Some(preset) = preset_for_archive_lenient(archive) {
        return preset.compression;
    }
    let entries = archive.entries();
    let mut cs: Vec<BinaryCompression> = Vec::new();
    let mut i: usize = 0;
    while i < entries.len()
        invariant
            i <= entries@.len(),
            cs@ == entry_compressions(entries@.take(i as int)),
        decreases entries@.len() - i,
    {
        cs.push(entries[i].compression);
        assert(cs@ =~= entry_compressions(entries@.take(i + 1)));
        i = i + 1;
    }
    assert(entries@.take(i as int) =~= entries@);
    infer_default_compression(cs.as_slice())
}

/// Why a set of archives names no single family.
#[derive(Debug, Clone, PartialEq, Eq)]
pub enum BinaryPresetError {
    /// The set holds no archive.
    EmptyArchiveSet,
    /// The file name and the header name different families.
    FamilyConflict { path: String, named: &'static str, header: &'static str },
    /// The file name names a family whose header the archive does not have.
    HeaderMismatch { path: String, named: &'static str, header: [u8; 16], direct_index: u8 },
    /// Neither the file name nor the header names a family.
    UnknownFamily { path: String },
    /// A later chunk names another family than the first.
    InconsistentChunk { path: String, actual: &'static str, expected: &'static str },
    /// A `--zlib-level` value that is not a level from 0 to 9.
    InvalidZlibLevel,
    /// A zlib pack with `auto` level and no family level.
    MissingZlibLevel,
    /// Split output without a chunk pattern.
    MissingChunkPattern,
    /// A `--header-hex` value without exactly 16 bytes.
    HeaderHexLength,
    /// A `--header-hex` byte that is not hexadecimal.
    HeaderHexDigit { index: usize },
}

/// The families an archive's path and its header name.
pub open spec fn name_and_header_presets(a: BinaryNosArchive) -> (Option<BinaryPreset>, Option<BinaryPreset>) {
    (
        resolved_preset(a.path_view(), ascii_chars(auto_word())),
        preset_with_header(a.bytes().subrange(0, 16), a.direct_index_spec()),
    )
}

/// What `strict` resolution makes of an archive: the family when its path and header
/// agree or only the header names one, and the matching error otherwise.
pub open spec fn strict_result_ok(a: BinaryNosArchive, r: Result<BinaryPreset, BinaryPresetError>) -> bool {
    match name_and_header_presets(a) {
        (Some(named), Some(header)) => if named.name@ == header.name@ {
            r == Ok::<BinaryPreset, BinaryPresetError>(named)
        } else {
            r matches Err(BinaryPresetError::FamilyConflict { path, named: n, header: h }) && path@
                == a.path_view() && n == named.name && h == header.name
        },
        (Some(named), None) => r matches Err(
            BinaryPresetError::HeaderMismatch { path, named: n, header, direct_index },
        ) && path@ == a.path_view() && n == named.name && header@ == a.bytes().subrange(0, 16)
            && direct_index == a.direct_index_spec(),
        (None, Some(header)) => r == Ok::<BinaryPreset, BinaryPresetError>(header),
        (None, None) => r matches Err(BinaryPresetError::UnknownFamily { path }) && path@ == a.path_view(),
    }
}

/// Whether two texts are equal.
fn same_text(a: &str, b: &str) -> (r: bool)
    ensures
        r == (a@ == b@),
{
    let x = str_chars(a);
    let y = str_chars(b);
    if x.len() != y.len() {
        return false;
    }
    let mut i: usize = 0;
    while i < x.len()
        invariant
            x@ == a@,
            y@ == b@,
            x@.len() == y@.len(),
            i <= x@.len(),
            forall|k: int| 0 <= k < i ==> x@[k] == y@[k],
        decreases x@.len() - i,
    {
        if x[i] != y[i] {
            assert(x@[i as int] != y@[i as int]);
            return false;
        }
        i = i + 1;
    }
    assert(x@ =~= y@);
    true
}

/// Requires an archive's path and header to name one consistent family.
fn preset_for_archive_strict(archive: &BinaryNosArchive) -> (r: Result<BinaryPreset, BinaryPresetError>)
    requires
        archive.wf(),
        chunk_suffix_slice_ok(auto_stem(archive.path_view())),
    ensures
        strict_result_ok(*archive, r),
{
    let auto = ascii_char_vec(&[97u8, 117, 116, 111]);
    let auto_text = chars_to_string(auto.as_slice());
    let by_name = resolve_binary_preset(archive.path(), auto_text.as_str());
    let header = archive.header();
    let by_header = binary_preset_for_header(header, archive.direct_index());
    match (by_name, by_header) {
        (Some(named), Some(found)) => {
            if same_text(named.name, found.name) {
                Ok(named)
            } else {
                Err(
                    BinaryPresetError::FamilyConflict {
                        path: archive.path().to_owned(),
                        named: named.name,
                        header: found.name,
                    },
                )
            }
        },
        (Some(named), None) => Err(
            BinaryPresetError::HeaderMismatch {
                path: archive.path().to_owned(),
                named: named.name,
                header,
                direct_index: archive.direct_index(),
            },
        ),
        (None, Some(found)) => Ok(found),
        (None, None) => Err(BinaryPresetError::UnknownFamily { path: archive.path().to_owned() }),
    }
}

/// The family an archive names strictly, if it names one.
pub open spec fn strict_preset(a: BinaryNosArchive) -> Option<BinaryPreset> {
    match name_and_header_presets(a) {
        (Some(named), Some(header)) => if named.name@ == header.name@ {
            Some(named)
        } else {
            None
        },
        (Some(named), None) => None,
        (None, Some(header)) => Some(header),
        (None, None) => None,
    }
}

/// The first archive at or after `k` that does not strictly name a family called `name`.
pub open spec fn first_disagreeing(archives: Seq<BinaryNosArchive>, name: Seq<char>, k: int) -> Option<int>
    decreases archives.len() - k,
{
    if k < 0 || k >= archives.len() {
        None
    } else if strict_preset(archives[k]) matches Some(q) && q.name@ == name {
        first_disagreeing(archives, name, k + 1)
    } else {
        Some(k)
    }
}

/// Resolves one family for every chunk of an archive set: the first archive's family,
/// when every later archive strictly names a family of the same name. Otherwise the
/// first failure: the first archive's own error, or the first later archive's own error,
/// or that it names another family.
pub fn resolve_binary_nos_preset_for_archives(archives: &[BinaryNosArchive]) -> (r: Result<
    BinaryPreset,
    BinaryPresetError,
>)
    requires
        forall|i: int| 0 <= i < archives@.len() ==> (#[trigger] archives@[i]).wf(),
        forall|i: int|
            0 <= i < archives@.len() ==> chunk_suffix_slice_ok(auto_stem((#[trigger] archives@[i]).path_view())),
    ensures
        archives@.len() == 0 ==> r == Err::<BinaryPreset, BinaryPresetError>(BinaryPresetError::EmptyArchiveSet),
        archives@.len() > 0 ==> match strict_preset(archives@[0]) {
            None => r is Err && strict_result_ok(archives@[0], r),
            Some(p0) => match first_disagreeing(archives@, p0.name@, 1) {
                None => r == Ok::<BinaryPreset, BinaryPresetError>(p0),
                Some(k) => match strict_preset(archives@[k]) {
                    None => r is Err && strict_result_ok(archives@[k], r),
                    Some(q) => r matches Err(BinaryPresetError::InconsistentChunk { path, actual, expected })
                        && path@ == archives@[k].path_view() && actual == q.name && expected == p0.name,
                },
            },
        },
{
    if archives.len() == 0 {
        return Err(BinaryPresetError::EmptyArchiveSet);
    }
    let expected = match preset_for_archive_strict(&archives[0]) {
        Ok(p) => p,
        Err(e) => {
            return Err(e);
        },
    };
    let mut k: usize = 1;
    while k < archives.len()
        invariant
            1 <= k <= archives@.len(),
            strict_preset(archives@[0]) == Some(expected),
            forall|i: int| 0 <= i < archives@.len() ==> (#[trigger] archives@[i]).wf(),
            forall|i: int|
                0 <= i < archives@.len() ==> chunk_suffix_slice_ok(auto_stem((#[trigger] archives@[i]).path_view())),
            first_disagreeing(archives@, expected.name@, 1) == first_disagreeing(archives@, expected.name@, k as int),
        decreases archives@.len() - k,
    {
        match preset_for_archive_strict(&archives[k]) {
            Ok(actual) => {
                if !same_text(actual.name, expected.name) {
                    return Err(
                        BinaryPresetError::InconsistentChunk {
                            path: archives[k].path().to_owned(),
                            actual: actual.name,
                            expected: expected.name,
                        },
                    );
                }
            },
            Err(e) => {
                return Err(e);
            },
        }
        k = k + 1;
    }
    Ok(expected)
}

/// Substitutes a chunk number into a chunk file name pattern: `{chunk:02X}` and
/// `{chunk:02x}` become two or more hexadecimal digits, `{chunk}` the decimal number.
pub open spec fn chunk_file_name(pattern: Seq<char>, chunk: usize) -> Seq<char> {
    replace_all(
        replace_all(
            replace_all(pattern, ascii_chars(chunk_upper_word()), ascii_chars(hex_text2(chunk as nat, true))),
            ascii_chars(chunk_lower_word()),
            ascii_chars(hex_text2(chunk as nat, false)),
        ),
        ascii_chars(chunk_plain_word()),
        ascii_chars(nat_digits(chunk as nat)),
    )
}

/// Substitutes one chunk number into a chunk file name pattern.
pub fn format_chunk_pattern(pattern: &str, chunk: usize) -> (r: String)
    ensures
        r@ == chunk_file_name(pattern@, chunk),
{
    let p = str_chars(pattern);
    let mut upper_digits: Vec<u8> = Vec::new();
    push_hex2_u64(&mut upper_digits, chunk as u64, true);
    let mut lower_digits: Vec<u8> = Vec::new();
    push_hex2_u64(&mut lower_digits, chunk as u64, false);
    let mut dec_digits: Vec<u8> = Vec::new();
    push_decimal_u64(&mut dec_digits, chunk as u64);
    proof {
        lemma_hex_digits_ascii(chunk as nat, true);
        lemma_hex_digits_ascii(chunk as nat, false);
        crate::numtext::lemma_nat_digits_value(chunk as nat);
        assert forall|i: int| 0 <= i < dec_digits@.len() implies #[trigger] dec_digits@[i] < 128 by {
            assert(crate::numtext::is_digit(dec_digits@[i]));
        }
    }
    let upper_text = ascii_char_vec(upper_digits.as_slice());
    let lower_text = ascii_char_vec(lower_digits.as_slice());
    let dec_text = ascii_char_vec(dec_digits.as_slice());
    let upper = ascii_char_vec(&[123u8, 99, 104, 117, 110, 107, 58, 48, 50, 88, 125]);
    let lower = ascii_char_vec(&[123u8, 99, 104, 117, 110, 107, 58, 48, 50, 120, 125]);
    let plain = ascii_char_vec(&[123u8, 99, 104, 117, 110, 107, 125]);
    let a = replace_all_exec(p.as_slice(), upper.as_slice(), upper_text.as_slice());
    let b = replace_all_exec(a.as_slice(), lower.as_slice(), lower_text.as_slice());
    let c = replace_all_exec(b.as_slice(), plain.as_slice(), dec_text.as_slice());
    chars_to_string(c.as_slice())
}

/// The characters `--header-hex` keeps: all but white space and `_`.
pub open spec fn header_hex_clean(s: Seq<char>) -> Seq<char>
    decreases s.len(),
{
    if s.len() == 0 {
        s
    } else if is_white_space(s.last()) || s.last() as u32 == 95 {
        header_hex_clean(s.drop_last())
    } else {
        header_hex_clean(s.drop_last()).push(s.last())
    }
}

/// Whether reading the kept text of `--header-hex` two bytes at a time cuts no character
/// in half, as `str` slicing requires when the text has 32 bytes.
pub open spec fn header_hex_sliceable(value: Seq<char>) -> bool {
    let enc = vstd::utf8::encode_utf8(header_hex_clean(value));
    enc.len() == 32 ==> forall|k: int| 0 <= k < 16 ==> !vstd::utf8::is_continuation_byte(#[trigger] enc[2 * k])
}

/// The first of the 16 byte pairs that does not read as a hexadecimal `u8`.
pub open spec fn first_bad_pair(enc: Seq<u8>, k: int) -> Option<int>
    decreases 16 - k,
{
    if k < 0 || k >= 16 {
        None
    } else if parse_hex(enc.subrange(2 * k, 2 * k + 2), 255) is None {
        Some(k)
    } else {
        first_bad_pair(enc, k + 1)
    }
}

/// The UTF-8 bytes of the text `--header-hex` keeps.
fn header_hex_bytes(value: &str) -> (r: Vec<u8>)
    ensures
        r@ == vstd::utf8::encode_utf8(header_hex_clean(value@)),
{
    let chars = str_chars(value);
    let mut kept: Vec<char> = Vec::new();
    let mut i: usize = 0;
    while i < chars.len()
        invariant
            chars@ == value@,
            i <= chars@.len(),
            kept@ == header_hex_clean(chars@.take(i as int)),
        decreases chars@.len() - i,
    {
        let c = chars[i];
        assert(chars@.take(i + 1).drop_last() =~= chars@.take(i as int));
        if !(white_space(c) || c as u32 == 95) {
            kept.push(c);
        }
        i = i + 1;
    }
    assert(chars@.take(i as int) =~= chars@);
    let mut out: Vec<u8> = Vec::new();
    let mut k: usize = 0;
    while k < kept.len()
        invariant
            k <= kept@.len(),
            out@ == vstd::utf8::encode_utf8(kept@.take(k as int)),
        decreases kept@.len() - k,
    {
        proof {
            crate::textenc::lemma_encode_utf8_push(kept@.take(k as int), kept@[k as int]);
            assert(kept@.take(k as int).push(kept@[k as int]) =~= kept@.take(k + 1));
        }
        push_utf8(&mut out, kept[k]);
        k = k + 1;
    }
    assert(kept@.take(k as int) =~= kept@);
    out
}

/// Whether reading `--header-hex` two bytes at a time cuts no character in half.
pub fn header_hex_is_sliceable(value: &str) -> (r: bool)
    ensures
        r == header_hex_sliceable(value@),
{
    let enc = header_hex_bytes(value);
    if enc.len() != 32 {
        return true;
    }
    let mut k: usize = 0;
    while k < 16
        invariant
            enc@ == vstd::utf8::encode_utf8(header_hex_clean(value@)),
            enc@.len() == 32,
            k <= 16,
            forall|j: int| 0 <= j < k ==> !vstd::utf8::is_continuation_byte(#[trigger] enc@[2 * j]),
        decreases 16 - k,
    {
        let b = enc[2 * k];
        if 0x80 <= b && b <= 0xBF {
            assert(vstd::utf8::is_continuation_byte(enc@[2 * k as int]));
            assert(!header_hex_sliceable(value@)) by {
                let kk = k as int;
                assert(0 <= kk < 16 && vstd::utf8::is_continuation_byte(enc@[2 * kk]));
            }
            return false;
        }
        assert(!vstd::utf8::is_continuation_byte(enc@[2 * k as int]));
        k = k + 1;
    }
    true
}

/// What `--header-hex` reads as: the text without white space and `_` must have 32
/// bytes, read two at a time as hexadecimal `u8` values.
pub open spec fn header_hex_result(value: Seq<char>) -> Result<Seq<u8>, BinaryPresetError> {
    let enc = vstd::utf8::encode_utf8(header_hex_clean(value));
    if enc.len() != 32 {
        Err(BinaryPresetError::HeaderHexLength)
    } else {
        match first_bad_pair(enc, 0) {
            Some(k) => Err(BinaryPresetError::HeaderHexDigit { index: k as usize }),
            None => Ok(Seq::new(16, |k: int| parse_hex(enc.subrange(2 * k, 2 * k + 2), 255)->Some_0 as u8)),
        }
    }
}

/// Parses the 16-byte `--header-hex` option.
pub fn parse_header_hex(value: &str) -> (r: Result<[u8; 16], BinaryPresetError>)
    requires
        header_hex_sliceable(value@),
    ensures
        match header_hex_result(value@) {
            Ok(h) => r matches Ok(x) && x@ == h,
            Err(e) => r == Err::<[u8; 16], BinaryPresetError>(e),
        },
{
    let enc = header_hex_bytes(value);
    if enc.len() != 32 {
        return Err(BinaryPresetError::HeaderHexLength);
    }
    let mut bytes = [0u8; 16];
    let mut k: usize = 0;
    while k < 16
        invariant
            enc@ == vstd::utf8::encode_utf8(header_hex_clean(value@)),
            enc@.len() == 32,
            k <= 16,
            first_bad_pair(enc@, 0) == first_bad_pair(enc@, k as int),
            forall|j: int| 0 <= j < k ==> parse_hex(enc@.subrange(2 * j, 2 * j + 2), 255) == Some(#[trigger] bytes@[j] as int),
        decreases 16 - k,
    {
        let pair = vstd::slice::slice_subrange(enc.as_slice(), 2 * k, 2 * k + 2);
        match parse_u8_hex(pair) {
            Some(v) => {
                bytes[k] = v;
            },
            None => {
                assert(pair@ =~= enc@.subrange(2 * k as int, 2 * k as int + 2));
                assert(first_bad_pair(enc@, k as int) == Some(k as int));
                return Err(BinaryPresetError::HeaderHexDigit { index: k });
            },
        }
        k = k + 1;
    }
    proof {
        let enc2 = vstd::utf8::encode_utf8(header_hex_clean(value@));
        assert forall|j: int| 0 <= j < 16 implies bytes@[j] == parse_hex(enc2.subrange(2 * j, 2 * j + 2), 255)->Some_0 as u8 by {
            assert(parse_hex(enc@.subrange(2 * j, 2 * j + 2), 255) == Some(bytes@[j] as int));
        }
        assert(bytes@ =~= Seq::new(16, |k: int| parse_hex(enc2.subrange(2 * k, 2 * k + 2), 255)->Some_0 as u8));
    }
    Ok(bytes)
}

/// The zlib level of a pack: 9 for a raw pack; for `auto` (ignoring ASCII case) the
/// family's level; otherwise a decimal level from 0 to 9.
pub open spec fn zlib_level_result(level_arg: Seq<char>, compression: BinaryCompression, preset: Option<BinaryPreset>) -> Result<u32, BinaryPresetError> {
    if compression != BinaryCompression::Zlib {
        Ok(9)
    } else if eq_ignore_ascii_case(level_arg, auto_word()) {
        match preset {
            Some(p) => match p.zlib_level {
                Some(l) => Ok(l),
                None => Err(BinaryPresetError::MissingZlibLevel),
            },
            None => Err(BinaryPresetError::MissingZlibLevel),
        }
    } else {
        match crate::numtext::parse_decimal(vstd::utf8::encode_utf8(level_arg), false, 0, 9) {
            Some(l) => Ok(l as u32),
            None => Err(BinaryPresetError::InvalidZlibLevel),
        }
    }
}

/// Resolves the zlib level of a pack.
pub fn resolve_zlib_level(level_arg: &str, compression: BinaryCompression, preset: Option<&BinaryPreset>) -> (r: Result<u32, BinaryPresetError>)
    ensures
        r == zlib_level_result(
            level_arg@,
            compression,
            match preset {
                Some(p) => Some(*p),
                None => None,
            },
        ),
{
    if compression != BinaryCompression::Zlib {
        return Ok(9);
    }
    let arg = str_chars(level_arg);
    if is_word(arg.as_slice(), &[97u8, 117, 116, 111]) {
        return match preset {
            Some(p) => match p.zlib_level {
                Some(l) => Ok(l),
                None => Err(BinaryPresetError::MissingZlibLevel),
            },
            None => Err(BinaryPresetError::MissingZlibLevel),
        };
    }
    match crate::numtext::parse_unsigned_dec(level_arg.as_bytes(), 9) {
        Some(l) => Ok(l),
        None => Err(BinaryPresetError::InvalidZlibLevel),
    }
}

/// The bytes of `{chunk`.
pub open spec fn chunk_open_word() -> Seq<u8> {
    seq![123u8, 99, 104, 117, 110, 107]
}

/// Whether `pat` occurs in `s`.
pub open spec fn contains_text(s: Seq<char>, pat: Seq<char>) -> bool {
    exists|i: int| 0 <= i && i + pat.len() <= s.len() && #[trigger] s.subrange(i, i + pat.len()) == pat
}

/// A Unix path joined with another, as `Path::join` joins them: an absolute second
/// path replaces the first, and a `/` separates them unless the first is empty or ends
/// in one.
pub open spec fn join_path(base: Seq<char>, p: Seq<char>) -> Seq<char> {
    if p.len() > 0 && p[0] as u32 == 47 {
        p
    } else if base.len() == 0 || base.last() as u32 == 47 {
        base + p
    } else {
        base + seq!['/'] + p
    }
}

/// Whether a path has an extension: its file name has a `.` after the first character.
pub open spec fn has_extension(s: Seq<char>) -> bool {
    path_file_name(s) matches Some(n) && crate::binary_payloads::last_dot(n, n.len() as int) > 0
}

/// The output file name pattern of a pack: the out directory joined with an explicit
/// chunk format; `out` itself when it holds a `{chunk` placeholder; for an `out` without
/// extension, the family's pattern inside it; a refusal when more than one chunk is to be
/// written without a pattern; `out` otherwise.
pub open spec fn output_pattern_spec(
    out: Seq<char>,
    chunk_format: Option<Seq<char>>,
    preset: Option<BinaryPreset>,
    chunk_count: usize,
) -> Option<Seq<char>> {
    match chunk_format {
        Some(f) => Some(join_path(out, f)),
        None => if contains_text(out, ascii_chars(chunk_open_word())) {
            Some(out)
        } else if !has_extension(out) && preset is Some {
            Some(join_path(out, preset->Some_0.chunk_format@))
        } else if chunk_count > 1 {
            None
        } else {
            Some(out)
        },
    }
}

/// Whether `pat` occurs in `s`.
pub(crate) fn contains_chars(s: &[char], pat: &[char]) -> (r: bool)
    ensures
        r == contains_text(s@, pat@),
{
    if pat.len() > s.len() {
        return false;
    }
    let mut i: usize = 0;
    while i <= s.len() - pat.len()
        invariant
            pat@.len() <= s@.len(),
            i <= s@.len() - pat@.len() + 1,
            forall|k: int| 0 <= k < i ==> #[trigger] s@.subrange(k, k + pat@.len()) != pat@,
        decreases s@.len() - pat@.len() + 1 - i,
    {
        let mut k: usize = 0;
        let mut same = true;
        while k < pat.len()
            invariant
                i + pat@.len() <= s@.len(),
                s@.len() == s.len(),
                k <= pat@.len(),
                same == (forall|x: int| 0 <= x < k ==> s@[i + x] == pat@[x]),
            decreases pat@.len() - k,
        {
            if s[i + k] != pat[k] {
                same = false;
            }
            k = k + 1;
        }
        if same {
            assert(s@.subrange(i as int, i + pat@.len()) =~= pat@);
            return true;
        }
        assert(s@.subrange(i as int, i + pat@.len()) != pat@) by {
            let x = choose|x: int| 0 <= x < pat@.len() && s@[i + x] != pat@[x];
            assert(s@.subrange(i as int, i + pat@.len())[x] != pat@[x]);
        }
        i = i + 1;
    }
    false
}

/// A Unix path joined with another.
fn join_chars(base: &[char], p: &[char]) -> (r: Vec<char>)
    ensures
        r@ == join_path(base@, p@),
{
    let mut out: Vec<char> = Vec::new();
    if p.len() > 0 && p[0] as u32 == 47 {
        append_chars(&mut out, p);
        assert(out@ =~= p@);
        return out;
    }
    append_chars(&mut out, base);
    if !(base.len() == 0 || base[base.len() - 1] as u32 == 47) {
        out.push('/');
    }
    append_chars(&mut out, p);
    proof {
        if base@.len() == 0 || base@.last() as u32 == 47 {
            assert(out@ =~= base@ + p@);
        } else {
            assert(out@ =~= base@ + seq!['/'] + p@);
        }
    }
    out
}

/// Appends characters.
fn append_chars(out: &mut Vec<char>, cs: &[char])
    ensures
        final(out)@ == old(out)@ + cs@,
{
    let mut i: usize = 0;
    while i < cs.len()
        invariant
            i <= cs@.len(),
            out@ == old(out)@ + cs@.take(i as int),
        decreases cs@.len() - i,
    {
        out.push(cs[i]);
        assert(out@ =~= old(out)@ + cs@.take(i + 1));
        i = i + 1;
    }
    assert(cs@.take(i as int) =~= cs@);
}

/// Resolves the output file name pattern of a pack; `Err` when several chunks are to be
/// written and nothing gives a pattern.
pub fn output_pattern(out: &str, chunk_format: Option<&str>, preset: Option<&BinaryPreset>, chunk_count: usize) -> (r: Result<String, BinaryPresetError>)
    ensures
        match output_pattern_spec(
            out@,
            match chunk_format {
                Some(f) => Some(f@),
                None => None,
            },
            match preset {
                Some(p) => Some(*p),
                None => None,
            },
            chunk_count,
        ) {
            Some(t) => r matches Ok(s) && s@ == t,
            None => r == Err::<String, BinaryPresetError>(BinaryPresetError::MissingChunkPattern),
        },
{
    let o = str_chars(out);
    if let Some(format) = chunk_format {
        let f = str_chars(format);
        let joined = join_chars(o.as_slice(), f.as_slice());
        return Ok(chars_to_string(joined.as_slice()));
    }
    let open = ascii_char_vec(&[123u8, 99, 104, 117, 110, 107]);
    if contains_chars(o.as_slice(), open.as_slice()) {
        return Ok(out.to_owned());
    }
    let has_ext = match file_name_span_exec(o.as_slice()) {
        Some((b, e)) => {
            proof {
                lemma_file_name_span_bounds(o@, o@.len() as int);
            }
            let name = vstd::slice::slice_subrange(o.as_slice(), b, e);
            let mut i: usize = name.len();
            while i > 0 && name[i - 1] as u32 != 46
                invariant
                    i <= name@.len(),
                    crate::binary_payloads::last_dot(name@, name@.len() as int) == crate::binary_payloads::last_dot(name@, i as int),
                decreases i,
            {
                i = i - 1;
            }
            assert(crate::binary_payloads::last_dot(name@, i as int) == i - 1);
            i > 1
        },
        None => false,
    };
    if !has_ext {
        if let Some(p) = preset {
            let f = str_chars(p.chunk_format);
            let joined = join_chars(o.as_slice(), f.as_slice());
            return Ok(chars_to_string(joined.as_slice()));
        }
    }
    if chunk_count > 1 {
        return Err(BinaryPresetError::MissingChunkPattern);
    }
    Ok(out.to_owned())
}

} // verus!
