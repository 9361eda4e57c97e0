use taletool::archive_convert::{converted_relative_path, stable_output_stem, OutputStemError};
use taletool::binary_preset::{BinaryAssetKind, EffectAssetKind};

#[test]
fn stable_stems_come_from_plain_bin_names() {
    assert_eq!(stable_output_stem("000123__index4.bin").unwrap(), "000123__index4");
    assert_eq!(stable_output_stem("dir/1.bin"), Err(OutputStemError::NotAFileName));
    assert_eq!(stable_output_stem("1.bin/"), Err(OutputStemError::NotAFileName));
    assert_eq!(stable_output_stem(".."), Err(OutputStemError::NotAFileName));
    assert_eq!(stable_output_stem("1.dat"), Err(OutputStemError::NotBin));
    assert_eq!(stable_output_stem(".bin"), Err(OutputStemError::EmptyStem));
}

#[test]
fn converted_paths_follow_the_asset_kind() {
    assert_eq!(converted_relative_path(BinaryAssetKind::Geometry, "7.bin").unwrap(), "7.json");
    assert_eq!(converted_relative_path(BinaryAssetKind::Texture, "7.bin").unwrap(), "7");
    assert_eq!(converted_relative_path(BinaryAssetKind::MapObjectSprite, "7.bin").unwrap(), "7");
    assert_eq!(converted_relative_path(BinaryAssetKind::CellFlag, "7.bin").unwrap(), "7.png");
    assert_eq!(converted_relative_path(BinaryAssetKind::FreeSizeSprite, "7.bin").unwrap(), "7.png");
    let effect = BinaryAssetKind::Effect(EffectAssetKind::Definition);
    assert_eq!(converted_relative_path(effect, "7__zlib.bin").unwrap(), "7__zlib.json");
    assert_eq!(converted_relative_path(BinaryAssetKind::MapData, "x.txt"), Err(OutputStemError::NotBin));
}
