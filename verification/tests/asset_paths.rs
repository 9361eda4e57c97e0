use taletool::archive_rules::has_png_extension;
use taletool::asset_paths::{check_image_path, resolve_pack_kind, ImagePathError, SpriteKindArg, SpriteKindError};

#[test]
fn frame_images_must_be_plain_png_files() {
    assert_eq!(check_image_path("sprite.json", false, "frame_000.png"), Ok(()));
    assert_eq!(check_image_path("sprite.json", false, "frame_000.PNG"), Ok(()));
    assert_eq!(check_image_path("sprite.json", false, "sprite.json"), Err(ImagePathError::ManifestFile));
    assert_eq!(check_image_path("sprite.json", false, "SPRITE.JSON"), Err(ImagePathError::NotPng));
    assert_eq!(check_image_path("texture.json", true, "TEXTURE.JSON"), Err(ImagePathError::ManifestFile));
    assert_eq!(check_image_path("sprite.json", false, "/tmp/a.png"), Err(ImagePathError::Absolute));
    assert_eq!(check_image_path("sprite.json", false, "../a.png"), Err(ImagePathError::NotAFileName));
    assert_eq!(check_image_path("sprite.json", false, "dir/a.png"), Err(ImagePathError::NotAFileName));
    assert_eq!(check_image_path("sprite.json", false, "./a.png"), Err(ImagePathError::NotAFileName));
    assert_eq!(check_image_path("sprite.json", false, ".png"), Err(ImagePathError::NotPng));
    assert_eq!(check_image_path("sprite.json", false, "a.jpg"), Err(ImagePathError::NotPng));
}

#[test]
fn sprite_pack_kind_follows_the_input() {
    assert_eq!(resolve_pack_kind("frames", SpriteKindArg::Auto, true, false), Ok(SpriteKindArg::MapObject));
    assert_eq!(resolve_pack_kind("a.PNG", SpriteKindArg::Auto, false, true), Ok(SpriteKindArg::FreeSize));
    assert_eq!(resolve_pack_kind("a.bmp", SpriteKindArg::Auto, false, true), Err(SpriteKindError::CannotInfer));
    assert_eq!(
        resolve_pack_kind("a.png", SpriteKindArg::MapObject, false, true),
        Err(SpriteKindError::MapObjectNeedsDirectory)
    );
    assert_eq!(resolve_pack_kind("dir", SpriteKindArg::FreeSize, true, false), Err(SpriteKindError::FreeSizeNeedsFile));
    assert_eq!(resolve_pack_kind("a.bmp", SpriteKindArg::FreeSize, false, true), Err(SpriteKindError::FreeSizeNeedsPng));
    assert!(has_png_extension("dir/x.png"));
    assert!(!has_png_extension("png"));
}
