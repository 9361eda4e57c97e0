//! Path rules of manifest-backed asset directories: a frame or mip image a manifest
//! names must be one plain PNG file beside the manifest, and the kind of a sprite to pack
//! follows from whether its input is a directory or a PNG file.
use vstd::prelude::*;

use crate::archive_rules::{has_png_extension, png_extension};
use crate::chartext::{str_chars, text_eq_ignore_case, texts_eq_ignore_ascii_case};
use crate::sound_pack::{path_segments, segments_from};

verus! {

/// Why an image path in an asset manifest is refused.
#[derive(Debug, Clone, Copy, PartialEq, Eq, Structural)]
pub enum ImagePathError {
    /// The image names the manifest itself.
    ManifestFile,
    /// The image path is absolute.
    Absolute,
    /// The image path is not a single file name.
    NotAFileName,
    /// The image is not a `.png` file.
    NotPng,
}

/// Whether a relative path is one plain file name: not starting with `.` as its own
/// component, and exactly one named component that is not `..`.
pub open spec fn is_single_component(p: Seq<char>) -> bool {
    &&& !(p == seq!['.'] || (p.len() >= 2 && p[0] == '.' && p[1] == '/'))
    &&& path_segments(p).len() == 1
    &&& path_segments(p)[0] != seq!['.', '.']
}

/// What the check of an image path gives: the manifest's own name (compared exactly,
/// or ignoring ASCII case when `ignore_case`), an absolute path, anything but one plain
/// file name, and a name without the `png` extension are refused, in that order.
pub open spec fn image_path_check(manifest: Seq<char>, ignore_case: bool, image: Seq<char>) -> Result<(), ImagePathError> {
    let names_manifest = if ignore_case {
        texts_eq_ignore_ascii_case(image, manifest)
    } else {
        image == manifest
    };
    if names_manifest {
        Err(ImagePathError::ManifestFile)
    } else if image.len() > 0 && image[0] == '/' {
        Err(ImagePathError::Absolute)
    } else if !is_single_component(image) {
        Err(ImagePathError::NotAFileName)
    } else if !png_extension(image) {
        Err(ImagePathError::NotPng)
    } else {
        Ok(())
    }
}

/// Whether a relative path is one plain file name.
fn single_component(cs: &Vec<char>) -> (r: bool)
    ensures
        r == is_single_component(cs@),
{
    let n = cs.len();
    if (n == 1 && cs[0] == '.') || (n >= 2 && cs[0] == '.' && cs[1] == '/') {
        proof {
            if n == 1 {
                assert(cs@ =~= seq!['.']);
            }
        }
        return false;
    }
    assert(!(cs@ == seq!['.'])) by {
        if cs@ == seq!['.'] {
            assert(cs@.len() == 1 && cs@[0] == '.');
        }
    }
    assert(cs@.skip(0) =~= cs@);
    let (count, b, e) = segments_from(cs.as_slice(), 0);
    if count != 1 {
        return false;
    }
    let ghost seg = cs@.subrange(b as int, e as int);
    let is_parent = e - b == 2 && cs[b] == '.' && cs[b + 1] == '.';
    proof {
        if is_parent {
            assert(seg =~= seq!['.', '.']);
        }
        if seg == seq!['.', '.'] {
            assert(seg.len() == 2 && seg[0] == seq!['.', '.'][0] && seg[1] == seq!['.', '.'][1]);
            assert(seg[0] == cs@[b as int] && seg[1] == cs@[b + 1]);
        }
    }
    !is_parent
}

/// Checks an image path that an asset manifest names; `manifest` is the manifest's own
/// file name.
pub fn check_image_path(manifest: &str, ignore_case: bool, image: &str) -> (r: Result<(), ImagePathError>)
    ensures
        r == image_path_check(manifest@, ignore_case, image@),
{
    let cs = str_chars(image);
    let ms = str_chars(manifest);
    let names_manifest = if ignore_case {
        text_eq_ignore_case(cs.as_slice(), ms.as_slice())
    } else {
        image.to_owned() == manifest.to_owned()
    };
    if names_manifest {
        return Err(ImagePathError::ManifestFile);
    }
    if cs.len() > 0 && cs[0] == '/' {
        return Err(ImagePathError::Absolute);
    }
    if !single_component(&cs) {
        return Err(ImagePathError::NotAFileName);
    }
    if !has_png_extension(image) {
        return Err(ImagePathError::NotPng);
    }
    Ok(())
}

/// The kind of sprite a pack builds.
#[derive(Debug, Clone, Copy, PartialEq, Eq, Structural)]
pub enum SpriteKindArg {
    /// From the input.
    Auto,
    /// A manifest-backed directory of frames.
    MapObject,
    /// One PNG image.
    FreeSize,
}

/// Why a sprite pack input does not fit its kind.
#[derive(Debug, Clone, Copy, PartialEq, Eq, Structural)]
pub enum SpriteKindError {
    /// The input is neither a directory nor a PNG file.
    CannotInfer,
    /// A map-object sprite is packed from a directory.
    MapObjectNeedsDirectory,
    /// A free-size sprite is packed from a file.
    FreeSizeNeedsFile,
    /// A free-size sprite is packed from a `.png` file.
    FreeSizeNeedsPng,
}

/// The kind a sprite pack resolves to: `Auto` is a map-object sprite for a directory
/// and a free-size sprite for a PNG file; then the input must fit the kind.
pub open spec fn sprite_pack_kind(input: Seq<char>, kind: SpriteKindArg, is_dir: bool, is_file: bool) -> Result<SpriteKindArg, SpriteKindError> {
    let png = png_extension(input);
    let resolved = match kind {
        SpriteKindArg::Auto => if is_dir {
            Some(SpriteKindArg::MapObject)
        } else if is_file && png {
            Some(SpriteKindArg::FreeSize)
        } else {
            None
        },
        k => Some(k),
    };
    match resolved {
        None => Err(SpriteKindError::CannotInfer),
        Some(SpriteKindArg::MapObject) => if !is_dir {
            Err(SpriteKindError::MapObjectNeedsDirectory)
        } else {
            Ok(SpriteKindArg::MapObject)
        },
        Some(SpriteKindArg::FreeSize) => if !is_file {
            Err(SpriteKindError::FreeSizeNeedsFile)
        } else if !png {
            Err(SpriteKindError::FreeSizeNeedsPng)
        } else {
            Ok(SpriteKindArg::FreeSize)
        },
        Some(k) => Ok(k),
    }
}

/// Resolves the kind of a sprite pack from the input path and whether it is a directory
/// or a file.
pub fn resolve_pack_kind(input: &str, kind: SpriteKindArg, is_dir: bool, is_file: bool) -> (r: Result<SpriteKindArg, SpriteKindError>)
    ensures
        r == sprite_pack_kind(input@, kind, is_dir, is_file),
{
    let png = has_png_extension(input);
    let resolved = match kind {
        SpriteKindArg::Auto => if is_dir {
            SpriteKindArg::MapObject
        } else if is_file && png {
            SpriteKindArg::FreeSize
        } else {
            return Err(SpriteKindError::CannotInfer);
        },
        k => k,
    };
    match resolved {
        SpriteKindArg::MapObject => if !is_dir {
            Err(SpriteKindError::MapObjectNeedsDirectory)
        } else {
            Ok(SpriteKindArg::MapObject)
        },
        SpriteKindArg::FreeSize => if !is_file {
            Err(SpriteKindError::FreeSizeNeedsFile)
        } else if !png {
            Err(SpriteKindError::FreeSizeNeedsPng)
        } else {
            Ok(SpriteKindArg::FreeSize)
        },
        k => Ok(k),
    }
}

} // verus!
