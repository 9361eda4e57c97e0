//! Verified readers, writers and editors for NosTale data containers.
//!
//! The crate models every container format as a function on byte sequences:
//! each parser states exactly which byte layouts it accepts and what it
//! returns, and each writer states the bytes it produces.
pub mod archive_convert;
pub mod archive_rules;
pub mod asset_paths;
pub mod audio;
pub mod binary;
pub mod binary_pack;
pub mod binary_payloads;
pub mod binary_preset;
pub mod bytes;
pub mod ccinf;
pub mod cell_flag;
pub mod chartext;
pub mod common;
pub mod deldx;
pub mod deldx_mutation;
pub mod hextext;
pub mod numtext;
pub mod paths;
pub mod sound_info;
pub mod sound_pack;
pub mod sprite;
pub mod sprite_remap;
pub mod structured_text;
pub mod text_archive;
pub mod text_convert;
pub mod text_pack;
pub mod textenc;
pub mod util;
pub mod zlib;
