//! Naming the converted form of a binary payload: the payload's stable `.bin` file name
//! gives the stem, and the asset kind gives what follows it.
use vstd::prelude::*;

use crate::binary_preset::BinaryAssetKind;
use crate::chartext::str_chars;
use crate::paths::path_file_name;
use crate::textenc::chars_to_string;

verus! {

/// Why a payload file name does not name a converted output.
#[derive(Debug, Clone, Copy, PartialEq, Eq, Structural)]
pub enum OutputStemError {
    /// The name is not one plain file name.
    NotAFileName,
    /// The name does not end in `.bin`.
    NotBin,
    /// Nothing comes before `.bin`.
    EmptyStem,
}

/// `.bin`
pub open spec fn bin_suffix() -> Seq<char> {
    seq!['.', 'b', 'i', 'n']
}

/// The stem of a generated payload file name: the name must be its own file name and
/// end in `.bin`, and something must come before that suffix.
pub open spec fn output_stem(file_name: Seq<char>) -> Result<Seq<char>, OutputStemError> {
    if path_file_name(file_name) != Some(file_name) {
        Err(OutputStemError::NotAFileName)
    } else if !(file_name.len() >= 4 && file_name.skip(file_name.len() - 4) == bin_suffix()) {
        Err(OutputStemError::NotBin)
    } else if file_name.len() == 4 {
        Err(OutputStemError::EmptyStem)
    } else {
        Ok(file_name.take(file_name.len() - 4))
    }
}

/// The stem of a generated payload file name.
pub fn stable_output_stem(file_name: &str) -> (r: Result<String, OutputStemError>)
    ensures
        match output_stem(file_name@) {
            Ok(s) => r matches Ok(x) && x@ == s,
            Err(e) => r == Err::<String, OutputStemError>(e),
        },
{
    let cs = str_chars(file_name);
    let n = cs.len();
    match crate::paths::file_name_span_exec(cs.as_slice()) {
        Some((b, e)) => {
            proof {
                crate::paths::lemma_file_name_span_bounds(cs@, cs@.len() as int);
            }
            if !(b == 0 && e == n) {
                proof {
                    if path_file_name(cs@) == Some(cs@) {
                        assert(cs@.subrange(b as int, e as int).len() == cs@.len());
                    }
                }
                return Err(OutputStemError::NotAFileName);
            }
            assert(cs@.subrange(0, n as int) =~= cs@);
        },
        None => {
            return Err(OutputStemError::NotAFileName);
        },
    }
    if !(n >= 4 && cs[n - 4] == '.' && cs[n - 3] == 'b' && cs[n - 2] == 'i' && cs[n - 1] == 'n') {
        proof {
            if n >= 4 && cs@.skip(n - 4) == bin_suffix() {
                assert(cs@.skip(n - 4)[0] == cs@[n - 4]);
                assert(cs@.skip(n - 4)[1] == cs@[n - 3]);
                assert(cs@.skip(n - 4)[2] == cs@[n - 2]);
                assert(cs@.skip(n - 4)[3] == cs@[n - 1]);
            }
        }
        return Err(OutputStemError::NotBin);
    }
    assert(cs@.skip(n - 4) =~= bin_suffix());
    if n == 4 {
        return Err(OutputStemError::EmptyStem);
    }
    let stem = vstd::slice::slice_subrange(cs.as_slice(), 0, n - 4);
    assert(stem@ =~= cs@.take(n - 4));
    Ok(chars_to_string(stem))
}

/// What a converted payload of a kind is written as: a directory for textures and
/// map-object sprites, a PNG image for cell flags and free-size sprites, a JSON document
/// for the rest.
pub open spec fn output_suffix(kind: BinaryAssetKind) -> Seq<char> {
    match kind {
        BinaryAssetKind::Texture | BinaryAssetKind::MapObjectSprite => Seq::empty(),
        BinaryAssetKind::CellFlag | BinaryAssetKind::FreeSizeSprite => seq!['.', 'p', 'n', 'g'],
        _ => seq!['.', 'j', 's', 'o', 'n'],
    }
}

/// The path, relative to the output directory, that a converted payload is written to.
pub fn converted_relative_path(kind: BinaryAssetKind, stable_file_name: &str) -> (r: Result<String, OutputStemError>)
    ensures
        match output_stem(stable_file_name@) {
            Ok(s) => r matches Ok(x) && x@ == s + output_suffix(kind),
            Err(e) => r == Err::<String, OutputStemError>(e),
        },
{
    let stem = match stable_output_stem(stable_file_name) {
        Ok(s) => s,
        Err(e) => {
            return Err(e);
        },
    };
    let mut cs = str_chars(stem.as_str());
    let ghost head = cs@;
    match kind {
        BinaryAssetKind::Texture | BinaryAssetKind::MapObjectSprite => {},
        BinaryAssetKind::CellFlag | BinaryAssetKind::FreeSizeSprite => {
            cs.push('.');
            cs.push('p');
            cs.push('n');
            cs.push('g');
        },
        _ => {
            cs.push('.');
            cs.push('j');
            cs.push('s');
            cs.push('o');
            cs.push('n');
        },
    }
    assert(cs@ =~= head + output_suffix(kind));
    Ok(chars_to_string(cs.as_slice()))
}

} // verus!
