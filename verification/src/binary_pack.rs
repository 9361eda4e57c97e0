//! Packing a directory of unpacked payload files into binary archive chunks: the
//! settings a pack resolves from its arguments and family, how payloads are routed
//! to chunks, and the bytes of each chunk.
use vstd::prelude::*;

use crate::binary::{
    write_binary_nos_archive_bytes, write_entries_view, write_problem, written_archive,
    BinaryCompression, BinaryNosArchiveError, BinaryNosArchiveWriteEntry,
    BinaryNosArchiveWriteOptions,
};
use crate::binary_payloads::{
    is_pack_order, order_binary_payload_entries, parse_binary_payload_filename, parse_payload_name,
    payload_claims, payload_entry_view, payload_keys, first_problem, BinaryPayloadError,
    BinaryPayloadInput,
};
use crate::binary_preset::{
    auto_stem, auto_word, chunk_file_name, format_chunk_pattern, header_hex_result,
    header_hex_sliceable, output_pattern, output_pattern_spec, parse_header_hex,
    resolve_binary_preset, resolve_zlib_level, resolved_preset, zlib_level_result, BinaryPreset,
    BinaryPresetError, ChunkingArg,
};
use crate::bytes::bytes_to_vec;
use crate::chartext::eq_ignore_ascii_case;
use crate::paths::chunk_suffix_slice_ok;

verus! {

/// How a pack's compression is chosen on the command line.
#[derive(Debug, Clone, Copy, PartialEq, Eq, Structural)]
pub enum CompressionArg {
    /// The family's default.
    Auto,
    Raw,
    Zlib,
}

/// Why a directory of payloads does not pack.
#[derive(Debug, Clone, PartialEq, Eq)]
pub enum BinaryPackError {
    /// No file name carries a numeric payload id.
    NoPayloads,
    /// A setting does not resolve.
    Setting(BinaryPresetError),
    /// Neither `--header-hex` nor a family gives the header.
    MissingHeader,
    /// Neither `--compression` nor a family gives the compression.
    MissingCompression,
    /// The chunk count is zero.
    ZeroChunkCount,
    /// A payload's low id byte names a chunk past the chunk count.
    ChunkOutOfRange { file_id: i32, chunk: usize, chunk_count: usize },
    /// A chunk's payloads do not order into a table.
    Order(BinaryPayloadError),
    /// A chunk does not write.
    Write(BinaryNosArchiveError),
}

/// The settings a pack resolves.
pub struct PackSettings {
    pub header: Seq<u8>,
    pub direct_index: u8,
    pub compression: BinaryCompression,
    pub zlib_level: u32,
    pub chunking: ChunkingArg,
    pub chunk_count: usize,
    pub pattern: Seq<char>,
}

/// The settings of a pack: the header from `--header-hex` or the family; the compression
/// from the argument or the family; the zlib level; the chunking, chunk count and
/// direct index from the arguments, else the family, else single, 1 and 0; and the
/// output pattern. The first setting that does not resolve is reported.
pub open spec fn pack_settings(
    out: Seq<char>,
    preset_arg: Seq<char>,
    header_hex: Option<Seq<char>>,
    direct_index: Option<u8>,
    compression_arg: CompressionArg,
    zlib_level_arg: Seq<char>,
    chunking_arg: Option<ChunkingArg>,
    chunk_count_arg: Option<usize>,
    chunk_format: Option<Seq<char>>,
) -> Result<PackSettings, BinaryPackError> {
    let preset = resolved_preset(out, preset_arg);
    let header: Result<Seq<u8>, BinaryPackError> = match header_hex {
        Some(h) => match header_hex_result(h) {
            Ok(b) => Ok(b),
            Err(e) => Err(BinaryPackError::Setting(e)),
        },
        None => match preset {
            Some(p) => Ok(p.header@),
            None => Err(BinaryPackError::MissingHeader),
        },
    };
    let compression: Option<BinaryCompression> = match compression_arg {
        CompressionArg::Raw => Some(BinaryCompression::Raw),
        CompressionArg::Zlib => Some(BinaryCompression::Zlib),
        CompressionArg::Auto => match preset {
            Some(p) => Some(p.compression),
            None => None,
        },
    };
    match header {
        Err(e) => Err(e),
        Ok(h) => match compression {
            None => Err(BinaryPackError::MissingCompression),
            Some(c) => match zlib_level_result(zlib_level_arg, c, preset) {
                Err(e) => Err(BinaryPackError::Setting(e)),
                Ok(level) => {
                    let chunking = match chunking_arg {
                        Some(a) => a,
                        None => match preset {
                            Some(p) => p.chunking,
                            None => ChunkingArg::Single,
                        },
                    };
                    let count = match chunk_count_arg {
                        Some(n) => n,
                        None => match preset {
                            Some(p) => p.chunk_count,
                            None => 1,
                        },
                    };
                    let di = match direct_index {
                        Some(d) => d,
                        None => match preset {
                            Some(p) => p.direct_index,
                            None => 0,
                        },
                    };
                    if count == 0 {
                        Err(BinaryPackError::ZeroChunkCount)
                    } else {
                        match output_pattern_spec(out, chunk_format, preset, count) {
                            None => Err(BinaryPackError::Setting(BinaryPresetError::MissingChunkPattern)),
                            Some(pattern) => Ok(
                                PackSettings {
                                    header: h,
                                    direct_index: di,
                                    compression: c,
                                    zlib_level: level,
                                    chunking,
                                    chunk_count: count,
                                    pattern,
                                },
                            ),
                        }
                    }
                },
            },
        },
    }
}

/// The payload input made of a file, when its name carries a numeric payload id.
pub open spec fn input_from_file(e: BinaryPayloadInput, name: Seq<char>, data: Seq<u8>) -> bool {
    parse_payload_name(name) matches Some(m) && e.file_id == m.file_id && e.duplicate_ordinal
        == m.duplicate_ordinal && e.explicit_index == m.explicit_index && e.compression
        == m.compression && e.source_name@ == name && e.data@ == data
}

/// The positions of the files whose names carry a numeric payload id, in order.
pub open spec fn numeric_files(files: Seq<(String, Vec<u8>)>) -> Seq<int>
    decreases files.len(),
{
    if files.len() == 0 {
        Seq::empty()
    } else {
        let before = numeric_files(files.drop_last());
        if parse_payload_name(files.last().0@) is Some {
            before.push(files.len() - 1)
        } else {
            before
        }
    }
}

/// Whether `inputs` are the payloads made of the files whose names carry a numeric
/// payload id, in order.
pub open spec fn inputs_from_files(inputs: Seq<BinaryPayloadInput>, files: Seq<(String, Vec<u8>)>) -> bool {
    let n = numeric_files(files);
    &&& inputs.len() == n.len()
    &&& forall|k: int| 0 <= k < n.len() ==> input_from_file(#[trigger] inputs[k], files[n[k]].0@, files[n[k]].1@)
}

/// The chunk a payload's id routes to: its low byte.
pub open spec fn low_byte_chunk(file_id: i32) -> usize {
    ((file_id as u32) & 0xff) as usize
}

/// The payloads of `inputs` that route to `chunk`, in order.
pub open spec fn routed(inputs: Seq<BinaryPayloadInput>, chunk: usize) -> Seq<BinaryPayloadInput>
    decreases inputs.len(),
{
    if inputs.len() == 0 {
        Seq::empty()
    } else {
        let before = routed(inputs.drop_last(), chunk);
        if low_byte_chunk(inputs.last().file_id) == chunk {
            before.push(inputs.last())
        } else {
            before
        }
    }
}

/// The first payload whose chunk is past the chunk count.
pub open spec fn first_out_of_range(inputs: Seq<BinaryPayloadInput>, count: usize, k: int) -> Option<int>
    decreases inputs.len() - k,
{
    if k < 0 || k >= inputs.len() {
        None
    } else if low_byte_chunk(inputs[k].file_id) >= count {
        Some(k)
    } else {
        first_out_of_range(inputs, count, k + 1)
    }
}

/// The payloads of one output chunk.
#[derive(Debug)]
pub struct PackChunkPlan {
    pub chunk: usize,
    pub inputs: Vec<BinaryPayloadInput>,
}

/// A planned pack: its output pattern, write options, chunk count and chunks.
#[derive(Debug)]
pub struct BinaryPackPlan {
    pub pattern: String,
    pub options: BinaryNosArchiveWriteOptions,
    pub chunk_count: usize,
    pub chunks: Vec<PackChunkPlan>,
}

/// Whether two payload lists hold the same payloads, by value of every field.
pub open spec fn same_inputs(a: Seq<BinaryPayloadInput>, b: Seq<BinaryPayloadInput>) -> bool {
    &&& a.len() == b.len()
    &&& forall|i: int| 0 <= i < a.len() ==> same_input(#[trigger] a[i], b[i])
}

/// Whether two payloads agree in every field.
pub open spec fn same_input(a: BinaryPayloadInput, b: BinaryPayloadInput) -> bool {
    &&& a.file_id == b.file_id
    &&& a.duplicate_ordinal == b.duplicate_ordinal
    &&& a.explicit_index == b.explicit_index
    &&& a.compression == b.compression
    &&& a.source_name@ == b.source_name@
    &&& a.data@ == b.data@
}

/// Plans a binary pack: the payload files (file name and bytes, in directory order)
/// whose names carry a numeric payload id, the resolved settings, and the payloads routed
/// to chunks: all to chunk 0 for single chunking, by low id byte to every chunk below
/// the count for low-byte chunking.
pub fn plan_binary_pack(
    files: Vec<(String, Vec<u8>)>,
    out: &str,
    preset_arg: &str,
    header_hex: Option<&str>,
    direct_index: Option<u8>,
    compression_arg: CompressionArg,
    zlib_level_arg: &str,
    chunking_arg: Option<ChunkingArg>,
    chunk_count_arg: Option<usize>,
    chunk_format: Option<&str>,
) -> (r: Result<BinaryPackPlan, BinaryPackError>)
    requires
        eq_ignore_ascii_case(preset_arg@, auto_word()) ==> chunk_suffix_slice_ok(auto_stem(out@)),
        header_hex matches Some(h) ==> header_hex_sliceable(h@),
    ensures
        numeric_files(files@).len() == 0 ==> r == Err::<BinaryPackPlan, BinaryPackError>(BinaryPackError::NoPayloads),
        numeric_files(files@).len() > 0 ==> match pack_settings(
            out@,
            preset_arg@,
            match header_hex { Some(h) => Some(h@), None => None },
            direct_index,
            compression_arg,
            zlib_level_arg@,
            chunking_arg,
            chunk_count_arg,
            match chunk_format { Some(f) => Some(f@), None => None },
        ) {
            Err(e) => r == Err::<BinaryPackPlan, BinaryPackError>(e),
            Ok(s) => (match s.chunking {
                    ChunkingArg::Single => (r matches Ok(p) && p.chunks@.len() == 1 && p.chunks@[0].chunk == 0
                        && inputs_from_files(p.chunks@[0].inputs@, files@) && plan_settings_are(p, s)),
                    ChunkingArg::LowByte => exists|inputs: Seq<BinaryPayloadInput>|
                        #![trigger inputs_from_files(inputs, files@)]
                        inputs_from_files(inputs, files@) && (match first_out_of_range(inputs, s.chunk_count, 0) {
                            Some(k) => r == Err::<BinaryPackPlan, BinaryPackError>(
                                BinaryPackError::ChunkOutOfRange {
                                    file_id: inputs[k].file_id,
                                    chunk: low_byte_chunk(inputs[k].file_id),
                                    chunk_count: s.chunk_count,
                                },
                            ),
                            None => (r matches Ok(p) && p.chunks@.len() == s.chunk_count && plan_settings_are(p, s)
                                && forall|c: int| 0 <= c < s.chunk_count ==> (#[trigger] p.chunks@[c]).chunk == c
                                    && same_inputs(p.chunks@[c].inputs@, routed(inputs, c as usize))),
                        }),
                }),
        },
{
    let mut inputs: Vec<BinaryPayloadInput> = Vec::new();
    let ghost mut n: Seq<int> = Seq::empty();
    let mut files = files;
    let ghost all = files@;
    let total = files.len();
    let mut i: usize = 0;
    assert(all.take(0) =~= Seq::<(String, Vec<u8>)>::empty());
    while i < total
        invariant
            total == all.len(),
            i <= total,
            n == numeric_files(all.take(i as int)),
            inputs@.len() == n.len(),
            forall|k: int| 0 <= k < n.len() ==> 0 <= #[trigger] n[k] < i,
            forall|k: int| 0 <= k < n.len() ==> input_from_file(#[trigger] inputs@[k], all[n[k]].0@, all[n[k]].1@),
            files@.len() == total,
            forall|k: int| i <= k < total ==> #[trigger] files@[k] == all[k],
        decreases total - i,
    {
        assert(all.take(i + 1).drop_last() =~= all.take(i as int));
        let name = files[i].0.as_str();
        match parse_binary_payload_filename(name) {
            Some(meta) => {
                let e = BinaryPayloadInput {
                    file_id: meta.file_id,
                    duplicate_ordinal: meta.duplicate_ordinal,
                    explicit_index: meta.explicit_index,
                    compression: meta.compression,
                    source_name: files[i].0.clone(),
                    data: bytes_to_vec(files[i].1.as_slice()),
                };
                inputs.push(e);
                proof {
                    n = n.push(i as int);
                }
            },
            None => {},
        }
        i = i + 1;
    }
    assert(all.take(total as int) =~= all);
    if inputs.len() == 0 {
        return Err(BinaryPackError::NoPayloads);
    }
    let preset = resolve_binary_preset(out, preset_arg);
    let header: [u8; 16] = match header_hex {
        Some(h) => match parse_header_hex(h) {
            Ok(b) => b,
            Err(e) => {
                return Err(BinaryPackError::Setting(e));
            },
        },
        None => match preset {
            Some(p) => p.header,
            None => {
                return Err(BinaryPackError::MissingHeader);
            },
        },
    };
    let compression = match compression_arg {
        CompressionArg::Raw => BinaryCompression::Raw,
        CompressionArg::Zlib => BinaryCompression::Zlib,
        CompressionArg::Auto => match preset {
            Some(p) => p.compression,
            None => {
                return Err(BinaryPackError::MissingCompression);
            },
        },
    };
    let level = match resolve_zlib_level(zlib_level_arg, compression, preset.as_ref()) {
        Ok(l) => l,
        Err(e) => {
            return Err(BinaryPackError::Setting(e));
        },
    };
    let chunking = match chunking_arg {
        Some(a) => a,
        None => match preset {
            Some(p) => p.chunking,
            None => ChunkingArg::Single,
        },
    };
    let chunk_count = match chunk_count_arg {
        Some(c) => c,
        None => match preset {
            Some(p) => p.chunk_count,
            None => 1,
        },
    };
    if chunk_count == 0 {
        return Err(BinaryPackError::ZeroChunkCount);
    }
    let di = match direct_index {
        Some(d) => d,
        None => match preset {
            Some(p) => p.direct_index,
            None => 0,
        },
    };
    let pattern = match output_pattern(out, chunk_format, preset.as_ref(), chunk_count) {
        Ok(p) => p,
        Err(e) => {
            return Err(BinaryPackError::Setting(e));
        },
    };
    let options = BinaryNosArchiveWriteOptions { header, direct_index: di, compression, zlib_level: level };
    let ghost settings = PackSettings {
        header: header@,
        direct_index: di,
        compression,
        zlib_level: level,
        chunking,
        chunk_count,
        pattern: pattern@,
    };
    match chunking {
        ChunkingArg::Single => {
            let chunks = vec![PackChunkPlan { chunk: 0, inputs }];
            let p = BinaryPackPlan { pattern, options, chunk_count, chunks };
            assert(plan_settings_are(p, settings));
            Ok(p)
        },
        ChunkingArg::LowByte => {
            let ghost ins = inputs@;
            assert(inputs_from_files(ins, all));
            match first_chunk_out_of_range(&inputs, chunk_count) {
                Some(k) => {
                    let chunk = ((inputs[k].file_id as u32) & 0xff) as usize;
                    return Err(BinaryPackError::ChunkOutOfRange { file_id: inputs[k].file_id, chunk, chunk_count });
                },
                None => {},
            }
            let chunks = route_low_byte(inputs, chunk_count);
            let p = BinaryPackPlan { pattern, options, chunk_count, chunks };
            assert(plan_settings_are(p, settings));
            assert(inputs_from_files(ins, all));
            Ok(p)
        },
    }
}

/// Whether a plan holds the given settings.
pub open spec fn plan_settings_are(p: BinaryPackPlan, s: PackSettings) -> bool {
    &&& p.pattern@ == s.pattern
    &&& p.options.header@ == s.header
    &&& p.options.direct_index == s.direct_index
    &&& p.options.compression == s.compression
    &&& p.options.zlib_level == s.zlib_level
    &&& p.chunk_count == s.chunk_count
}

/// The first payload whose chunk is past the chunk count.
fn first_chunk_out_of_range(inputs: &Vec<BinaryPayloadInput>, count: usize) -> (r: Option<usize>)
    ensures
        match first_out_of_range(inputs@, count, 0) {
            Some(k) => 0 <= k < inputs@.len() && r == Some(k as usize),
            None => r is None,
        },
        r matches Some(k) ==> k < inputs@.len(),
{
    let mut k: usize = 0;
    while k < inputs.len()
        invariant
            k <= inputs@.len(),
            first_out_of_range(inputs@, count, 0) == first_out_of_range(inputs@, count, k as int),
        decreases inputs@.len() - k,
    {
        if ((inputs[k].file_id as u32) & 0xff) as usize >= count {
            return Some(k);
        }
        k = k + 1;
    }
    None
}

/// A copy of a payload.
fn copy_input(e: &BinaryPayloadInput) -> (r: BinaryPayloadInput)
    ensures
        same_input(r, *e),
{
    BinaryPayloadInput {
        file_id: e.file_id,
        duplicate_ordinal: e.duplicate_ordinal,
        explicit_index: e.explicit_index,
        compression: e.compression,
        source_name: e.source_name.clone(),
        data: bytes_to_vec(e.data.as_slice()),
    }
}

/// The payloads that route to `chunk`, in order.
fn route_one(inputs: &Vec<BinaryPayloadInput>, chunk: usize) -> (r: Vec<BinaryPayloadInput>)
    ensures
        same_inputs(r@, routed(inputs@, chunk)),
{
    let mut out: Vec<BinaryPayloadInput> = Vec::new();
    let mut i: usize = 0;
    assert(inputs@.take(0) =~= Seq::<BinaryPayloadInput>::empty());
    while i < inputs.len()
        invariant
            i <= inputs@.len(),
            same_inputs(out@, routed(inputs@.take(i as int), chunk)),
        decreases inputs@.len() - i,
    {
        assert(inputs@.take(i + 1).drop_last() =~= inputs@.take(i as int));
        assert(inputs@.take(i + 1).last() == inputs@[i as int]);
        if ((inputs[i].file_id as u32) & 0xff) as usize == chunk {
            let ghost before = out@;
            out.push(copy_input(&inputs[i]));
            assert(same_inputs(out@, routed(inputs@.take(i + 1), chunk))) by {
                let rb = routed(inputs@.take(i as int), chunk);
                assert(routed(inputs@.take(i + 1), chunk) == rb.push(inputs@[i as int]));
                assert forall|x: int| 0 <= x < out@.len() implies same_input(#[trigger] out@[x], routed(inputs@.take(i + 1), chunk)[x]) by {
                    if x < before.len() {
                        assert(out@[x] == before[x]);
                    }
                }
            }
        }
        i = i + 1;
    }
    assert(inputs@.take(i as int) =~= inputs@);
    out
}

/// Routes payloads by low id byte to chunks `0..count`, each keeping input order.
fn route_low_byte(inputs: Vec<BinaryPayloadInput>, count: usize) -> (r: Vec<PackChunkPlan>)
    ensures
        r@.len() == count,
        forall|c: int| 0 <= c < count ==> (#[trigger] r@[c]).chunk == c && same_inputs(r@[c].inputs@, routed(inputs@, c as usize)),
{
    let mut chunks: Vec<PackChunkPlan> = Vec::new();
    let mut c: usize = 0;
    while c < count
        invariant
            c <= count,
            chunks@.len() == c,
            forall|x: int| 0 <= x < c ==> (#[trigger] chunks@[x]).chunk == x && same_inputs(chunks@[x].inputs@, routed(inputs@, x as usize)),
        decreases count - c,
    {
        let routed_inputs = route_one(&inputs, c);
        chunks.push(PackChunkPlan { chunk: c, inputs: routed_inputs });
        c = c + 1;
    }
    chunks
}

/// One packed chunk: where it goes, its bytes and its number of entries.
#[derive(Debug)]
pub struct PackedChunk {
    pub path: String,
    pub bytes: Vec<u8>,
    pub entry_count: usize,
}

/// The path of chunk `chunk`: the pattern itself when there is one chunk, else the
/// pattern with the chunk number put in.
pub open spec fn chunk_path(pattern: Seq<char>, chunk_count: usize, chunk: usize) -> Seq<char> {
    if chunk_count == 1 {
        pattern
    } else {
        chunk_file_name(pattern, chunk)
    }
}

/// The table of a chunk's payloads in the order `perm` puts them.
pub open spec fn ordered_view(inputs: Seq<BinaryPayloadInput>, perm: Seq<int>) -> Seq<
    crate::binary::BinaryWriteEntryView,
> {
    Seq::new(inputs.len(), |s: int| payload_entry_view(inputs[perm[s]]))
}

/// Whether `e` is the ordering error that the payload at `i` gives.
pub open spec fn order_error_at(inputs: Seq<BinaryPayloadInput>, i: int, e: BinaryPayloadError) -> bool {
    match e {
        BinaryPayloadError::ExplicitIndexOutOfRange { source_name, index, entry_count } => {
            &&& inputs[i].explicit_index == Some(index)
            &&& index >= inputs.len()
            &&& entry_count == inputs.len()
            &&& source_name@ == inputs[i].source_name@
        },
        BinaryPayloadError::DuplicateExplicitIndex { index } => {
            &&& inputs[i].explicit_index == Some(index)
            &&& index < inputs.len()
        },
        _ => false,
    }
}

/// Packs one planned chunk: orders its payloads into a table (explicit indexes first,
/// the rest by id, duplicates by ordinal) and writes the archive bytes.
pub fn build_pack_chunk(
    pattern: &str,
    options: &BinaryNosArchiveWriteOptions,
    chunk_count: usize,
    chunk: PackChunkPlan,
) -> (r: Result<PackedChunk, BinaryPackError>)
    ensures
        ({
            let ins = chunk.inputs@;
            match first_problem(payload_claims(ins), ins.len() as int) {
                Some(i) => r matches Err(BinaryPackError::Order(e)) && order_error_at(ins, i, e),
                None => exists|perm: Seq<int>|
                    #![trigger is_pack_order(payload_keys(ins), payload_claims(ins), perm)]
                    is_pack_order(payload_keys(ins), payload_claims(ins), perm) && match write_problem(
                        ordered_view(ins, perm),
                        options.compression,
                        options.zlib_level,
                    ) {
                        Some(e) => r == Err::<PackedChunk, BinaryPackError>(BinaryPackError::Write(e)),
                        None => r matches Ok(c) && c.path@ == chunk_path(pattern@, chunk_count, chunk.chunk)
                            && c.entry_count == ins.len() && c.bytes@ == written_archive(
                            ordered_view(ins, perm),
                            options.header@,
                            options.direct_index,
                            options.compression,
                            options.zlib_level,
                        ),
                    },
            }
        }),
{
    let ghost ins = chunk.inputs@;
    let count = chunk.inputs.len();
    let entries = match order_binary_payload_entries(chunk.inputs) {
        Ok(es) => es,
        Err(e) => {
            return Err(BinaryPackError::Order(e));
        },
    };
    let ghost perm = choose|perm: Seq<int>|
        is_pack_order(payload_keys(ins), payload_claims(ins), perm) && entries@.len() == ins.len()
            && forall|s: int| 0 <= s < entries@.len() ==> (#[trigger] entries@[s])@ == payload_entry_view(ins[perm[s]]);
    assert(write_entries_view(entries@) =~= ordered_view(ins, perm));
    let bytes = match write_binary_nos_archive_bytes(entries.as_slice(), options) {
        Ok(b) => b,
        Err(e) => {
            return Err(BinaryPackError::Write(e));
        },
    };
    let path = if chunk_count == 1 {
        pattern.to_string()
    } else {
        format_chunk_pattern(pattern, chunk.chunk)
    };
    Ok(PackedChunk { path, bytes, entry_count: count })
}

} // verus!
