//! The LZ4 match engine and the xxHash32 digest, behind trusted wrappers.
//!
//! The framing logic of this crate is verified; the byte-level match search
//! and the checksum algorithm are supplied by outside crates and are only
//! described here, through uninterpreted names for their results.

use vstd::prelude::*;

verus! {

/// The xxHash32 digest of `data` with seed 0, as the reference xxHash
/// algorithm defines it.
pub uninterp spec fn xxh32_of(data: Seq<u8>) -> u32;

/// The LZ4 block encoding that the match engine produces for `data` when the
/// bytes of `dict` are taken to precede it.
pub uninterp spec fn lz4_block_of(dict: Seq<u8>, data: Seq<u8>) -> Seq<u8>;

/// The bytes an LZ4 block `input` expands to when the bytes of `dict` precede
/// the output window, or `None` when `input` is not a well-formed block.
pub uninterp spec fn lz4_expansion_of(dict: Seq<u8>, input: Seq<u8>) -> Option<Seq<u8>>;

/// Relies on `twox_hash::XxHash32::oneshot`: the standard xxHash32 digest of
/// the input bytes with the given seed, a pure function of its arguments.
#[verifier::external_body]
pub(crate) fn xxh32(data: &[u8]) -> (r: u32)
    ensures
        r == xxh32_of(data@),
{
    twox_hash::XxHash32::oneshot(0, data)
}

/// Relies on `lz4_flex::block::compress_with_dict`: an infallible,
/// deterministic LZ4 block encoding of `data` against an external dictionary,
/// always producing at least one byte, which
/// `lz4_flex::block::decompress_with_dict` expands back to `data` under the
/// same dictionary. Dictionaries stay within the 64 KiB window the format
/// allows; the compressor reads no more than that. The match choices, and
/// so the encoded bytes, are fixed for a given build target (the
/// compressor's hash seeding differs across pointer widths and byte
/// orders); every property stated here goes through the round trip, which
/// holds on each alike.
#[verifier::external_body]
pub(crate) fn lz4_compress_chunk(data: &[u8], dict: Option<&[u8]>) -> (r: Vec<u8>)
    requires
        dict_view(dict).len() <= 65536,
    ensures
        r@ == lz4_block_of(dict_view(dict), data@),
        lz4_expansion_of(dict_view(dict), r@) == Some(data@),
        r@.len() >= 1,
{
    match dict {
        Some(d) => lz4_flex::block::compress_with_dict(data, d),
        None => lz4_flex::block::compress_with_dict(data, &[]),
    }
}

/// Relies on `lz4_flex::block::decompress_with_dict` (safe decode): expands
/// an LZ4 block into a buffer of `capacity` bytes against an external
/// dictionary, returning the expansion exactly when `input` is well formed
/// and its expansion fits, and an error otherwise, never panicking. An empty
/// input is always refused.
#[verifier::external_body]
pub(crate) fn lz4_expand_chunk(input: &[u8], capacity: usize, dict: Option<&[u8]>) -> (r:
    Option<Vec<u8>>)
    ensures
        r is Some <==> (lz4_expansion_of(dict_view(dict), input@) is Some
            && lz4_expansion_of(dict_view(dict), input@).unwrap().len() <= capacity),
        r matches Some(v) ==> lz4_expansion_of(dict_view(dict), input@) == Some(v@),
{
    let d: &[u8] = match dict {
        Some(d) => d,
        None => &[],
    };
    lz4_flex::block::decompress_with_dict(input, capacity, d).ok()
}

/// The byte sequence an optional dictionary slice stands for.
pub open spec fn dict_view(dict: Option<&[u8]>) -> Seq<u8> {
    match dict {
        Some(d) => d@,
        None => Seq::empty(),
    }
}

} // verus!
