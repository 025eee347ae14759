//! The block codec: one LZ4 block behind a four-byte little-endian
//! uncompressed-size prefix.

use vstd::prelude::*;
use vstd::slice::slice_subrange;

use crate::engine::{lz4_block_of, lz4_compress_chunk, lz4_expand_chunk, lz4_expansion_of};
use crate::errors::DecodeError;
use crate::wire::{le32_bytes, le32_value, lemma_le32_roundtrip, read_le32};

verus! {

/// The encoded form of a block: the length of `data` as four little-endian
/// bytes, then the LZ4 block the match engine produces for `data`.
pub open spec fn block_encoding(data: Seq<u8>) -> Seq<u8> {
    le32_bytes(data.len() as u32) + lz4_block_of(Seq::empty(), data)
}

/// What decoding a blob as a size-prefixed block yields: the expansion of the
/// payload when it is well formed and matches the declared size, and the
/// fitting error otherwise.
pub open spec fn block_decoding(s: Seq<u8>) -> Result<Seq<u8>, DecodeError> {
    if s.len() < 4 {
        Err(DecodeError::Truncated)
    } else {
        let n = le32_value(s.subrange(0, 4));
        match lz4_expansion_of(Seq::empty(), s.skip(4)) {
            Option::None => Err(DecodeError::CorruptData),
            Option::Some(v) => if v.len() == n {
                Ok(v)
            } else if v.len() > n {
                Err(DecodeError::CorruptData)
            } else {
                Err(DecodeError::Format)
            },
        }
    }
}

/// Compresses `data` into a size-prefixed LZ4 block. Never fails, and the
/// result decodes back to exactly `data`.
pub fn block_compress(data: &[u8]) -> (r: Vec<u8>)
    requires
        data@.len() <= u32::MAX,
    ensures
        r@ == block_encoding(data@),
        block_decoding(r@) == Ok::<Seq<u8>, DecodeError>(data@),
{
    let mut out: Vec<u8> = Vec::new();
    crate::wire::push_le32(&mut out, data.len() as u32);
    let mut comp = lz4_compress_chunk(data, None);
    proof {
        lemma_le32_roundtrip(data@.len() as u32);
    }
    let ghost pre = out@;
    let ghost c = comp@;
    out.append(&mut comp);
    proof {
        assert(out@ == block_encoding(data@));
        assert(out@.subrange(0, 4) =~= pre);
        assert(out@.skip(4) =~= c);
        assert(out@.len() > 4);
    }
    out
}

/// Decompresses a size-prefixed LZ4 block, allocating exactly the declared
/// size and failing rather than truncating or overrunning it.
pub fn block_decompress(blob: &[u8]) -> (r: Result<Vec<u8>, DecodeError>)
    ensures
        match r {
            Ok(v) => block_decoding(blob@) == Ok::<Seq<u8>, DecodeError>(v@),
            Err(e) => block_decoding(blob@) == Err::<Seq<u8>, DecodeError>(e),
        },
{
    if blob.len() < 4 {
        return Err(DecodeError::Truncated);
    }
    let n = read_le32(blob, 0);
    let n_usize = n as usize;
    let payload = slice_subrange(blob, 4, blob.len());
    match lz4_expand_chunk(payload, n_usize, None) {
        Option::Some(v) => {
            if v.len() == n_usize {
                Ok(v)
            } else {
                // The expansion completed but fell short of the declared size.
                Err(DecodeError::Format)
            }
        },
        Option::None => {
            // Malformed, or the expansion would overrun the declared size.
            Err(DecodeError::CorruptData)
        },
    }
}

} // verus!
