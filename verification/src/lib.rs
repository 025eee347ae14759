//! LZ4 block and frame codecs with verified framing.
//!
//! The block codec pairs a raw LZ4 block with a little-endian size prefix;
//! the frame codec wraps blocks in the self-describing LZ4 frame container
//! with header, optional checksums and an end marker. The framing logic is
//! verified against byte-level models of both formats; the LZ4 match engine
//! and the xxHash32 digest come from outside crates behind trusted wrappers.

mod block;
mod config;
mod engine;
mod errors;
mod frame;
mod frame_laws;
mod wire;

pub use block::{block_compress, block_decoding, block_decompress, block_encoding};
pub use config::{
    block_size_class_from_code, canonical_config, class_bound, class_code, class_of_code,
    effective_block_checksums, effective_bound, effective_content_checksum,
    effective_content_size, effective_linked, legacy_config, BlockMode, BlockSizeClass,
    FrameConfig,
};
pub use engine::{lz4_block_of, lz4_expansion_of, xxh32_of};
pub use errors::{DecodeError, EncodeError};
pub use frame::{
    bd_byte, block_bytes, blocks_bytes, chunk_at, chunk_end, chunk_inverts, chunk_payload,
    chunk_stored_raw, content_checksum_bytes, decode_blocks, decode_result_view, descriptor_bytes,
    flags_byte, frame_bytes, frame_compress, frame_decode_spec, frame_decompress, header_bytes,
    header_checksum_byte, knobs_config, link_dict, magic_legacy, magic_modern, parse_header_spec,
    size_field_value, tail_window,
};
pub use frame_laws::{
    lemma_block_prefix_truncated, lemma_checksum_byte_flip_detected, lemma_descriptor_flip_detected,
    lemma_legacy_frame_shape, lemma_mode_equivalence,
};
pub use wire::{
    le32_bytes, le32_value, le64_bytes, le64_value, lemma_le32_roundtrip, lemma_le64_roundtrip,
};
