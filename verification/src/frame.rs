//! The frame codec: a self-describing container of header, length-prefixed
//! blocks, an end marker and optional checksums, modeled byte for byte.

use vstd::prelude::*;
use vstd::arithmetic::div_mod::lemma_mod_multiples_vanish;
use vstd::slice::{slice_subrange, slice_to_vec};

use crate::config::{
    block_size_class_from_code, class_code, class_code_of, class_of_code, effective_block_checksums,
    effective_bound, effective_bound_of, effective_content_checksum, effective_content_size,
    effective_linked, legacy_config, BlockMode, BlockSizeClass, FrameConfig,
};
use crate::engine::{
    dict_view, lz4_block_of, lz4_compress_chunk, lz4_expand_chunk, lz4_expansion_of, xxh32,
    xxh32_of,
};
use crate::errors::{DecodeError, EncodeError};
use crate::wire::{
    le32_bytes, le32_value, le64_bytes, le64_value, push_le32, push_le64, read_le32, read_le64,
};

verus! {

/// The little-endian magic of a modern frame.
pub open spec fn magic_modern() -> Seq<u8> {
    seq![0x04u8, 0x22u8, 0x4Du8, 0x18u8]
}

/// The little-endian magic of a legacy frame.
pub open spec fn magic_legacy() -> Seq<u8> {
    seq![0x02u8, 0x21u8, 0x4Cu8, 0x18u8]
}

/// The flags byte of a modern header: version 1 in the two top bits, then the
/// block-independence, block-checksum, content-size and content-checksum
/// bits; the reserved and dictionary-id bits stay zero.
pub open spec fn flags_byte(cfg: FrameConfig) -> u8 {
    (64 + (if cfg.block_mode is Linked {
        0int
    } else {
        32int
    }) + (if cfg.block_checksums {
        16int
    } else {
        0int
    }) + (if cfg.content_size is Some {
        8int
    } else {
        0int
    }) + (if cfg.content_checksum {
        4int
    } else {
        0int
    })) as u8
}

/// The block-descriptor byte: the resolved size class code in bits 6-4.
pub open spec fn bd_byte(cfg: FrameConfig) -> u8 {
    (class_code(cfg.block_size_class) * 16) as u8
}

/// The descriptor of a modern header — flags byte, block-descriptor byte and
/// the optional declared content size: the bytes the header checksum covers.
pub open spec fn descriptor_bytes(cfg: FrameConfig) -> Seq<u8> {
    seq![flags_byte(cfg), bd_byte(cfg)] + (match cfg.content_size {
        Option::Some(n) => le64_bytes(n),
        Option::None => Seq::empty(),
    })
}

/// The header checksum: the second-lowest byte of the xxHash32 digest of the
/// descriptor bytes.
pub open spec fn header_checksum_byte(desc: Seq<u8>) -> u8 {
    ((xxh32_of(desc) / 256) % 256) as u8
}

/// The full header: the magic alone for legacy frames; magic, descriptor and
/// checksum byte for modern ones.
pub open spec fn header_bytes(cfg: FrameConfig) -> Seq<u8> {
    if cfg.legacy_frame {
        magic_legacy()
    } else {
        magic_modern() + descriptor_bytes(cfg) + seq![header_checksum_byte(descriptor_bytes(cfg))]
    }
}

/// The last 64 KiB of `s`: the window of preceding plain bytes that a linked
/// block may reference.
pub open spec fn tail_window(s: Seq<u8>) -> Seq<u8> {
    if s.len() <= 65536 {
        s
    } else {
        s.skip(s.len() - 65536)
    }
}

/// The dictionary a block is coded against, given the plain bytes decoded
/// before it: the tail window when blocks are linked, nothing otherwise.
pub open spec fn link_dict(cfg: FrameConfig, prior: Seq<u8>) -> Seq<u8> {
    if effective_linked(cfg) {
        tail_window(prior)
    } else {
        Seq::empty()
    }
}

/// Whether a chunk is stored raw: only when the match engine does not shrink
/// it. (The engine never returns an empty encoding; the lower guard keeps the
/// model total.)
pub open spec fn chunk_stored_raw(dict: Seq<u8>, chunk: Seq<u8>) -> bool {
    !(0 < lz4_block_of(dict, chunk).len() < chunk.len())
}

/// The stored payload of a chunk: its LZ4 encoding when that is smaller, else
/// the chunk itself.
pub open spec fn chunk_payload(dict: Seq<u8>, chunk: Seq<u8>) -> Seq<u8> {
    if chunk_stored_raw(dict, chunk) {
        chunk
    } else {
        lz4_block_of(dict, chunk)
    }
}

/// A block's size field: the payload length, with the top bit marking a raw
/// payload.
pub open spec fn size_field_value(raw: bool, plen: int) -> u32 {
    if raw {
        (0x80000000 + plen) as u32
    } else {
        plen as u32
    }
}

/// One encoded block: size field, payload, and the payload's checksum when
/// `bc` says the frame carries block checksums.
pub open spec fn block_bytes(bc: bool, dict: Seq<u8>, chunk: Seq<u8>) -> Seq<u8> {
    le32_bytes(size_field_value(chunk_stored_raw(dict, chunk), chunk_payload(dict, chunk).len() as int))
        + chunk_payload(dict, chunk) + (if bc {
        le32_bytes(xxh32_of(chunk_payload(dict, chunk)))
    } else {
        Seq::empty()
    })
}

/// Where the chunk that starts at `pos` ends: one block bound later, or at
/// the end of the data.
pub open spec fn chunk_end(cfg: FrameConfig, data: Seq<u8>, pos: int) -> int {
    if data.len() - pos > effective_bound(cfg) {
        pos + effective_bound(cfg)
    } else {
        data.len() as int
    }
}

/// The chunk of plain bytes that the block starting at `pos` stores.
pub open spec fn chunk_at(cfg: FrameConfig, data: Seq<u8>, pos: int) -> Seq<u8> {
    data.subrange(pos, chunk_end(cfg, data, pos))
}

/// The encoded blocks of `data` from `pos` on.
pub open spec fn blocks_bytes(cfg: FrameConfig, data: Seq<u8>, pos: int) -> Seq<u8>
    decreases data.len() - pos,
{
    if pos < 0 || pos >= data.len() {
        Seq::empty()
    } else {
        block_bytes(
            effective_block_checksums(cfg),
            link_dict(cfg, data.take(pos)),
            chunk_at(cfg, data, pos),
        ) + blocks_bytes(cfg, data, chunk_end(cfg, data, pos))
    }
}

/// The trailing content checksum, when the frame carries one.
pub open spec fn content_checksum_bytes(cfg: FrameConfig, data: Seq<u8>) -> Seq<u8> {
    if effective_content_checksum(cfg) {
        le32_bytes(xxh32_of(data))
    } else {
        Seq::empty()
    }
}

/// The whole frame `data` is encoded to under `cfg`.
pub open spec fn frame_bytes(cfg: FrameConfig, data: Seq<u8>) -> Seq<u8> {
    header_bytes(cfg) + blocks_bytes(cfg, data, 0) + le32_bytes(0) + content_checksum_bytes(
        cfg,
        data,
    )
}

/// The engine fact one block rests on: expanding the chunk's LZ4 encoding
/// under its dictionary yields the chunk back.
pub open spec fn chunk_inverts(cfg: FrameConfig, data: Seq<u8>, pos: int) -> bool {
    lz4_expansion_of(
        link_dict(cfg, data.take(pos)),
        lz4_block_of(link_dict(cfg, data.take(pos)), chunk_at(cfg, data, pos)),
    ) == Some(chunk_at(cfg, data, pos))
}

/// The configuration the flat knobs of `frame_compress` select.
pub open spec fn knobs_config(
    content_size: Option<u64>,
    block_size_class: u8,
    blocks_linked: bool,
    block_checksums: bool,
    content_checksum: bool,
    legacy_frame: bool,
) -> FrameConfig {
    FrameConfig {
        content_size,
        block_size_class: class_of_code(block_size_class),
        block_mode: if blocks_linked {
            BlockMode::Linked
        } else {
            BlockMode::Independent
        },
        block_checksums,
        content_checksum,
        legacy_frame,
    }
}

/// Two block starts within one stride of each other coincide.
proof fn lemma_chunk_start_unique(b: int, pos: int, p: int)
    requires
        b > 0,
        pos % b == 0,
        p % b == 0,
        pos <= p < pos + b,
    ensures
        p == pos,
{
    vstd::arithmetic::div_mod::lemma_sub_mod_noop(p, pos, b);
    assert(((p % b) - (pos % b)) % b == (p - pos) % b);
    assert((p - pos) % b == 0) by {
        vstd::arithmetic::div_mod::lemma_mod_self_0(b);
        vstd::arithmetic::div_mod::lemma_small_mod(0nat, b as nat);
    }
    vstd::arithmetic::div_mod::lemma_small_mod((p - pos) as nat, b as nat);
    assert((p - pos) as nat % (b as nat) == (p - pos) as nat);
}

/// Emits one block for `chunk` against `dict`: size field, the smaller of
/// the chunk and its LZ4 encoding, and the payload checksum when `bc_on`.
fn write_block(out: &mut Vec<u8>, chunk: &[u8], dict: Option<&[u8]>, bc_on: bool)
    requires
        dict_view(dict).len() <= 65536,
        chunk@.len() <= 0x7fffffff,
    ensures
        final(out)@ == old(out)@ + block_bytes(bc_on, dict_view(dict), chunk@),
        lz4_expansion_of(dict_view(dict), lz4_block_of(dict_view(dict), chunk@)) == Some(chunk@),
{
    let ghost old_out = out@;
    let ghost dictv = dict_view(dict);
    let comp = lz4_compress_chunk(chunk, dict);
    let use_comp = comp.len() < chunk.len();
    proof {
        assert(chunk_stored_raw(dictv, chunk@) == !use_comp);
    }
    if use_comp {
        push_le32(out, comp.len() as u32);
        let cs = if bc_on {
            xxh32(comp.as_slice())
        } else {
            0
        };
        let mut pv = comp;
        out.append(&mut pv);
        if bc_on {
            push_le32(out, cs);
        }
        proof {
            assert(out@ =~= old_out + block_bytes(bc_on, dictv, chunk@));
        }
    } else {
        push_le32(out, 0x80000000u32 + chunk.len() as u32);
        let cs = if bc_on {
            xxh32(chunk)
        } else {
            0
        };
        let mut pv = slice_to_vec(chunk);
        out.append(&mut pv);
        if bc_on {
            push_le32(out, cs);
        }
        proof {
            assert(out@ =~= old_out + block_bytes(bc_on, dictv, chunk@));
        }
    }
}

fn flags_byte_of(cfg: &FrameConfig) -> (f: u8)
    ensures
        f == flags_byte(*cfg),
{
    let mut f: u8 = 64;
    match cfg.block_mode {
        BlockMode::Linked => {},
        BlockMode::Independent => {
            f = f + 32;
        },
    }
    if cfg.block_checksums {
        f = f + 16;
    }
    if cfg.content_size.is_some() {
        f = f + 8;
    }
    if cfg.content_checksum {
        f = f + 4;
    }
    f
}

/// Encodes `data` as one LZ4 frame under the given configuration knobs;
/// block size codes 4 to 8 select the fixed bounds, every other code picks
/// the automatic default. Encoding never fails, and the result is byte for
/// byte the modeled frame of `data`.
pub fn frame_compress(
    data: &[u8],
    content_size: Option<u64>,
    block_size_class: u8,
    blocks_linked: bool,
    block_checksums: bool,
    content_checksum: bool,
    legacy_frame: bool,
) -> (r: Result<Vec<u8>, EncodeError>)
    ensures
        r matches Ok(v) && v@ == frame_bytes(
            knobs_config(
                content_size,
                block_size_class,
                blocks_linked,
                block_checksums,
                content_checksum,
                legacy_frame,
            ),
            data@,
        ),
        r matches Ok(v) && frame_decode_spec(v@) == (if content_size is Some && !legacy_frame
            && content_size.unwrap() != data@.len() {
            Err::<Seq<u8>, DecodeError>(DecodeError::SizeMismatch)
        } else {
            Ok::<Seq<u8>, DecodeError>(data@)
        }),
        r matches Ok(v) && forall|k: int|
            0 < k < v@.len() ==> #[trigger] frame_decode_spec(v@.take(k)) == Err::<
                Seq<u8>,
                DecodeError,
            >(DecodeError::Truncated),
{
    let cfg = FrameConfig {
        content_size,
        block_size_class: block_size_class_from_code(block_size_class),
        block_mode: if blocks_linked {
            BlockMode::Linked
        } else {
            BlockMode::Independent
        },
        block_checksums,
        content_checksum,
        legacy_frame,
    };
    let ghost gcfg = cfg;
    let mut out: Vec<u8> = Vec::new();
    if cfg.legacy_frame {
        out.push(0x02);
        out.push(0x21);
        out.push(0x4C);
        out.push(0x18);
        proof {
            assert(out@ =~= header_bytes(gcfg));
        }
    } else {
        out.push(0x04);
        out.push(0x22);
        out.push(0x4D);
        out.push(0x18);
        let flg = flags_byte_of(&cfg);
        out.push(flg);
        let code = class_code_of(&cfg.block_size_class);
        out.push(code * 16);
        match cfg.content_size {
            Option::Some(n) => push_le64(&mut out, n),
            Option::None => {},
        }
        let desc = slice_subrange(out.as_slice(), 4, out.len());
        proof {
            assert(desc@ =~= descriptor_bytes(gcfg));
        }
        let h = xxh32(desc);
        out.push(((h / 256) % 256) as u8);
        proof {
            assert(out@ =~= header_bytes(gcfg));
        }
    }
    let bound = effective_bound_of(&cfg);
    let linked = !cfg.legacy_frame && matches!(cfg.block_mode, BlockMode::Linked);
    let bc_on = !cfg.legacy_frame && cfg.block_checksums;
    let mut pos: usize = 0;
    while pos < data.len()
        invariant
            pos <= data@.len(),
            pos as int % effective_bound(gcfg) == 0 || pos as int == data@.len(),
            bound as int == effective_bound(gcfg),
            linked == effective_linked(gcfg),
            bc_on == effective_block_checksums(gcfg),
            out@ + blocks_bytes(gcfg, data@, pos as int) == header_bytes(gcfg) + blocks_bytes(
                gcfg,
                data@,
                0,
            ),
            forall|p: int|
                0 <= p < pos && p % effective_bound(gcfg) == 0 ==> #[trigger] chunk_inverts(
                    gcfg,
                    data@,
                    p,
                ),
        decreases data@.len() - pos,
    {
        let end = if data.len() - pos > bound {
            pos + bound
        } else {
            data.len()
        };
        let chunk = slice_subrange(data, pos, end);
        let dict: Option<&[u8]> = if linked {
            let start = if pos > 65536 {
                pos - 65536
            } else {
                0
            };
            Some(slice_subrange(data, start, pos))
        } else {
            None
        };
        proof {
            assert(end as int == chunk_end(gcfg, data@, pos as int));
            assert(chunk@ =~= chunk_at(gcfg, data@, pos as int));
            assert(dict_view(dict) =~= link_dict(gcfg, data@.take(pos as int)));
        }
        let ghost old_out = out@;
        write_block(&mut out, chunk, dict, bc_on);
        proof {
            let b = effective_bound(gcfg);
            let bb = block_bytes(
                effective_block_checksums(gcfg),
                link_dict(gcfg, data@.take(pos as int)),
                chunk_at(gcfg, data@, pos as int),
            );
            assert(out@ == old_out + bb);
            assert(blocks_bytes(gcfg, data@, pos as int) == bb + blocks_bytes(
                gcfg,
                data@,
                end as int,
            ));
            assert(out@ + blocks_bytes(gcfg, data@, end as int) =~= old_out + blocks_bytes(
                gcfg,
                data@,
                pos as int,
            ));
            if (end as int) < data@.len() {
                lemma_mod_multiples_vanish(1, pos as int, b);
                assert(end as int % b == 0);
            }
            assert(chunk_inverts(gcfg, data@, pos as int));
            assert forall|p: int| 0 <= p < end && p % b == 0 implies #[trigger] chunk_inverts(
                gcfg,
                data@,
                p,
            ) by {
                if p >= pos {
                    lemma_chunk_start_unique(b, pos as int, p);
                }
            }
        }
        pos = end;
    }
    proof {
        assert(out@ =~= header_bytes(gcfg) + blocks_bytes(gcfg, data@, 0));
    }
    push_le32(&mut out, 0);
    if !cfg.legacy_frame && cfg.content_checksum {
        let ch = xxh32(data);
        push_le32(&mut out, ch);
    }
    proof {
        assert(out@ =~= frame_bytes(gcfg, data@));
        crate::frame_laws::lemma_frame_roundtrip(gcfg, data@);
        assert(effective_content_size(gcfg) == (if legacy_frame {
            None::<u64>
        } else {
            content_size
        }));
        assert forall|k: int| 0 < k < out@.len() implies #[trigger] frame_decode_spec(out@.take(k))
            == Err::<Seq<u8>, DecodeError>(DecodeError::Truncated) by {
            crate::frame_laws::lemma_frame_truncated(gcfg, data@, k);
        }
    }
    Ok(out)
}


/// What parsing a frame header yields: the implied configuration and the
/// header's length. The magic is checked first, then the header checksum,
/// then the version, reserved, dictionary-id and block-size fields.
pub open spec fn parse_header_spec(s: Seq<u8>) -> Result<(FrameConfig, int), DecodeError> {
    if s.len() < 4 {
        Err(DecodeError::Truncated)
    } else if s.subrange(0, 4) == magic_legacy() {
        Ok((legacy_config(), 4))
    } else if s.subrange(0, 4) != magic_modern() {
        Err(DecodeError::Format)
    } else if s.len() < 7 {
        Err(DecodeError::Truncated)
    } else {
        let flg = s[4];
        let hlen: int = if (flg / 8) % 2 == 1 {
            15
        } else {
            7
        };
        if s.len() < hlen {
            Err(DecodeError::Truncated)
        } else if s[hlen - 1] != header_checksum_byte(s.subrange(4, hlen - 1)) {
            Err(DecodeError::ChecksumMismatch)
        } else if flg / 64 != 1 {
            Err(DecodeError::Format)
        } else if (flg / 2) % 2 == 1 {
            Err(DecodeError::Format)
        } else if flg % 2 == 1 {
            Err(DecodeError::Format)
        } else if s[5] % 16 != 0 || s[5] / 16 < 4 || s[5] / 16 > 8 {
            Err(DecodeError::Format)
        } else {
            Ok(
                (
                    FrameConfig {
                        content_size: if (flg / 8) % 2 == 1 {
                            Some(le64_value(s.subrange(6, 14)))
                        } else {
                            None
                        },
                        block_size_class: class_of_code(s[5] / 16),
                        block_mode: if (flg / 32) % 2 == 1 {
                            BlockMode::Independent
                        } else {
                            BlockMode::Linked
                        },
                        block_checksums: (flg / 16) % 2 == 1,
                        content_checksum: (flg / 4) % 2 == 1,
                        legacy_frame: false,
                    },
                    hlen,
                ),
            )
        }
    }
}

/// What decoding the block sequence of `s` from `pos` on yields, having
/// decoded `acc` already: the decoded bytes and the position after the end
/// marker, or the first error met.
pub open spec fn decode_blocks(s: Seq<u8>, pos: int, cfg: FrameConfig, acc: Seq<u8>) -> Result<
    (Seq<u8>, int),
    DecodeError,
> decreases s.len() - pos {
    if pos < 0 || pos + 4 > s.len() {
        Err(DecodeError::Truncated)
    } else {
        let sf = le32_value(s.subrange(pos, pos + 4));
        if sf == 0 {
            Ok((acc, pos + 4))
        } else {
            let raw = sf >= 0x80000000;
            let plen: int = if raw {
                sf - 0x80000000
            } else {
                sf as int
            };
            if plen > effective_bound(cfg) {
                Err(DecodeError::Format)
            } else if pos + 4 + plen > s.len() {
                Err(DecodeError::Truncated)
            } else {
                let payload = s.subrange(pos + 4, pos + 4 + plen);
                let bcend: int = pos + 4 + plen + if effective_block_checksums(cfg) {
                    4int
                } else {
                    0int
                };
                if bcend > s.len() {
                    Err(DecodeError::Truncated)
                } else if effective_block_checksums(cfg) && le32_value(
                    s.subrange(pos + 4 + plen, bcend),
                ) != xxh32_of(payload) {
                    Err(DecodeError::ChecksumMismatch)
                } else {
                    let content = if raw {
                        Some(payload)
                    } else {
                        lz4_expansion_of(link_dict(cfg, acc), payload)
                    };
                    match content {
                        Option::None => Err(DecodeError::CorruptData),
                        Option::Some(c) => if c.len() > effective_bound(cfg) {
                            Err(DecodeError::CorruptData)
                        } else {
                            decode_blocks(s, bcend, cfg, acc + c)
                        },
                    }
                }
            }
        }
    }
}

/// What decoding a whole frame yields: the plain bytes of a well-formed
/// frame whose checksums hold and whose declared content size (if any)
/// matches, and the fitting error otherwise.
pub open spec fn frame_decode_spec(s: Seq<u8>) -> Result<Seq<u8>, DecodeError> {
    match parse_header_spec(s) {
        Err(e) => Err(e),
        Ok((cfg, hlen)) => match decode_blocks(s, hlen, cfg, Seq::empty()) {
            Err(e) => Err(e),
            Ok((content, p)) => if effective_content_checksum(cfg) && p + 4 > s.len() {
                Err(DecodeError::Truncated)
            } else if effective_content_checksum(cfg) && le32_value(s.subrange(p, p + 4))
                != xxh32_of(content) {
                Err(DecodeError::ChecksumMismatch)
            } else {
                let fin: int = p + if effective_content_checksum(cfg) {
                    4int
                } else {
                    0int
                };
                if cfg.content_size is Some && content.len() != cfg.content_size.unwrap() {
                    Err(DecodeError::SizeMismatch)
                } else if fin != s.len() {
                    Err(DecodeError::Format)
                } else {
                    Ok(content)
                }
            },
        },
    }
}

/// Compares the first four bytes of `s` with the given magic.
fn magic_matches(s: &[u8], b0: u8, b1: u8, b2: u8, b3: u8) -> (m: bool)
    requires
        s@.len() >= 4,
    ensures
        m == (s@.subrange(0, 4) == seq![b0, b1, b2, b3]),
{
    let m = s[0] == b0 && s[1] == b1 && s[2] == b2 && s[3] == b3;
    proof {
        assert(s@.subrange(0, 4)[0] == s@[0]);
        assert(s@.subrange(0, 4)[1] == s@[1]);
        assert(s@.subrange(0, 4)[2] == s@[2]);
        assert(s@.subrange(0, 4)[3] == s@[3]);
        if m {
            assert(s@.subrange(0, 4) =~= seq![b0, b1, b2, b3]);
        }
    }
    m
}

/// Parses and validates a frame header.
fn parse_header_exec(input: &[u8]) -> (r: Result<(FrameConfig, usize), DecodeError>)
    ensures
        match r {
            Ok((cfg, hlen)) => parse_header_spec(input@) == Ok::<(FrameConfig, int), DecodeError>(
                (cfg, hlen as int),
            ) && 4 <= hlen <= input@.len(),
            Err(e) => parse_header_spec(input@) == Err::<(FrameConfig, int), DecodeError>(e),
        },
{
    if input.len() < 4 {
        return Err(DecodeError::Truncated);
    }
    if magic_matches(input, 0x02, 0x21, 0x4C, 0x18) {
        return Ok(
            (
                FrameConfig {
                    content_size: None,
                    block_size_class: BlockSizeClass::Max8MB,
                    block_mode: BlockMode::Independent,
                    block_checksums: false,
                    content_checksum: false,
                    legacy_frame: true,
                },
                4,
            ),
        );
    }
    if !magic_matches(input, 0x04, 0x22, 0x4D, 0x18) {
        return Err(DecodeError::Format);
    }
    if input.len() < 7 {
        return Err(DecodeError::Truncated);
    }
    let flg = input[4];
    let cs_present = (flg / 8) % 2 == 1;
    let hlen: usize = if cs_present {
        15
    } else {
        7
    };
    if input.len() < hlen {
        return Err(DecodeError::Truncated);
    }
    let desc = slice_subrange(input, 4, hlen - 1);
    let h = xxh32(desc);
    if input[hlen - 1] != ((h / 256) % 256) as u8 {
        return Err(DecodeError::ChecksumMismatch);
    }
    if flg / 64 != 1 {
        return Err(DecodeError::Format);
    }
    if (flg / 2) % 2 == 1 {
        return Err(DecodeError::Format);
    }
    if flg % 2 == 1 {
        return Err(DecodeError::Format);
    }
    let bd = input[5];
    if bd % 16 != 0 || bd / 16 < 4 || bd / 16 > 8 {
        return Err(DecodeError::Format);
    }
    let content_size = if cs_present {
        Some(read_le64(input, 6))
    } else {
        None
    };
    Ok(
        (
            FrameConfig {
                content_size,
                block_size_class: block_size_class_from_code(bd / 16),
                block_mode: if (flg / 32) % 2 == 1 {
                    BlockMode::Independent
                } else {
                    BlockMode::Linked
                },
                block_checksums: (flg / 16) % 2 == 1,
                content_checksum: (flg / 4) % 2 == 1,
                legacy_frame: false,
            },
            hlen,
        ),
    )
}

/// Reads blocks from `start` until the end marker, reassembling the plain
/// bytes and checking block checksums as the configuration asks.
fn decode_blocks_exec(input: &[u8], start: usize, cfg: &FrameConfig) -> (r: Result<
    (Vec<u8>, usize),
    DecodeError,
>)
    requires
        start <= input@.len(),
    ensures
        match r {
            Ok(p) => decode_blocks(input@, start as int, *cfg, Seq::empty()) == Ok::<
                (Seq<u8>, int),
                DecodeError,
            >((p.0@, p.1 as int)) && p.1 <= input@.len(),
            Err(e) => decode_blocks(input@, start as int, *cfg, Seq::empty()) == Err::<
                (Seq<u8>, int),
                DecodeError,
            >(e),
        },
{
    let bound = effective_bound_of(cfg);
    let bc_on = !cfg.legacy_frame && cfg.block_checksums;
    let linked = !cfg.legacy_frame && matches!(cfg.block_mode, BlockMode::Linked);
    let mut pos: usize = start;
    let mut acc: Vec<u8> = Vec::new();
    loop
        invariant
            start <= pos <= input@.len(),
            bound as int == effective_bound(*cfg),
            bc_on == effective_block_checksums(*cfg),
            linked == effective_linked(*cfg),
            decode_blocks(input@, pos as int, *cfg, acc@) == decode_blocks(
                input@,
                start as int,
                *cfg,
                Seq::empty(),
            ),
        decreases input@.len() - pos,
    {
        if input.len() - pos < 4 {
            return Err(DecodeError::Truncated);
        }
        let sf = read_le32(input, pos);
        if sf == 0 {
            return Ok((acc, pos + 4));
        }
        let raw = sf >= 0x80000000;
        let plen_u32 = if raw {
            sf - 0x80000000
        } else {
            sf
        };
        let plen = plen_u32 as usize;
        if plen > bound {
            return Err(DecodeError::Format);
        }
        if input.len() - pos - 4 < plen {
            return Err(DecodeError::Truncated);
        }
        let payload = slice_subrange(input, pos + 4, pos + 4 + plen);
        if bc_on {
            if input.len() - (pos + 4 + plen) < 4 {
                return Err(DecodeError::Truncated);
            }
            let bcv = read_le32(input, pos + 4 + plen);
            let ph = xxh32(payload);
            if bcv != ph {
                return Err(DecodeError::ChecksumMismatch);
            }
        }
        let ghost old_acc = acc@;
        if raw {
            let mut pv = slice_to_vec(payload);
            acc.append(&mut pv);
        } else {
            let exp = if linked {
                let start_d = if acc.len() > 65536 {
                    acc.len() - 65536
                } else {
                    0
                };
                let dict = slice_subrange(acc.as_slice(), start_d, acc.len());
                proof {
                    assert(dict@ =~= link_dict(*cfg, acc@));
                }
                lz4_expand_chunk(payload, bound, Some(dict))
            } else {
                lz4_expand_chunk(payload, bound, None)
            };
            match exp {
                Option::None => {
                    return Err(DecodeError::CorruptData);
                },
                Option::Some(mut c) => {
                    acc.append(&mut c);
                },
            }
        }
        let next = pos + 4 + plen + (if bc_on {
            4
        } else {
            0
        });
        proof {
            assert(decode_blocks(input@, next as int, *cfg, acc@) == decode_blocks(
                input@,
                pos as int,
                *cfg,
                old_acc,
            ));
        }
        pos = next;
    }
}

/// The view of a decode result, for stating contracts.
pub open spec fn decode_result_view(r: Result<Vec<u8>, DecodeError>) -> Result<
    Seq<u8>,
    DecodeError,
> {
    match r {
        Ok(v) => Ok(v@),
        Err(e) => Err(e),
    }
}

/// Decodes one complete LZ4 frame: parses and validates the header, reads
/// blocks until the end marker, and checks the trailing checksum, the
/// declared content size and that nothing follows the frame.
pub fn frame_decompress(input: &[u8]) -> (r: Result<Vec<u8>, DecodeError>)
    ensures
        decode_result_view(r) == frame_decode_spec(input@),
{
    let (cfg, hlen) = match parse_header_exec(input) {
        Ok(p) => p,
        Err(e) => {
            return Err(e);
        },
    };
    let (acc, after_blocks) = match decode_blocks_exec(input, hlen, &cfg) {
        Ok(p) => p,
        Err(e) => {
            return Err(e);
        },
    };
    let cc_on = !cfg.legacy_frame && cfg.content_checksum;
    let mut fin = after_blocks;
    if cc_on {
        if input.len() - after_blocks < 4 {
            return Err(DecodeError::Truncated);
        }
        let ccv = read_le32(input, after_blocks);
        let ah = xxh32(acc.as_slice());
        if ccv != ah {
            return Err(DecodeError::ChecksumMismatch);
        }
        fin = after_blocks + 4;
    }
    match cfg.content_size {
        Option::Some(n) => {
            if acc.len() as u64 != n {
                return Err(DecodeError::SizeMismatch);
            }
        },
        Option::None => {},
    }
    if fin != input.len() {
        return Err(DecodeError::Format);
    }
    Ok(acc)
}

} // verus!
