//! Proofs that tie the two frame models together: a frame built by the
//! encoder's model parses and decodes back to the bytes it was built from.

use vstd::prelude::*;
use vstd::arithmetic::div_mod::lemma_mod_multiples_vanish;

use crate::config::{
    canonical_config, class_code, class_of_code, effective_block_checksums, effective_bound,
    effective_content_checksum, effective_content_size, effective_linked, FrameConfig,
};
use crate::engine::{lz4_block_of, lz4_expansion_of, xxh32_of};
use crate::errors::DecodeError;
use crate::frame::{
    bd_byte, block_bytes, blocks_bytes, chunk_at, chunk_end, chunk_inverts, chunk_payload,
    chunk_stored_raw, content_checksum_bytes, decode_blocks, descriptor_bytes, flags_byte,
    frame_bytes, frame_decode_spec, header_bytes, header_checksum_byte, link_dict, magic_legacy,
    magic_modern, parse_header_spec, size_field_value,
};
use crate::wire::{le32_bytes, le32_value, le64_bytes, le64_value, lemma_le32_roundtrip,
    lemma_le64_roundtrip};

verus! {

/// Splits a window of `s` that holds `a + b` into the two parts.
proof fn lemma_window_parts(s: Seq<u8>, off: int, end: int, a: Seq<u8>, b: Seq<u8>)
    requires
        0 <= off <= end <= s.len(),
        s.subrange(off, end) == a + b,
    ensures
        s.subrange(off, off + a.len()) == a,
        s.subrange(off + a.len(), end) == b,
{
    vstd::seq::axiom_seq_subrange_len(s, off, end);
    vstd::seq::axiom_seq_add_len(a, b);
    assert(end - off == a.len() + b.len());
    assert forall|i: int| 0 <= i < a.len() implies s.subrange(off, off + a.len() as int)[i]
        == a[i] by {
        vstd::seq::axiom_seq_subrange_index(s, off, end, i);
        vstd::seq::axiom_seq_subrange_index(s, off, off + a.len() as int, i);
        assert(s.subrange(off, end)[i] == (a + b)[i]);
    }
    assert(s.subrange(off, off + a.len()) =~= a);
    assert forall|j: int| 0 <= j < b.len() implies s.subrange(off + a.len(), end)[j] == b[j] by {
        vstd::seq::axiom_seq_subrange_index(s, off, end, a.len() + j);
        vstd::seq::axiom_seq_subrange_index(s, off + a.len() as int, end, j);
        assert(s.subrange(off, end)[a.len() + j] == (a + b)[a.len() + j]);
    }
    assert(s.subrange(off + a.len(), end) =~= b);
}

/// The fields the flags byte of a modern header reads back as.
proof fn lemma_flags_fields(cfg: FrameConfig)
    ensures
        flags_byte(cfg) / 64 == 1,
        (flags_byte(cfg) / 32) % 2 == (if cfg.block_mode is Linked {
            0int
        } else {
            1int
        }),
        (flags_byte(cfg) / 16) % 2 == (if cfg.block_checksums {
            1int
        } else {
            0int
        }),
        (flags_byte(cfg) / 8) % 2 == (if cfg.content_size is Some {
            1int
        } else {
            0int
        }),
        (flags_byte(cfg) / 4) % 2 == (if cfg.content_checksum {
            1int
        } else {
            0int
        }),
        (flags_byte(cfg) / 2) % 2 == 0,
        flags_byte(cfg) % 2 == 0,
{
}

/// The fields the block-descriptor byte reads back as.
proof fn lemma_bd_fields(cfg: FrameConfig)
    ensures
        bd_byte(cfg) % 16 == 0,
        4 <= bd_byte(cfg) / 16 <= 8,
        bd_byte(cfg) / 16 == class_code(cfg.block_size_class),
{
}

/// A configuration and its canonical parse agree on everything a decode
/// consults.
proof fn lemma_canonical_effectives(cfg: FrameConfig)
    ensures
        effective_bound(canonical_config(cfg)) == effective_bound(cfg),
        effective_linked(canonical_config(cfg)) == effective_linked(cfg),
        effective_block_checksums(canonical_config(cfg)) == effective_block_checksums(cfg),
        effective_content_checksum(canonical_config(cfg)) == effective_content_checksum(cfg),
        canonical_config(cfg).content_size == effective_content_size(cfg),
{
}

/// Decoding reads a configuration only through what the previous lemma
/// lists, so two configurations that agree there decode alike.
proof fn lemma_decode_blocks_congruent(
    c1: FrameConfig,
    c2: FrameConfig,
    s: Seq<u8>,
    pos: int,
    acc: Seq<u8>,
)
    requires
        effective_bound(c1) == effective_bound(c2),
        effective_linked(c1) == effective_linked(c2),
        effective_block_checksums(c1) == effective_block_checksums(c2),
    ensures
        decode_blocks(s, pos, c1, acc) == decode_blocks(s, pos, c2, acc),
    decreases s.len() - pos,
{
    if pos < 0 || pos + 4 > s.len() {
    } else {
        let sf = le32_value(s.subrange(pos, pos + 4));
        if sf == 0 {
        } else {
            let raw = sf >= 0x80000000;
            let plen: int = if raw {
                sf - 0x80000000
            } else {
                sf as int
            };
            if plen > effective_bound(c1) || pos + 4 + plen > s.len() {
            } else {
                let payload = s.subrange(pos + 4, pos + 4 + plen);
                let bcend: int = pos + 4 + plen + if effective_block_checksums(c1) {
                    4int
                } else {
                    0int
                };
                assert(link_dict(c1, acc) == link_dict(c2, acc));
                if bcend > s.len() {
                } else {
                    let content = if raw {
                        Some(payload)
                    } else {
                        lz4_expansion_of(link_dict(c1, acc), payload)
                    };
                    match content {
                        Option::None => {},
                        Option::Some(c) => {
                            lemma_decode_blocks_congruent(c1, c2, s, bcend, acc + c);
                        },
                    }
                }
            }
        }
    }
}

/// Parsing a modeled header, whatever follows it, yields the canonical
/// configuration and the header's own length.
proof fn lemma_parse_header_of(cfg: FrameConfig, rest: Seq<u8>)
    ensures
        parse_header_spec(header_bytes(cfg) + rest) == Ok::<(FrameConfig, int), DecodeError>(
            (canonical_config(cfg), header_bytes(cfg).len() as int),
        ),
{
    let h = header_bytes(cfg);
    let f = h + rest;
    assert(f.subrange(0, f.len() as int) =~= h + rest);
    lemma_window_parts(f, 0, f.len() as int, h, rest);
    assert(f.subrange(0, h.len() as int) == h);
    assert(f.len() >= h.len());
    if cfg.legacy_frame {
        assert(f.subrange(0, 4) =~= magic_legacy());
    } else {
        let desc = descriptor_bytes(cfg);
        let hlen = h.len() as int;
        assert(h =~= (magic_modern() + desc) + seq![header_checksum_byte(desc)]);
        assert forall|i: int| 0 <= i < hlen implies f[i] == h[i] by {
            assert(f.subrange(0, hlen)[i] == f[i]);
        }
        assert(f.subrange(0, 4) =~= magic_modern());
        assert(magic_legacy()[0] == 0x02u8 && magic_modern()[0] == 0x04u8);
        assert(f.subrange(0, 4) != magic_legacy());
        assert(f[4] == flags_byte(cfg));
        assert(f[5] == bd_byte(cfg));
        lemma_flags_fields(cfg);
        lemma_bd_fields(cfg);
        let flg = f[4];
        let hl: int = if (flg / 8) % 2 == 1 {
            15
        } else {
            7
        };
        assert(desc.len() == 2 + (if cfg.content_size is Some {
            8int
        } else {
            0int
        }));
        assert(hl == hlen);
        assert(f[hlen - 1] == h[hlen - 1]);
        assert(h[hlen - 1] == header_checksum_byte(desc));
        assert forall|i: int| 0 <= i < desc.len() implies f.subrange(4, hlen - 1)[i] == desc[i] by {
            assert(f.subrange(4, hlen - 1)[i] == f[4 + i]);
            assert(h[4 + i] == (magic_modern() + desc)[4 + i]);
        }
        assert(f.subrange(4, hlen - 1) =~= desc);
        match cfg.content_size {
            Option::Some(n) => {
                assert(desc =~= seq![flags_byte(cfg), bd_byte(cfg)] + le64_bytes(n));
                assert forall|i: int| 0 <= i < 8 implies f.subrange(6, 14)[i] == le64_bytes(n)[i] by {
                    assert(f.subrange(6, 14)[i] == f[6 + i]);
                    assert(h[6 + i] == (magic_modern() + desc)[6 + i]);
                    assert(desc[2 + i] == le64_bytes(n)[i]);
                }
                assert(f.subrange(6, 14) =~= le64_bytes(n));
                lemma_le64_roundtrip(n);
                assert(le64_value(f.subrange(6, 14)) == n);
            },
            Option::None => {},
        }
        assert(class_of_code(bd_byte(cfg) / 16 as u8) == canonical_config(cfg).block_size_class);
    }
}

/// Decoding the modeled block bytes of `data` from a chunk start onward,
/// with everything before already decoded, reassembles all of `data` and
/// stops just past the end marker.
#[verifier::rlimit(100)]
proof fn lemma_decode_encoded_blocks(
    cfg: FrameConfig,
    s: Seq<u8>,
    off: int,
    data: Seq<u8>,
    pos: int,
    trail: Seq<u8>,
)
    requires
        0 <= pos <= data.len(),
        pos % effective_bound(cfg) == 0 || pos == data.len(),
        0 <= off <= s.len(),
        s.subrange(off, s.len() as int) == blocks_bytes(cfg, data, pos) + le32_bytes(0) + trail,
        forall|p: int|
            pos <= p < data.len() && p % effective_bound(cfg) == 0 ==> #[trigger] chunk_inverts(
                cfg,
                data,
                p,
            ),
    ensures
        decode_blocks(s, off, cfg, data.take(pos)) == Ok::<(Seq<u8>, int), DecodeError>(
            (data, s.len() - trail.len()),
        ),
    decreases data.len() - pos,
{
    let suffix = blocks_bytes(cfg, data, pos) + le32_bytes(0) + trail;
    assert(s.len() - off == suffix.len());
    if pos >= data.len() {
        assert(blocks_bytes(cfg, data, pos) == Seq::<u8>::empty());
        assert(suffix =~= le32_bytes(0) + trail);
        lemma_window_parts(s, off, s.len() as int, le32_bytes(0), trail);
        lemma_le32_roundtrip(0);
        assert(le32_value(s.subrange(off, off + 4)) == 0);
        assert(data.take(pos) =~= data);
        assert(off + 4 == s.len() - trail.len());
    } else {
        let b = effective_bound(cfg);
        let dict = link_dict(cfg, data.take(pos));
        let ch = chunk_at(cfg, data, pos);
        let end = chunk_end(cfg, data, pos);
        let raw = chunk_stored_raw(dict, ch);
        let payload = chunk_payload(dict, ch);
        let plen = payload.len() as int;
        let bc = effective_block_checksums(cfg);
        let bb = block_bytes(bc, dict, ch);
        let bcopt: Seq<u8> = if bc {
            le32_bytes(xxh32_of(payload))
        } else {
            Seq::empty()
        };
        assert(blocks_bytes(cfg, data, pos) == bb + blocks_bytes(cfg, data, end));
        assert(1 <= ch.len() <= b);
        assert(0 < plen <= b);
        let sfv = size_field_value(raw, plen);
        assert(bb =~= le32_bytes(sfv) + (payload + bcopt));
        let rest2 = blocks_bytes(cfg, data, end) + le32_bytes(0) + trail;
        assert(suffix =~= bb + rest2);
        lemma_window_parts(s, off, s.len() as int, bb, rest2);
        lemma_window_parts(s, off, off + bb.len(), le32_bytes(sfv), payload + bcopt);
        lemma_window_parts(s, off + 4, off + bb.len(), payload, bcopt);
        lemma_le32_roundtrip(sfv);
        assert(le32_value(s.subrange(off, off + 4)) == sfv);
        if raw {
            assert(sfv == 0x80000000 + plen);
            assert(sfv >= 0x80000000 && sfv != 0);
        } else {
            assert(sfv == plen);
            assert(sfv < 0x80000000 && sfv != 0);
        }
        let bcend: int = off + 4 + plen + if bc {
            4int
        } else {
            0int
        };
        assert(bcend == off + bb.len());
        assert(s.subrange(off + 4, off + 4 + plen) == payload);
        if bc {
            assert(bcopt == le32_bytes(xxh32_of(payload)));
            lemma_le32_roundtrip(xxh32_of(payload));
            assert(le32_value(s.subrange(off + 4 + plen, bcend)) == xxh32_of(payload));
        }
        let acc = data.take(pos);
        let content = if raw {
            Some(payload)
        } else {
            lz4_expansion_of(link_dict(cfg, acc), payload)
        };
        if raw {
            assert(content == Some(ch));
        } else {
            assert(chunk_inverts(cfg, data, pos));
            assert(payload == lz4_block_of(dict, ch));
            assert(content == Some(ch));
        }
        assert(ch.len() <= b);
        assert(acc + ch =~= data.take(end));
        if end < data.len() {
            lemma_mod_multiples_vanish(1, pos, b);
            assert(end % b == 0);
        }
        lemma_window_parts(s, off, s.len() as int, bb, rest2);
        assert(s.subrange(off + bb.len(), s.len() as int) == rest2);
        lemma_decode_encoded_blocks(cfg, s, bcend, data, end, trail);
        assert(decode_blocks(s, off, cfg, acc) == decode_blocks(s, bcend, cfg, acc + ch));
    }
}

/// Decoding a modeled frame gives back the very bytes it encodes — or the
/// declared-size error when the header declares some other length — given
/// the engine round-trip fact for each of its chunks.
#[verifier::rlimit(100)]
pub(crate) proof fn lemma_frame_roundtrip(cfg: FrameConfig, data: Seq<u8>)
    requires
        forall|p: int|
            0 <= p < data.len() && p % effective_bound(cfg) == 0 ==> #[trigger] chunk_inverts(
                cfg,
                data,
                p,
            ),
    ensures
        frame_decode_spec(frame_bytes(cfg, data)) == (if effective_content_size(cfg) is Some
            && effective_content_size(cfg).unwrap() != data.len() {
            Err::<Seq<u8>, DecodeError>(DecodeError::SizeMismatch)
        } else {
            Ok::<Seq<u8>, DecodeError>(data)
        }),
{
    let f = frame_bytes(cfg, data);
    let h = header_bytes(cfg);
    let hlen = h.len() as int;
    let c = canonical_config(cfg);
    let trail = content_checksum_bytes(cfg, data);
    let rest = blocks_bytes(cfg, data, 0) + le32_bytes(0) + trail;
    assert(f =~= h + rest);
    lemma_parse_header_of(cfg, rest);
    assert(f.subrange(0, f.len() as int) =~= h + rest);
    lemma_window_parts(f, 0, f.len() as int, h, rest);
    assert(f.subrange(hlen, f.len() as int) == rest);
    assert(data.take(0) =~= Seq::<u8>::empty());
    lemma_decode_encoded_blocks(cfg, f, hlen, data, 0, trail);
    lemma_canonical_effectives(cfg);
    lemma_decode_blocks_congruent(cfg, c, f, hlen, Seq::<u8>::empty());
    let p = f.len() - trail.len();
    assert(decode_blocks(f, hlen, c, Seq::<u8>::empty()) == Ok::<(Seq<u8>, int), DecodeError>(
        (data, p),
    ));
    if effective_content_checksum(cfg) {
        assert(trail == le32_bytes(xxh32_of(data)));
        assert(f.subrange(p, f.len() as int) =~= trail) by {
            assert forall|i: int| 0 <= i < trail.len() implies f.subrange(p, f.len() as int)[i]
                == trail[i] by {
                assert(rest[(p - hlen) + i] == trail[i]);
                assert(f.subrange(hlen, f.len() as int)[(p - hlen) + i] == f[p + i]);
            }
        }
        lemma_le32_roundtrip(xxh32_of(data));
        assert(le32_value(f.subrange(p, p + 4)) == xxh32_of(data));
    } else {
        assert(p == f.len());
    }
}


/// Encoded blocks read a configuration only through the block bound, the
/// linkage mode and the block-checksum flag, so two configurations that
/// agree there encode alike.
proof fn lemma_blocks_bytes_congruent(c1: FrameConfig, c2: FrameConfig, data: Seq<u8>, pos: int)
    requires
        effective_bound(c1) == effective_bound(c2),
        effective_linked(c1) == effective_linked(c2),
        effective_block_checksums(c1) == effective_block_checksums(c2),
    ensures
        blocks_bytes(c1, data, pos) == blocks_bytes(c2, data, pos),
    decreases data.len() - pos,
{
    if pos < 0 || pos >= data.len() {
    } else {
        assert(chunk_end(c1, data, pos) == chunk_end(c2, data, pos));
        assert(link_dict(c1, data.take(pos)) == link_dict(c2, data.take(pos)));
        lemma_blocks_bytes_congruent(c1, c2, data, chunk_end(c1, data, pos));
    }
}

/// A legacy frame begins with the legacy magic and holds nothing but the
/// magic, the blocks and the end marker: no content size, no block
/// checksums and no content checksum appear, whatever the other knobs say.
pub proof fn lemma_legacy_frame_shape(cfg: FrameConfig, data: Seq<u8>)
    requires
        cfg.legacy_frame,
    ensures
        frame_bytes(cfg, data).subrange(0, 4) == seq![0x02u8, 0x21u8, 0x4Cu8, 0x18u8],
        frame_bytes(cfg, data) == magic_legacy() + blocks_bytes(cfg, data, 0) + le32_bytes(0),
        frame_bytes(cfg, data) == frame_bytes(
            FrameConfig {
                content_size: None,
                block_checksums: false,
                content_checksum: false,
                ..cfg
            },
            data,
        ),
{
    let f = frame_bytes(cfg, data);
    assert(header_bytes(cfg) == magic_legacy());
    assert(content_checksum_bytes(cfg, data) =~= Seq::<u8>::empty());
    assert(f =~= magic_legacy() + blocks_bytes(cfg, data, 0) + le32_bytes(0));
    assert(f.subrange(0, 4) =~= magic_legacy());
    let bare = FrameConfig {
        content_size: None,
        block_checksums: false,
        content_checksum: false,
        ..cfg
    };
    lemma_blocks_bytes_congruent(cfg, bare, data, 0);
    assert(frame_bytes(bare, data) =~= magic_legacy() + blocks_bytes(cfg, data, 0) + le32_bytes(
        0,
    ));
}


/// A subrange that lies inside a prefix is a subrange of the whole.
proof fn lemma_take_subrange(s: Seq<u8>, k: int, a: int, b: int)
    requires
        0 <= a <= b <= k <= s.len(),
    ensures
        s.take(k).subrange(a, b) == s.subrange(a, b),
{
    assert forall|i: int| 0 <= i < b - a implies s.take(k).subrange(a, b)[i] == s.subrange(a, b)[
        i
    ] by {
        vstd::seq::axiom_seq_subrange_index(s, a, b, i);
        vstd::seq::axiom_seq_subrange_index(s.take(k), a, b, i);
        vstd::seq::axiom_seq_subrange_index(s, 0, k, a + i);
    }
    assert(s.take(k).subrange(a, b) =~= s.subrange(a, b));
}

/// Cutting the modeled block bytes anywhere before the end of the end
/// marker leaves a decode that reports truncation.
#[verifier::rlimit(100)]
proof fn lemma_decode_truncated_blocks(
    cfg: FrameConfig,
    s: Seq<u8>,
    off: int,
    data: Seq<u8>,
    pos: int,
    trail: Seq<u8>,
    k: int,
)
    requires
        0 <= pos <= data.len(),
        pos % effective_bound(cfg) == 0 || pos == data.len(),
        0 <= off <= s.len(),
        s.subrange(off, s.len() as int) == blocks_bytes(cfg, data, pos) + le32_bytes(0) + trail,
        forall|p: int|
            pos <= p < data.len() && p % effective_bound(cfg) == 0 ==> #[trigger] chunk_inverts(
                cfg,
                data,
                p,
            ),
        0 <= k < s.len() - trail.len(),
    ensures
        decode_blocks(s.take(k), off, cfg, data.take(pos)) == Err::<(Seq<u8>, int), DecodeError>(
            DecodeError::Truncated,
        ),
    decreases data.len() - pos,
{
    let t = s.take(k);
    assert(t.len() == k);
    let suffix = blocks_bytes(cfg, data, pos) + le32_bytes(0) + trail;
    assert(s.len() - off == suffix.len());
    if pos >= data.len() {
        assert(blocks_bytes(cfg, data, pos) == Seq::<u8>::empty());
        assert(s.len() - trail.len() == off + 4);
        assert(off + 4 > k);
    } else {
        let b = effective_bound(cfg);
        let dict = link_dict(cfg, data.take(pos));
        let ch = chunk_at(cfg, data, pos);
        let end = chunk_end(cfg, data, pos);
        let raw = chunk_stored_raw(dict, ch);
        let payload = chunk_payload(dict, ch);
        let plen = payload.len() as int;
        let bc = effective_block_checksums(cfg);
        let bb = block_bytes(bc, dict, ch);
        let bcopt: Seq<u8> = if bc {
            le32_bytes(xxh32_of(payload))
        } else {
            Seq::empty()
        };
        assert(blocks_bytes(cfg, data, pos) == bb + blocks_bytes(cfg, data, end));
        assert(1 <= ch.len() <= b);
        assert(0 < plen <= b);
        let sfv = size_field_value(raw, plen);
        assert(bb =~= le32_bytes(sfv) + (payload + bcopt));
        let rest2 = blocks_bytes(cfg, data, end) + le32_bytes(0) + trail;
        assert(suffix =~= bb + rest2);
        lemma_window_parts(s, off, s.len() as int, bb, rest2);
        lemma_window_parts(s, off, off + bb.len(), le32_bytes(sfv), payload + bcopt);
        lemma_window_parts(s, off + 4, off + bb.len(), payload, bcopt);
        let bcend: int = off + 4 + plen + if bc {
            4int
        } else {
            0int
        };
        assert(bcend == off + bb.len());
        if k < off + 4 {
            assert(off + 4 > t.len());
        } else {
            lemma_take_subrange(s, k, off, off + 4);
            lemma_le32_roundtrip(sfv);
            assert(le32_value(t.subrange(off, off + 4)) == sfv);
            if raw {
                assert(sfv == 0x80000000 + plen);
            } else {
                assert(sfv == plen);
            }
            if k < off + 4 + plen {
                assert(off + 4 + plen > t.len());
            } else if bc && k < bcend {
                assert(bcend > t.len());
            } else {
                lemma_take_subrange(s, k, off + 4, off + 4 + plen);
                assert(t.subrange(off + 4, off + 4 + plen) == payload);
                if bc {
                    lemma_take_subrange(s, k, off + 4 + plen, bcend);
                    lemma_le32_roundtrip(xxh32_of(payload));
                    assert(le32_value(t.subrange(off + 4 + plen, bcend)) == xxh32_of(payload));
                }
                let acc = data.take(pos);
                let content = if raw {
                    Some(payload)
                } else {
                    lz4_expansion_of(link_dict(cfg, acc), payload)
                };
                if raw {
                    assert(content == Some(ch));
                } else {
                    assert(chunk_inverts(cfg, data, pos));
                    assert(payload == lz4_block_of(dict, ch));
                    assert(content == Some(ch));
                }
                assert(ch.len() <= b);
                assert(acc + ch =~= data.take(end));
                if end < data.len() {
                    lemma_mod_multiples_vanish(1, pos, b);
                    assert(end % b == 0);
                }
                assert(s.subrange(off + bb.len(), s.len() as int) == rest2);
                lemma_decode_truncated_blocks(cfg, s, bcend, data, end, trail, k);
                assert(decode_blocks(t, off, cfg, acc) == decode_blocks(t, bcend, cfg, acc + ch));
            }
        }
    }
}

/// Cutting a modeled header short leaves a parse that reports truncation.
proof fn lemma_parse_truncated_header(cfg: FrameConfig, rest: Seq<u8>, k: int)
    requires
        0 < k < header_bytes(cfg).len(),
    ensures
        parse_header_spec((header_bytes(cfg) + rest).take(k)) == Err::<
            (FrameConfig, int),
            DecodeError,
        >(DecodeError::Truncated),
{
    let h = header_bytes(cfg);
    let f = h + rest;
    let t = f.take(k);
    assert(t.len() == k);
    assert forall|i: int| 0 <= i < k implies t[i] == h[i] by {
        vstd::seq::axiom_seq_subrange_index(f, 0, k, i);
    }
    if cfg.legacy_frame {
        assert(h.len() == 4);
        assert(t.len() < 4);
    } else {
        let desc = descriptor_bytes(cfg);
        let hlen = h.len() as int;
        assert(h =~= (magic_modern() + desc) + seq![header_checksum_byte(desc)]);
        if k < 4 {
        } else {
            assert(t.subrange(0, 4) =~= magic_modern());
            assert(magic_legacy()[0] == 0x02u8 && magic_modern()[0] == 0x04u8);
            assert(t.subrange(0, 4) != magic_legacy());
            if k < 7 {
            } else {
                assert(t[4] == flags_byte(cfg));
                lemma_flags_fields(cfg);
                assert(desc.len() == 2 + (if cfg.content_size is Some {
                    8int
                } else {
                    0int
                }));
                assert(t.len() < hlen);
            }
        }
    }
}

/// Cutting a modeled frame anywhere short of its end leaves a decode that
/// reports truncation: no proper prefix decodes, and none yields data.
#[verifier::rlimit(100)]
pub(crate) proof fn lemma_frame_truncated(cfg: FrameConfig, data: Seq<u8>, k: int)
    requires
        forall|p: int|
            0 <= p < data.len() && p % effective_bound(cfg) == 0 ==> #[trigger] chunk_inverts(
                cfg,
                data,
                p,
            ),
        0 < k < frame_bytes(cfg, data).len(),
    ensures
        frame_decode_spec(frame_bytes(cfg, data).take(k)) == Err::<Seq<u8>, DecodeError>(
            DecodeError::Truncated,
        ),
{
    let f = frame_bytes(cfg, data);
    let h = header_bytes(cfg);
    let hlen = h.len() as int;
    let c = canonical_config(cfg);
    let trail = content_checksum_bytes(cfg, data);
    let rest = blocks_bytes(cfg, data, 0) + le32_bytes(0) + trail;
    assert(f =~= h + rest);
    let t = f.take(k);
    lemma_canonical_effectives(cfg);
    if k < hlen {
        lemma_parse_truncated_header(cfg, rest, k);
        assert(parse_header_spec(t) == Err::<(FrameConfig, int), DecodeError>(
            DecodeError::Truncated,
        ));
    } else {
        let restk = rest.take(k - hlen);
        assert(t =~= h + restk);
        lemma_parse_header_of(cfg, restk);
        assert(parse_header_spec(t) == Ok::<(FrameConfig, int), DecodeError>((c, hlen)));
        assert(f.subrange(0, f.len() as int) =~= h + rest);
        lemma_window_parts(f, 0, f.len() as int, h, rest);
        assert(f.subrange(hlen, f.len() as int) == rest);
        assert(data.take(0) =~= Seq::<u8>::empty());
        let em_end = f.len() - trail.len();
        if k < em_end {
            lemma_decode_truncated_blocks(cfg, f, hlen, data, 0, trail, k);
            lemma_decode_blocks_congruent(cfg, c, t, hlen, Seq::<u8>::empty());
            assert(decode_blocks(t, hlen, c, Seq::<u8>::empty()) == Err::<
                (Seq<u8>, int),
                DecodeError,
            >(DecodeError::Truncated));
        } else {
            assert(trail.len() == 4 && effective_content_checksum(cfg)) by {
                if trail.len() == 0 {
                    assert(em_end == f.len());
                }
            }
            let trailk = trail.take(k - em_end);
            assert(t.subrange(hlen, t.len() as int) =~= blocks_bytes(cfg, data, 0) + le32_bytes(0)
                + trailk) by {
                assert forall|i: int| 0 <= i < k - hlen implies t.subrange(hlen, t.len() as int)[i]
                    == (blocks_bytes(cfg, data, 0) + le32_bytes(0) + trailk)[i] by {
                    vstd::seq::axiom_seq_subrange_index(t, hlen, t.len() as int, i);
                    vstd::seq::axiom_seq_subrange_index(f, 0, k, hlen + i);
                    vstd::seq::axiom_seq_subrange_index(f, hlen, f.len() as int, i);
                    assert(t[hlen + i] == f[hlen + i]);
                    assert(f.subrange(hlen, f.len() as int)[i] == rest[i]);
                    if i < k - hlen - (k - em_end) {
                        assert((blocks_bytes(cfg, data, 0) + le32_bytes(0) + trailk)[i] == rest[
                            i
                        ]);
                    } else {
                        assert((blocks_bytes(cfg, data, 0) + le32_bytes(0) + trailk)[i] == trailk[
                            i - (em_end - hlen)
                        ]);
                        assert(rest[i] == trail[i - (em_end - hlen)]);
                    }
                }
            }
            lemma_decode_encoded_blocks(cfg, t, hlen, data, 0, trailk);
            lemma_decode_blocks_congruent(cfg, c, t, hlen, Seq::<u8>::empty());
            let p = t.len() - trailk.len();
            assert(p == em_end);
            assert(decode_blocks(t, hlen, c, Seq::<u8>::empty()) == Ok::<
                (Seq<u8>, int),
                DecodeError,
            >((data, em_end)));
            assert(effective_content_checksum(c));
            assert(em_end + 4 == f.len());
            assert(em_end + 4 > t.len());
        }
    }
}


/// Flipping one bit of a byte changes the byte.
proof fn lemma_bit_flip_changes(x: u8, bit: u8)
    requires
        bit < 8,
    ensures
        x ^ (1u8 << bit) != x,
{
    assert(bit < 8 ==> x ^ (1u8 << bit) != x) by (bit_vector);
}

/// Flipping a flags bit other than the content-size bit leaves the
/// content-size bit as it was.
proof fn lemma_bit_flip_keeps_size_bit(x: u8, bit: u8)
    requires
        bit < 8,
        bit != 3,
    ensures
        ((x ^ (1u8 << bit)) / 8) % 2 == (x / 8) % 2,
{
    assert(bit < 8 && bit != 3 ==> ((x ^ (1u8 << bit)) / 8) % 2 == (x / 8) % 2) by (bit_vector);
}

/// A corrupted modern header whose stored checksum byte does not match the
/// digest of its descriptor is rejected with a checksum mismatch, whatever
/// else the corruption did, as long as the magic and the length layout
/// survived.
proof fn lemma_parse_bad_checksum(s: Seq<u8>)
    requires
        s.len() >= 7,
        s.subrange(0, 4) == magic_modern(),
        ({
            let hlen: int = if (s[4] / 8) % 2 == 1 {
                15
            } else {
                7
            };
            s.len() >= hlen && s[hlen - 1] != header_checksum_byte(s.subrange(4, hlen - 1))
        }),
    ensures
        parse_header_spec(s) == Err::<(FrameConfig, int), DecodeError>(
            DecodeError::ChecksumMismatch,
        ),
{
    assert(magic_legacy()[0] == 0x02u8 && magic_modern()[0] == 0x04u8);
    assert(s.subrange(0, 4) != magic_legacy());
}

/// Flipping any single bit of the header-checksum byte of an encoded modern
/// frame is caught: the frame is rejected with a checksum mismatch.
#[verifier::rlimit(100)]
#[verifier::spinoff_prover]
pub proof fn lemma_checksum_byte_flip_detected(cfg: FrameConfig, data: Seq<u8>, bit: u8)
    requires
        !cfg.legacy_frame,
        bit < 8,
    ensures
        ({
            let f = frame_bytes(cfg, data);
            let j = header_bytes(cfg).len() - 1;
            frame_decode_spec(f.update(j as int, f[j as int] ^ (1u8 << bit))) == Err::<
                Seq<u8>,
                DecodeError,
            >(DecodeError::ChecksumMismatch)
        }),
{
    let f = frame_bytes(cfg, data);
    let h = header_bytes(cfg);
    let hlen = h.len() as int;
    let desc = descriptor_bytes(cfg);
    let j = hlen - 1;
    let rest = blocks_bytes(cfg, data, 0) + le32_bytes(0) + content_checksum_bytes(cfg, data);
    assert(f =~= h + rest);
    assert(h =~= (magic_modern() + desc) + seq![header_checksum_byte(desc)]);
    assert(desc.len() == 2 + (if cfg.content_size is Some {
        8int
    } else {
        0int
    }));
    assert(f[j] == h[j]);
    assert(h[j] == header_checksum_byte(desc));
    let g = f.update(j, f[j] ^ (1u8 << bit));
    assert(g.len() == f.len());
    assert forall|i: int| 0 <= i < f.len() && i != j implies g[i] == f[i] by {
        vstd::seq::axiom_seq_update_different(f, i, j, f[j] ^ (1u8 << bit));
    }
    assert(g.subrange(0, 4) =~= magic_modern());
    assert(g[4] == flags_byte(cfg));
    lemma_flags_fields(cfg);
    assert(g.subrange(4, hlen - 1) =~= desc);
    lemma_bit_flip_changes(f[j], bit);
    assert(g[j] != header_checksum_byte(g.subrange(4, hlen - 1)));
    lemma_parse_bad_checksum(g);
}

/// Flipping any single bit of the covered descriptor bytes of an encoded
/// modern frame — any flags bit except the content-size-presence bit (whose
/// flip moves the checksum's own position), the block-descriptor byte or a
/// declared-content-size byte — is caught with a checksum mismatch whenever
/// the flip changes the descriptor's digest byte. (That the digest byte
/// changes cannot be established for an uninterpreted digest; it is the
/// hypothesis here.)
#[verifier::rlimit(100)]
#[verifier::spinoff_prover]
pub proof fn lemma_descriptor_flip_detected(cfg: FrameConfig, data: Seq<u8>, j: int, bit: u8)
    requires
        !cfg.legacy_frame,
        bit < 8,
        4 <= j < header_bytes(cfg).len() - 1,
        !(j == 4 && bit == 3),
        ({
            let desc = descriptor_bytes(cfg);
            header_checksum_byte(desc.update(j - 4, desc[j - 4] ^ (1u8 << bit)))
                != header_checksum_byte(desc)
        }),
    ensures
        ({
            let f = frame_bytes(cfg, data);
            frame_decode_spec(f.update(j, f[j] ^ (1u8 << bit))) == Err::<Seq<u8>, DecodeError>(
                DecodeError::ChecksumMismatch,
            )
        }),
{
    let f = frame_bytes(cfg, data);
    let h = header_bytes(cfg);
    let hlen = h.len() as int;
    let desc = descriptor_bytes(cfg);
    let rest = blocks_bytes(cfg, data, 0) + le32_bytes(0) + content_checksum_bytes(cfg, data);
    assert(f =~= h + rest);
    assert(h =~= (magic_modern() + desc) + seq![header_checksum_byte(desc)]);
    assert(desc.len() == 2 + (if cfg.content_size is Some {
        8int
    } else {
        0int
    }));
    assert(f[j] == h[j]);
    assert(h[j] == desc[j - 4]);
    let g = f.update(j, f[j] ^ (1u8 << bit));
    assert(g.len() == f.len());
    assert forall|i: int| 0 <= i < f.len() && i != j implies g[i] == f[i] by {
        vstd::seq::axiom_seq_update_different(f, i, j, f[j] ^ (1u8 << bit));
    }
    assert(g.subrange(0, 4) =~= magic_modern());
    lemma_flags_fields(cfg);
    if j == 4 {
        lemma_bit_flip_keeps_size_bit(f[4], bit);
        assert((g[4] / 8) % 2 == (f[4] / 8) % 2);
    } else {
        assert(g[4] == flags_byte(cfg));
    }
    assert((g[4] / 8) % 2 == (if cfg.content_size is Some {
        1int
    } else {
        0int
    }));
    let gdesc = desc.update(j - 4, desc[j - 4] ^ (1u8 << bit));
    assert(g.subrange(4, hlen - 1) =~= gdesc) by {
        assert forall|i: int| 0 <= i < desc.len() implies g.subrange(4, hlen - 1)[i] == gdesc[
            i
        ] by {
            vstd::seq::axiom_seq_subrange_index(g, 4, hlen - 1, i);
            if i == j - 4 {
                vstd::seq::axiom_seq_update_same(desc, i, desc[j - 4] ^ (1u8 << bit));
            } else {
                vstd::seq::axiom_seq_update_different(desc, i, j - 4, desc[j - 4] ^ (1u8 << bit));
            }
        }
    }
    assert(g[hlen - 1] == header_checksum_byte(desc));
    assert(g[hlen - 1] != header_checksum_byte(g.subrange(4, hlen - 1)));
    lemma_parse_bad_checksum(g);
}


/// Frames that differ only in block linkage decode to the same bytes: each
/// decodes back to exactly the data it encodes. The two engine round-trip
/// premises are the facts every call of `frame_compress` establishes for
/// its own chunks.
pub proof fn lemma_mode_equivalence(c1: FrameConfig, c2: FrameConfig, data: Seq<u8>)
    requires
        c2 == (FrameConfig { block_mode: c2.block_mode, ..c1 }),
        forall|p: int|
            0 <= p < data.len() && p % effective_bound(c1) == 0 ==> #[trigger] chunk_inverts(
                c1,
                data,
                p,
            ),
        forall|p: int|
            0 <= p < data.len() && p % effective_bound(c2) == 0 ==> #[trigger] chunk_inverts(
                c2,
                data,
                p,
            ),
    ensures
        frame_decode_spec(frame_bytes(c1, data)) == frame_decode_spec(frame_bytes(c2, data)),
{
    lemma_frame_roundtrip(c1, data);
    lemma_frame_roundtrip(c2, data);
}

/// Cutting a size-prefixed block inside its four-byte length prefix leaves
/// a decode that reports truncation. (A cut at or past the prefix leaves a
/// cut LZ4 payload; what the match engine makes of one is not among the
/// stated engine facts, so there `block_decoding` pins the outcome only in
/// terms of the cut payload's expansion.)
pub proof fn lemma_block_prefix_truncated(data: Seq<u8>, k: int)
    requires
        0 < k < 4,
    ensures
        crate::block::block_decoding(crate::block::block_encoding(data).take(k)) == Err::<
            Seq<u8>,
            DecodeError,
        >(DecodeError::Truncated),
{
    let enc = crate::block::block_encoding(data);
    assert(enc.take(k).len() == k);
}

} // verus!
