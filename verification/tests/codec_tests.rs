use lz4_codec::{block_compress, block_decompress, frame_compress, frame_decompress, DecodeError};

#[test]
fn test_lz4block() {
    let data = b"Hello, world!".to_vec();
    let compressed = block_compress(&data);

    let original_res = block_decompress(&compressed);
    assert!(original_res.is_ok());
    assert_eq!(data, original_res.unwrap());
}

#[test]
fn test_lz4frame() {
    let data = b"Hello, world!".to_vec();
    let compressed_res = frame_compress(&data, None, 4, false, false, false, false);
    assert!(compressed_res.is_ok());
    let compressed = compressed_res.unwrap();
    let raw: Vec<u8> = compressed.clone();
    // compare magic bytes
    assert_eq!(0x04, raw[0]);
    assert_eq!(0x22, raw[1]);
    assert_eq!(0x4d, raw[2]);
    assert_eq!(0x18, raw[3]);
    // compare end mark
    assert_eq!(0x00, raw[raw.len() - 1]);
    assert_eq!(0x00, raw[raw.len() - 2]);
    assert_eq!(0x00, raw[raw.len() - 3]);
    assert_eq!(0x00, raw[raw.len() - 4]);

    let uncompressed_res = frame_decompress(&compressed);
    assert!(uncompressed_res.is_ok());
    let original = uncompressed_res.unwrap();
    assert_eq!(data, original);
}

fn pseudo_random(len: usize) -> Vec<u8> {
    let mut state: u64 = 0x9E3779B97F4A7C15;
    let mut out = Vec::with_capacity(len);
    for _ in 0..len {
        state ^= state << 13;
        state ^= state >> 7;
        state ^= state << 17;
        out.push((state >> 32) as u8);
    }
    out
}

fn patterned(len: usize) -> Vec<u8> {
    let mut out = Vec::with_capacity(len);
    for i in 0..len {
        out.push(((i * 7 + i / 5) % 251) as u8);
    }
    out
}

#[test]
fn block_roundtrip_empty() {
    let data: Vec<u8> = Vec::new();
    let blob = block_compress(&data);
    assert_eq!(block_decompress(&blob).unwrap(), data);
}

#[test]
fn block_roundtrip_incompressible() {
    let data = pseudo_random(5000);
    let blob = block_compress(&data);
    assert_eq!(block_decompress(&blob).unwrap(), data);
}

#[test]
fn block_roundtrip_compressible() {
    let data = vec![0xAB; 100_000];
    let blob = block_compress(&data);
    assert_eq!(block_decompress(&blob).unwrap(), data);
}

#[test]
fn block_short_blob_is_truncated() {
    assert_eq!(block_decompress(&[]), Err(DecodeError::Truncated));
    assert_eq!(block_decompress(&[1, 2, 3]), Err(DecodeError::Truncated));
}

#[test]
fn block_declared_size_too_large_is_format() {
    let mut blob = block_compress(b"Hello, world!");
    // Declare one byte more than the payload expands to.
    blob[0] = 14;
    assert_eq!(block_decompress(&blob), Err(DecodeError::Format));
}

#[test]
fn block_declared_size_too_small_is_corrupt() {
    let mut blob = block_compress(b"Hello, world!");
    // The expansion overruns the declared size.
    blob[0] = 12;
    assert_eq!(block_decompress(&blob), Err(DecodeError::CorruptData));
}

#[test]
fn block_empty_payload_is_corrupt() {
    // A bare length prefix with no payload at all: even an empty content
    // needs its one-token LZ4 encoding, so this blob is rejected.
    assert_eq!(block_decompress(&[0, 0, 0, 0]), Err(DecodeError::CorruptData));
    assert_eq!(block_decompress(&[5, 0, 0, 0]), Err(DecodeError::CorruptData));
}

#[test]
fn block_truncation_every_prefix_fails() {
    let data = patterned(5000);
    let blob = block_compress(&data);
    for k in 1..blob.len() {
        let res = block_decompress(&blob[..k]);
        assert!(res.is_err(), "prefix of length {} of {}", k, blob.len());
        if k < 4 {
            assert_eq!(res, Err(DecodeError::Truncated));
        }
    }
}

#[test]
fn block_garbage_payload_is_corrupt() {
    let blob = vec![5, 0, 0, 0, 0xFF, 0xFF, 0xFF];
    assert_eq!(block_decompress(&blob), Err(DecodeError::CorruptData));
}

#[test]
fn frame_roundtrip_all_configs() {
    let small = b"Hello, world! Hello, world! Hello, world!".to_vec();
    let empty: Vec<u8> = Vec::new();
    let big = patterned(200_000);
    for data in [&empty, &small, &big] {
        for class in [0u8, 4, 5, 6, 7, 8] {
            for linked in [false, true] {
                for bc in [false, true] {
                    for cc in [false, true] {
                        let enc =
                            frame_compress(data, None, class, linked, bc, cc, false).unwrap();
                        let dec = frame_decompress(&enc).unwrap();
                        assert_eq!(&dec, data);
                    }
                }
            }
        }
    }
}

#[test]
fn frame_roundtrip_incompressible() {
    let data = pseudo_random(150_000);
    let enc = frame_compress(&data, None, 4, true, true, true, false).unwrap();
    assert_eq!(frame_decompress(&enc).unwrap(), data);
}

#[test]
fn frame_declared_size_matches() {
    let data = b"Hello, world!".to_vec();
    let enc = frame_compress(&data, Some(13), 4, false, false, false, false).unwrap();
    assert_eq!(frame_decompress(&enc).unwrap(), data);
}

#[test]
fn frame_declared_size_mismatch_decodes_to_error() {
    let data = b"Hello, world!".to_vec();
    // Encoding succeeds and carries the declared size as given...
    let enc = frame_compress(&data, Some(999), 4, false, false, false, false).unwrap();
    // ...and decoding reports the disagreement.
    assert_eq!(frame_decompress(&enc), Err(DecodeError::SizeMismatch));
}

#[test]
fn frame_truncation_every_prefix_fails() {
    let data = b"Hello, world!".to_vec();
    for (cc, bc) in [(false, false), (true, true)] {
        let enc = frame_compress(&data, Some(13), 4, false, bc, cc, false).unwrap();
        for k in 1..enc.len() {
            assert_eq!(
                frame_decompress(&enc[..k]),
                Err(DecodeError::Truncated),
                "prefix of length {} of {}",
                k,
                enc.len()
            );
        }
    }
}

#[test]
fn frame_header_bit_flip_is_checksum_mismatch() {
    let data = b"Hello, world!".to_vec();
    let enc = frame_compress(&data, Some(13), 4, false, false, false, false).unwrap();
    // Bytes 4..14 are the flags, block-descriptor and content-size fields the
    // header checksum covers; byte 14 is the checksum itself. Flipping any
    // bit of the covered bytes other than the content-size-presence flag
    // (bit 3 of the flags byte, which moves the checksum's position), or of
    // the checksum byte, is caught by the header checksum.
    for byte in 4..15 {
        for bit in 0..8 {
            if byte == 4 && bit == 3 {
                continue;
            }
            let mut bad = enc.clone();
            bad[byte] ^= 1 << bit;
            assert_eq!(
                frame_decompress(&bad),
                Err(DecodeError::ChecksumMismatch),
                "byte {} bit {}",
                byte,
                bit
            );
        }
    }
}

#[test]
fn frame_block_checksum_catches_payload_change() {
    let data = patterned(1000);
    let enc = frame_compress(&data, None, 4, false, true, false, false).unwrap();
    let mut bad = enc.clone();
    // Past the 7-byte header and the 4-byte size field sits the payload.
    bad[12] ^= 0x01;
    assert_eq!(frame_decompress(&bad), Err(DecodeError::ChecksumMismatch));
}

#[test]
fn frame_content_checksum_catches_change() {
    let data = b"Hello, world!".to_vec();
    let enc = frame_compress(&data, None, 4, false, false, true, false).unwrap();
    let mut bad = enc.clone();
    let n = bad.len();
    // The last four bytes are the content checksum.
    bad[n - 1] ^= 0x80;
    assert_eq!(frame_decompress(&bad), Err(DecodeError::ChecksumMismatch));
}

#[test]
fn frame_bad_magic_is_format() {
    let data = b"Hello, world!".to_vec();
    let mut enc = frame_compress(&data, None, 4, false, false, false, false).unwrap();
    enc[0] = 0x05;
    assert_eq!(frame_decompress(&enc), Err(DecodeError::Format));
}

#[test]
fn frame_trailing_garbage_is_format() {
    let data = b"Hello, world!".to_vec();
    let mut enc = frame_compress(&data, None, 4, false, false, false, false).unwrap();
    enc.push(0);
    assert_eq!(frame_decompress(&enc), Err(DecodeError::Format));
}

#[test]
fn frame_mode_equivalence_small_input() {
    let data = b"Hello, world!".to_vec();
    let independent = frame_compress(&data, None, 4, false, false, false, false).unwrap();
    let linked = frame_compress(&data, None, 4, true, false, false, false).unwrap();
    assert_eq!(frame_decompress(&independent).unwrap(), data);
    assert_eq!(frame_decompress(&linked).unwrap(), data);
}

#[test]
fn legacy_frame_magic_and_shape() {
    let data = b"Hello, world!".to_vec();
    let enc = frame_compress(&data, None, 4, false, false, false, true).unwrap();
    assert_eq!(&enc[0..4], &[0x02, 0x21, 0x4C, 0x18]);
    // Whatever the other knobs ask, a legacy frame carries no content size,
    // no block checksums and no content checksum.
    let with_knobs = frame_compress(&data, Some(13), 8, true, true, true, true).unwrap();
    assert_eq!(enc, with_knobs);
    assert_eq!(frame_decompress(&enc).unwrap(), data);
}

#[test]
fn legacy_frame_roundtrip_large() {
    let data = patterned(300_000);
    let enc = frame_compress(&data, None, 4, false, false, false, true).unwrap();
    assert_eq!(frame_decompress(&enc).unwrap(), data);
}

fn fix_header_checksum(frame: &mut [u8]) {
    // For a header without a content-size field, the checksum byte at
    // position 6 covers bytes 4 and 5.
    let h = twox_hash::XxHash32::oneshot(0, &frame[4..6]);
    frame[6] = (h >> 8) as u8;
}

#[test]
fn frame_reserved_flag_bit_is_format() {
    let data = b"Hello, world!".to_vec();
    let mut enc = frame_compress(&data, None, 4, false, false, false, false).unwrap();
    enc[4] |= 0x02;
    fix_header_checksum(&mut enc);
    assert_eq!(frame_decompress(&enc), Err(DecodeError::Format));
}

#[test]
fn frame_dictionary_id_bit_is_format() {
    let data = b"Hello, world!".to_vec();
    let mut enc = frame_compress(&data, None, 4, false, false, false, false).unwrap();
    enc[4] |= 0x01;
    fix_header_checksum(&mut enc);
    assert_eq!(frame_decompress(&enc), Err(DecodeError::Format));
}

#[test]
fn frame_unsupported_version_is_format() {
    let data = b"Hello, world!".to_vec();
    let mut enc = frame_compress(&data, None, 4, false, false, false, false).unwrap();
    enc[4] = (enc[4] & 0x3F) | 0x80;
    fix_header_checksum(&mut enc);
    assert_eq!(frame_decompress(&enc), Err(DecodeError::Format));
}

#[test]
fn frame_bad_block_descriptor_is_format() {
    let data = b"Hello, world!".to_vec();
    let mut enc = frame_compress(&data, None, 4, false, false, false, false).unwrap();
    // Class 3 is below the smallest defined block size class.
    enc[5] = 0x30;
    fix_header_checksum(&mut enc);
    assert_eq!(frame_decompress(&enc), Err(DecodeError::Format));
}

#[test]
fn frame_skippable_magic_is_format() {
    let mut enc = vec![0x50, 0x2A, 0x4D, 0x18];
    enc.extend_from_slice(&[4, 0, 0, 0, 1, 2, 3, 4]);
    assert_eq!(frame_decompress(&enc), Err(DecodeError::Format));
}
