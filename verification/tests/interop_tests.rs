//! Cross-checks against the lz4_flex implementation of the same formats.

use std::io::{Read, Write};

use lz4_codec::{block_compress, block_decompress, frame_compress, frame_decompress};

fn patterned(len: usize) -> Vec<u8> {
    let mut out = Vec::with_capacity(len);
    for i in 0..len {
        out.push(((i * 13 + i / 3) % 241) as u8);
    }
    out
}

#[test]
fn interop_block_ours_to_lz4_flex() {
    let data = b"Hello, world! Hello, world!".to_vec();
    let blob = block_compress(&data);
    let back = lz4_flex::decompress_size_prepended(&blob).unwrap();
    assert_eq!(back, data);
}

#[test]
fn interop_block_lz4_flex_to_ours() {
    let data = patterned(50_000);
    let blob = lz4_flex::compress_prepend_size(&data);
    assert_eq!(block_decompress(&blob).unwrap(), data);
}

#[test]
fn interop_frame_ours_to_lz4_flex() {
    let data = patterned(200_000);
    for linked in [false, true] {
        for bc in [false, true] {
            for cc in [false, true] {
                let enc = frame_compress(&data, None, 4, linked, bc, cc, false).unwrap();
                let mut dec = lz4_flex::frame::FrameDecoder::new(&enc[..]);
                let mut back = Vec::new();
                dec.read_to_end(&mut back).unwrap();
                assert_eq!(back, data);
            }
        }
    }
}

#[test]
fn interop_frame_ours_to_lz4_flex_with_content_size() {
    let data = b"Hello, world!".to_vec();
    let enc = frame_compress(&data, Some(13), 4, false, false, false, false).unwrap();
    let mut dec = lz4_flex::frame::FrameDecoder::new(&enc[..]);
    let mut back = Vec::new();
    dec.read_to_end(&mut back).unwrap();
    assert_eq!(back, data);
}

#[test]
fn interop_frame_lz4_flex_to_ours() {
    let data = patterned(200_000);
    for linked in [false, true] {
        for bc in [false, true] {
            for cc in [false, true] {
                let info = lz4_flex::frame::FrameInfo::new()
                    .block_size(lz4_flex::frame::BlockSize::Max64KB)
                    .block_mode(if linked {
                        lz4_flex::frame::BlockMode::Linked
                    } else {
                        lz4_flex::frame::BlockMode::Independent
                    })
                    .block_checksums(bc)
                    .content_checksum(cc);
                let mut enc =
                    lz4_flex::frame::FrameEncoder::with_frame_info(info, Vec::new());
                enc.write_all(&data).unwrap();
                let frame = enc.finish().unwrap();
                assert_eq!(frame_decompress(&frame).unwrap(), data);
            }
        }
    }
}

#[test]
fn interop_frame_lz4_flex_default_to_ours() {
    let data = b"Hello, world!".to_vec();
    let mut enc = lz4_flex::frame::FrameEncoder::new(Vec::new());
    enc.write_all(&data).unwrap();
    let frame = enc.finish().unwrap();
    assert_eq!(frame_decompress(&frame).unwrap(), data);
}

#[test]
fn interop_frame_legacy_ours_to_lz4_flex() {
    let data = patterned(10_000);
    let enc = frame_compress(&data, None, 4, false, false, false, true).unwrap();
    let mut dec = lz4_flex::frame::FrameDecoder::new(&enc[..]);
    let mut back = Vec::new();
    dec.read_to_end(&mut back).unwrap();
    assert_eq!(back, data);
}
