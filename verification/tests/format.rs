use snappy_rust::compress;
use snappy_rust::compress_stream;
use snappy_rust::decompress;
use snappy_rust::decompress_stream;
use snappy_rust::decompressed_len;
use snappy_rust::frame_chunk;
use snappy_rust::max_compressed_len;
use snappy_rust::Compressor;
use snappy_rust::Decompressor;
use snappy_rust::SnappyError;

/// Splits a framed stream into its chunks as (type, body) pairs.
fn chunks_of(stream: &[u8]) -> Vec<(u8, Vec<u8>)> {
    let mut res: Vec<(u8, Vec<u8>)> = Vec::new();
    let mut pos = 0usize;
    while pos < stream.len() {
        let ty = stream[pos];
        let len = stream[pos + 1] as usize
            | ((stream[pos + 2] as usize) << 8)
            | ((stream[pos + 3] as usize) << 16);
        let body = stream[pos + 4..pos + 4 + len].to_vec();
        res.push((ty, body));
        pos += 4 + len;
    }
    res
}

fn block_roundtrip(data: &[u8]) -> Vec<u8> {
    let src = data.to_vec();
    let mut enc: Vec<u8> = vec![0; max_compressed_len(src.len())];
    let n = compress(&mut enc, &src).expect("compress failed");
    assert!(n <= max_compressed_len(src.len()));
    enc.truncate(n);
    let mut dec: Vec<u8> = vec![0; data.len()];
    let m = decompress(&mut dec, &enc).expect("decompress failed");
    assert_eq!(m, data.len());
    dec
}

#[test]
fn block_roundtrip_literal_boundaries() {
    // literal runs of exactly 59, 60 and 61 distinct bytes cross the three
    // smallest length-encoding classes
    for len in [59usize, 60, 61] {
        let data: Vec<u8> = (0..len).map(|i| i as u8).collect();
        let out = block_roundtrip(&data);
        assert_eq!(out, data);
    }
}

#[test]
fn block_roundtrip_longer_literal_classes() {
    // literal runs needing one and two explicit length bytes
    for len in [200usize, 300, 70000] {
        let data: Vec<u8> = (0..len).map(|i| (i % 251) as u8 ^ (i / 251) as u8).collect();
        let out = block_roundtrip(&data);
        assert_eq!(out, data);
    }
}

#[test]
fn block_header_is_little_endian_length() {
    let src = b"123456789".to_vec();
    let mut enc: Vec<u8> = vec![0; max_compressed_len(src.len())];
    let n = compress(&mut enc, &src).expect("compress failed");
    enc.truncate(n);
    assert_eq!(&enc[0..8], &[9, 0, 0, 0, 0, 0, 0, 0]);
    assert_eq!(decompressed_len(&enc), 9);
}

#[test]
fn max_compressed_len_formula() {
    assert_eq!(max_compressed_len(0), 32);
    assert_eq!(max_compressed_len(6), 39);
    assert_eq!(max_compressed_len(9), 42);
    assert_eq!(max_compressed_len(65536), 76490);
}

#[test]
fn compress_rejects_short_destination() {
    let mut small: Vec<u8> = vec![0; 5];
    let r = compress(&mut small, &b"hello world".to_vec());
    assert_eq!(r, Err(SnappyError::InvalidInput));
}

#[test]
fn decompress_rejects_short_destination() {
    let src = b"abcdefgh".to_vec();
    let mut enc: Vec<u8> = vec![0; max_compressed_len(src.len())];
    let n = compress(&mut enc, &src).expect("compress failed");
    enc.truncate(n);
    let mut dst: Vec<u8> = vec![0; 3];
    assert_eq!(decompress(&mut dst, &enc), Err(SnappyError::InvalidInput));
}

/// A hand-built block: little-endian length header, then elements.
fn block(decoded_len: u8, elems: &[u8]) -> Vec<u8> {
    let mut b = vec![decoded_len, 0, 0, 0, 0, 0, 0, 0];
    b.extend_from_slice(elems);
    b
}

#[test]
fn decode_inline_literal() {
    // tag 0x08: literal, length 3
    let src = block(3, &[0x08, b'a', b'b', b'c']);
    let mut dst: Vec<u8> = vec![0; 8];
    let n = decompress(&mut dst, &src).expect("decompress failed");
    assert_eq!(&dst[..n], b"abc");
}

#[test]
fn decode_one_byte_length_literal() {
    // tag 0xf0: literal with one explicit length byte; 61 bytes follow
    let mut elems = vec![0xf0, 60];
    let payload: Vec<u8> = (0..61).map(|i| i as u8).collect();
    elems.extend_from_slice(&payload);
    let src = block(61, &elems);
    let mut dst: Vec<u8> = vec![0; 61];
    let n = decompress(&mut dst, &src).expect("decompress failed");
    assert_eq!(&dst[..n], &payload[..]);
}

#[test]
fn decode_copy_one() {
    // "ab" then a copy-1 of length 6 at offset 2 expands to "abababab"
    let src = block(8, &[0x04, b'a', b'b', 0x09, 0x02]);
    let mut dst: Vec<u8> = vec![0; 8];
    let n = decompress(&mut dst, &src).expect("decompress failed");
    assert_eq!(&dst[..n], b"abababab");
}

#[test]
fn decode_copy_two() {
    // "x" then a copy-2 of length 5 at offset 1 expands to "xxxxxx"
    let src = block(6, &[0x00, b'x', 0x12, 0x01, 0x00]);
    let mut dst: Vec<u8> = vec![0; 6];
    let n = decompress(&mut dst, &src).expect("decompress failed");
    assert_eq!(&dst[..n], b"xxxxxx");
}

#[test]
fn decode_rejects_copy_four_tag() {
    let src = block(4, &[0x03, 0, 0, 0, 0]);
    let mut dst: Vec<u8> = vec![0; 8];
    assert_eq!(decompress(&mut dst, &src), Err(SnappyError::CorruptInput));
}

#[test]
fn decode_rejects_truncated_literal() {
    // literal declares 5 bytes but only 2 are present
    let src = block(5, &[0x10, b'a', b'b']);
    let mut dst: Vec<u8> = vec![0; 8];
    assert_eq!(decompress(&mut dst, &src), Err(SnappyError::CorruptInput));
}

#[test]
fn decode_rejects_zero_offset_copy() {
    let src = block(6, &[0x00, b'x', 0x12, 0x00, 0x00]);
    let mut dst: Vec<u8> = vec![0; 8];
    assert_eq!(decompress(&mut dst, &src), Err(SnappyError::CorruptInput));
}

#[test]
fn decode_rejects_copy_before_start() {
    // offset 3 with only one byte decoded so far
    let src = block(6, &[0x00, b'x', 0x12, 0x03, 0x00]);
    let mut dst: Vec<u8> = vec![0; 8];
    assert_eq!(decompress(&mut dst, &src), Err(SnappyError::CorruptInput));
}

#[test]
fn decode_rejects_wrong_declared_length() {
    // elements decode to 3 bytes but the header declares 5
    let src = block(5, &[0x08, b'a', b'b', b'c']);
    let mut dst: Vec<u8> = vec![0; 8];
    assert_eq!(decompress(&mut dst, &src), Err(SnappyError::CorruptInput));
}

#[test]
fn decode_rejects_block_shorter_than_header() {
    let src = vec![1, 2, 3];
    let mut dst: Vec<u8> = vec![0; 8];
    assert_eq!(decompress(&mut dst, &src), Err(SnappyError::CorruptInput));
}

#[test]
fn stream_of_empty_input_is_only_the_identifier() {
    let out = compress_stream(&Vec::new());
    assert_eq!(
        out,
        vec![0xff, 0x06, 0x00, 0x00, 0x73, 0x4e, 0x61, 0x50, 0x70, 0x59]
    );
    let back = decompress_stream(out).expect("decode failed");
    assert_eq!(back.len(), 0);
}

#[test]
fn stream_scenario_digits() {
    let data = b"123456789".to_vec();
    let out = compress_stream(&data);
    assert!(out.len() <= max_compressed_len(9));
    let back = decompress_stream(out).expect("decode failed");
    assert_eq!(back, data);
}

#[test]
fn stream_compressible_uses_compressed_chunk() {
    let data = b"1111111100000000".to_vec();
    let out = compress_stream(&data);
    let chunks = chunks_of(&out[10..]);
    assert_eq!(chunks.len(), 1);
    assert_eq!(chunks[0].0, 0x00);
    let back = decompress_stream(out).expect("decode failed");
    assert_eq!(back, data);
}

#[test]
fn stream_incompressible_is_stored_raw() {
    // 256 distinct bytes have no 4-byte repeats, so compression cannot
    // reach the 12.5% saving and the chunk must be stored uncompressed,
    // its body holding the bytes themselves after the checksum
    let data: Vec<u8> = (0..=255u8).collect();
    let out = compress_stream(&data);
    let chunks = chunks_of(&out[10..]);
    assert_eq!(chunks.len(), 1);
    assert_eq!(chunks[0].0, 0x01);
    assert_eq!(&chunks[0].1[4..], &data[..]);
    let back = decompress_stream(out).expect("decode failed");
    assert_eq!(back, data);
}

#[test]
fn stream_chunking_two_hundred_kilobytes() {
    let data: Vec<u8> = (0..200000usize).map(|i| (i % 251) as u8).collect();
    let out = compress_stream(&data);
    let chunks = chunks_of(&out[10..]);
    assert_eq!(chunks.len(), 4);
    for (_, body) in &chunks {
        // each data chunk carries at most 65536 uncompressed bytes
        assert!(body.len() <= 65536 + 4);
    }
    let back = decompress_stream(out).expect("decode failed");
    assert_eq!(back, data);
}

#[test]
fn stream_two_writes_concatenate() {
    let mut comp = Compressor::new();
    let mut out = comp.write(&b"hello ".to_vec());
    out.extend_from_slice(&comp.write(&b"world".to_vec()));
    // only the first write carries the identifier chunk
    assert_eq!(out[0], 0xff);
    assert_eq!(chunks_of(&out).iter().filter(|(t, _)| *t == 0xff).count(), 1);
    let back = decompress_stream(out).expect("decode failed");
    assert_eq!(back, b"hello world".to_vec());
}

#[test]
fn reader_delivers_in_small_pieces() {
    let data = b"the quick brown fox jumps over the lazy dog".to_vec();
    let out = compress_stream(&data);
    let mut dec = Decompressor::new(out);
    let mut got: Vec<u8> = Vec::new();
    loop {
        let mut piece: Vec<u8> = vec![0; 5];
        let n = dec.read(&mut piece).expect("read failed");
        if n == 0 {
            break;
        }
        got.extend_from_slice(&piece[..n]);
    }
    assert_eq!(got, data);
}

#[test]
fn flipping_any_payload_bit_is_detected() {
    // a compressed data chunk: flip every bit of its payload in turn and
    // the checksum or structure check must reject the stream
    let data = b"1111111100000000".to_vec();
    let out = compress_stream(&data);
    for byte in 18..out.len() {
        for bit in 0..8 {
            let mut bad = out.clone();
            bad[byte] ^= 1u8 << bit;
            assert!(decompress_stream(bad).is_err(), "byte {} bit {}", byte, bit);
        }
    }
}

#[test]
fn flipping_any_raw_payload_bit_is_detected() {
    // an uncompressed data chunk: every single-bit change of the stored
    // bytes must fail the checksum
    let data: Vec<u8> = (0..=255u8).collect();
    let out = compress_stream(&data);
    for byte in 18..out.len() {
        for bit in 0..8 {
            let mut bad = out.clone();
            bad[byte] ^= 1u8 << bit;
            assert!(decompress_stream(bad).is_err(), "byte {} bit {}", byte, bit);
        }
    }
}

#[test]
fn stream_must_open_with_identifier() {
    // a data chunk first is corruption
    let mut bad = compress_stream(&b"abc".to_vec());
    bad.drain(0..10);
    assert_eq!(decompress_stream(bad), Err(SnappyError::CorruptInput));
}

#[test]
fn stream_rejects_wrong_magic() {
    let bad = vec![0xff, 0x06, 0x00, 0x00, b'w', b'r', b'o', b'n', b'g', b'!'];
    assert_eq!(decompress_stream(bad), Err(SnappyError::CorruptInput));
}

#[test]
fn stream_rejects_reserved_unskippable_chunk() {
    let mut bad = compress_stream(&Vec::new());
    bad.extend_from_slice(&[0x02, 0x01, 0x00, 0x00, 0xaa]);
    assert_eq!(decompress_stream(bad), Err(SnappyError::UnsupportedInput));
}

#[test]
fn stream_skips_padding_and_skippable_chunks() {
    let data = b"payload".to_vec();
    let whole = compress_stream(&data);
    let mut spliced: Vec<u8> = whole[..10].to_vec();
    spliced.extend_from_slice(&[0xfe, 0x02, 0x00, 0x00, 0x11, 0x22]);
    spliced.extend_from_slice(&[0x80, 0x01, 0x00, 0x00, 0x33]);
    spliced.extend_from_slice(&whole[10..]);
    let back = decompress_stream(spliced).expect("decode failed");
    assert_eq!(back, data);
}

#[test]
fn stream_rejects_truncated_chunk() {
    let mut bad = compress_stream(&Vec::new());
    bad.extend_from_slice(&[0x01, 0x0a, 0x00, 0x00, 0x01, 0x02]);
    assert_eq!(decompress_stream(bad), Err(SnappyError::CorruptInput));
}

#[test]
fn stream_rejects_bad_stored_checksum() {
    let data = b"checksummed".to_vec();
    let mut bad = compress_stream(&data);
    // the checksum field of the first data chunk sits after the header
    bad[14] ^= 0xff;
    assert_eq!(decompress_stream(bad), Err(SnappyError::CorruptInput));
}

#[test]
fn frame_chunk_policy_marks_types() {
    let raw = frame_chunk(&(0..=255u8).collect());
    assert_eq!(raw[0], 0x01);
    let packed = frame_chunk(&b"1111111100000000".to_vec());
    assert_eq!(packed[0], 0x00);
    // the compressed body (past checksum and block header) undercuts
    // 7/8 of the original
    assert!(8 * (packed.len() - 16) < 7 * 16);
}

#[test]
fn stream_rejects_oversized_declared_block() {
    // a compressed chunk whose block header declares 70000 bytes, more than
    // the 65536-byte decode buffer
    let mut bad = compress_stream(&Vec::new());
    bad.extend_from_slice(&[0x00, 12, 0x00, 0x00]);
    bad.extend_from_slice(&[0, 0, 0, 0]);
    bad.extend_from_slice(&[0x70, 0x11, 0x01, 0, 0, 0, 0, 0]);
    assert_eq!(decompress_stream(bad), Err(SnappyError::UnsupportedInput));
}

#[test]
fn stream_rejects_oversized_raw_chunk() {
    // an uncompressed chunk carrying 65537 bytes, one more than the buffer
    let mut bad = compress_stream(&Vec::new());
    let body_len = 65541usize; // checksum plus 65537 payload bytes
    bad.extend_from_slice(&[
        0x01,
        (body_len & 0xff) as u8,
        ((body_len >> 8) & 0xff) as u8,
        ((body_len >> 16) & 0xff) as u8,
    ]);
    bad.extend_from_slice(&vec![0u8; body_len]);
    assert_eq!(decompress_stream(bad), Err(SnappyError::UnsupportedInput));
}

#[test]
fn stream_chunk_type_boundaries() {
    // 0x7f is still reserved unskippable; 0xfd is still skippable
    let mut bad = compress_stream(&Vec::new());
    bad.extend_from_slice(&[0x7f, 0x01, 0x00, 0x00, 0xaa]);
    assert_eq!(decompress_stream(bad), Err(SnappyError::UnsupportedInput));

    let data = b"after a skippable chunk".to_vec();
    let whole = compress_stream(&data);
    let mut spliced: Vec<u8> = whole[..10].to_vec();
    spliced.extend_from_slice(&[0xfd, 0x01, 0x00, 0x00, 0xbb]);
    spliced.extend_from_slice(&whole[10..]);
    assert_eq!(decompress_stream(spliced), Ok(data));
}

#[test]
fn compress_emits_exact_bytes_for_short_input() {
    // two bytes become the header and one inline literal element
    let src = b"ab".to_vec();
    let mut enc: Vec<u8> = vec![0; max_compressed_len(2)];
    let n = compress(&mut enc, &src).expect("compress failed");
    enc.truncate(n);
    assert_eq!(enc, vec![2, 0, 0, 0, 0, 0, 0, 0, 0x04, b'a', b'b']);
}

#[test]
fn compress_emits_exact_bytes_for_repetitive_input() {
    // one-byte literal, copy-1 of length 7 at offset 1, then the same for
    // the zeros: the greedy matcher's exact element stream
    let src = b"1111111100000000".to_vec();
    let mut enc: Vec<u8> = vec![0; max_compressed_len(16)];
    let n = compress(&mut enc, &src).expect("compress failed");
    enc.truncate(n);
    assert_eq!(
        enc,
        vec![16, 0, 0, 0, 0, 0, 0, 0, 0x00, b'1', 0x0d, 0x01, 0x00, b'0', 0x0d, 0x01]
    );
}

#[test]
fn encoder_is_deterministic() {
    let data: Vec<u8> = (0..5000usize).map(|i| (i % 97) as u8).collect();
    let a = compress_stream(&data);
    let b = compress_stream(&data);
    assert_eq!(a, b);
    let mut e1: Vec<u8> = vec![0; max_compressed_len(data.len())];
    let mut e2: Vec<u8> = vec![7; max_compressed_len(data.len())];
    let n1 = compress(&mut e1, &data).expect("compress failed");
    let n2 = compress(&mut e2, &data).expect("compress failed");
    // the output does not depend on the buffer's prior contents
    assert_eq!(n1, n2);
    assert_eq!(&e1[..n1], &e2[..n2]);
}
