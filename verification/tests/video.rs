//! Tests of the streaming encoder and the frame-level round trip.
use monochrome_quadtree::dec::{LeafParserV1, LeafParserV2};
use monochrome_quadtree::dec_video::VideoSlice;
use monochrome_quadtree::enc_video::{Encode, EncoderV1, EncoderV2, VideoEncoder};
use monochrome_quadtree::raster::Framebuffer;

const M: u8 = u8::MAX;

/// Feeds whole frames into a streaming encoder and returns the stream.
fn encode_frames<E: Encode>(frames: &[u8], interval: u16) -> Vec<u8> {
    let mut enc = VideoEncoder::<E>::new(interval);
    let mut out = Vec::new();
    let mut off = 0;
    while off < frames.len() {
        off += enc.write(&frames[off..], &mut out);
    }
    out
}

/// Decodes a V1 stream and checks each displayed frame against the input.
fn compare_v1(original: &[u8], encoded: &[u8]) {
    let mut fb = Framebuffer { bytes: [0; 1024] };
    let mut vs = VideoSlice::new(encoded);
    for (i, frame) in original.chunks(1024).enumerate() {
        if frame.len() < 1024 {
            break;
        }
        loop {
            let payload = vs.next().expect("stream ended before all frames were decoded");
            let dec = LeafParserV1::new(payload).unwrap();
            dec.draw_onto(&mut fb);
            if dec.flush_after() {
                break;
            }
        }
        assert_eq!(frame, &fb.bytes[..], "frame {} did not round-trip", i);
    }
}

/// Decodes a V2 stream and checks each displayed frame against the input.
fn compare_v2(original: &[u8], encoded: &[u8]) {
    let mut fb = Framebuffer { bytes: [0; 1024] };
    let mut vs = VideoSlice::new(encoded);
    for (i, frame) in original.chunks(1024).enumerate() {
        if frame.len() < 1024 {
            break;
        }
        let payload = vs.next().expect("stream ended before all frames were decoded");
        let dec = LeafParserV2::from_buf(payload).unwrap();
        dec.draw_onto(&mut fb);
        assert_eq!(frame, &fb.bytes[..], "frame {} did not round-trip", i);
    }
}

/// A deterministic sequence of frames with gradually moving content.
fn test_frames(n: usize) -> Vec<u8> {
    let mut out = vec![0u8; n * 1024];
    for f in 0..n {
        let frame = &mut out[f * 1024..(f + 1) * 1024];
        // a solid band that climbs one row per frame, plus a ragged edge
        for y in 0..64usize {
            for xb in 0..16usize {
                let mut b = 0u8;
                if (y + f) % 13 < 5 {
                    b = M;
                }
                if xb == (f + y) % 16 {
                    b ^= 0b0101_0101;
                }
                frame[y * 16 + xb] = b;
            }
        }
    }
    out
}

#[test]
fn bad_apple_v2() {
    let input = test_frames(70);
    let output = encode_frames::<EncoderV2>(&input, 60);
    compare_v2(&input, &output);
}

#[test]
fn bad_apple_v1() {
    let input = test_frames(40);
    let output = encode_frames::<EncoderV1>(&input, 1);
    compare_v1(&input, &output);
}

#[test]
fn bad_apple_pframes_v1() {
    let input = test_frames(70);
    let output = encode_frames::<EncoderV1>(&input, 60);
    compare_v1(&input, &output);
}

#[test]
fn uniform_frame_bytes() {
    // A fully-on frame takes one header and one root leaf in V1, one code
    // byte in V2, each behind a two-byte length prefix.
    let ones = vec![M; 1024];
    let v1 = encode_frames::<EncoderV1>(&ones, 60);
    assert_eq!(v1, [0x02, 0x00, 0x05, 0x80]);
    let v2 = encode_frames::<EncoderV2>(&ones, 60);
    assert_eq!(v2, [0x01, 0x00, 0xC0]);

    let zeros = vec![0u8; 1024];
    let v1z = encode_frames::<EncoderV1>(&zeros, 60);
    assert_eq!(v1z, [0x02, 0x00, 0x04, 0x80]);
    let v2z = encode_frames::<EncoderV2>(&zeros, 60);
    assert_eq!(v2z, [0x01, 0x00, 0x80]);
}

#[test]
fn two_frame_pframe_roundtrip() {
    // Frame 0 becomes an I-frame, frame 1 a P-frame (or a shorter full
    // frame); both decode back exactly at an I-frame interval of 60.
    let mut input = vec![0u8; 2048];
    for y in 0..32 {
        for xb in 0..8 {
            input[y * 16 + xb] = M;
        }
    }
    let first = input[..1024].to_vec();
    input[1024..2048].copy_from_slice(&first);
    for y in 20..40 {
        for xb in 4..12 {
            input[1024 + y * 16 + xb] ^= 0xF0;
        }
    }
    let output = encode_frames::<EncoderV1>(&input, 60);
    compare_v1(&input, &output);

    let output2 = encode_frames::<EncoderV2>(&input, 60);
    compare_v2(&input, &output2);
}

#[test]
fn truncated_stream_stops_cleanly() {
    // Cutting the final payload short by one byte stops the reader before
    // that payload; every preceding frame still decodes bit-exactly.
    let input = test_frames(5);
    let output = encode_frames::<EncoderV2>(&input, 60);
    let cut = &output[..output.len() - 1];

    let mut fb = Framebuffer { bytes: [0; 1024] };
    let mut vs = VideoSlice::new(cut);
    let mut decoded = 0;
    for frame in input.chunks(1024) {
        match vs.next() {
            Some(payload) => {
                let dec = LeafParserV2::from_buf(payload).unwrap();
                dec.draw_onto(&mut fb);
                assert_eq!(frame, &fb.bytes[..]);
                decoded += 1;
            },
            None => break,
        }
    }
    assert_eq!(decoded, 4);
    assert!(vs.next().is_none());
}

#[test]
fn flush_pads_partial_frame() {
    // A trailing partial frame is zero-padded to a whole frame on flush.
    let mut enc = VideoEncoder::<EncoderV2>::new(60);
    let mut out = Vec::new();
    let data = vec![M; 1000];
    let mut off = 0;
    while off < data.len() {
        off += enc.write(&data[off..], &mut out);
    }
    assert!(out.is_empty());
    enc.flush(&mut out);

    let mut expect = vec![M; 1000];
    expect.extend_from_slice(&[0; 24]);
    let mut fb = Framebuffer { bytes: [0; 1024] };
    let mut vs = VideoSlice::new(&out);
    let payload = vs.next().unwrap();
    let dec = LeafParserV2::from_buf(payload).unwrap();
    dec.draw_onto(&mut fb);
    assert_eq!(&fb.bytes[..], &expect[..]);
}

#[test]
fn pframe_of_unchanged_frame_is_empty() {
    // A repeated frame diffs to an all-Empty tree: the V2 payload is one
    // padded Empty code, and decoding it changes nothing.
    let input = test_frames(2);
    let mut two = input[..1024].to_vec();
    two.extend_from_slice(&input[..1024]);
    let output = encode_frames::<EncoderV2>(&two, 60);
    let first_len = u16::from_le_bytes([output[0], output[1]]) as usize;
    let second = &output[2 + first_len..];
    assert_eq!(second, [0x01, 0x00, 0x00]);
    compare_v2(&two, &output);
}
