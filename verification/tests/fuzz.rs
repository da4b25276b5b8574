//! Round-trip checks over randomly generated rasters.
use monochrome_quadtree::dec::{LeafParserV1, LeafParserV2};
use monochrome_quadtree::dec_video::VideoSlice;
use monochrome_quadtree::enc::QuadTree;
use monochrome_quadtree::enc_video::{Encode, EncoderV1, EncoderV2, VideoEncoder};
use monochrome_quadtree::raster::Framebuffer;

fn xorshift(state: &mut u64) -> u64 {
    let mut x = *state;
    x ^= x << 13;
    x ^= x >> 7;
    x ^= x << 17;
    *state = x;
    x
}

fn random_raster(state: &mut u64) -> [u8; 1024] {
    let mut buf = [0u8; 1024];
    for chunk in buf.chunks_mut(8) {
        let r = xorshift(state).to_le_bytes();
        chunk.copy_from_slice(&r);
    }
    buf
}

fn encode_frames<E: Encode>(frames: &[u8], interval: u16) -> Vec<u8> {
    let mut enc = VideoEncoder::<E>::new(interval);
    let mut out = Vec::new();
    let mut off = 0;
    while off < frames.len() {
        off += enc.write(&frames[off..], &mut out);
    }
    out
}

fn check_v1(frames: &[u8], interval: u16) {
    let encoded = encode_frames::<EncoderV1>(frames, interval);
    let mut fb = Framebuffer { bytes: [0; 1024] };
    let mut vs = VideoSlice::new(&encoded);
    for frame in frames.chunks(1024) {
        loop {
            let payload = vs.next().expect("stream ended early");
            let dec = LeafParserV1::new(payload).unwrap();
            dec.draw_onto(&mut fb);
            if dec.flush_after() {
                break;
            }
        }
        assert_eq!(frame, &fb.bytes[..]);
    }
}

fn check_v2(frames: &[u8], interval: u16) {
    let encoded = encode_frames::<EncoderV2>(frames, interval);
    let mut fb = Framebuffer { bytes: [0; 1024] };
    let mut vs = VideoSlice::new(&encoded);
    for frame in frames.chunks(1024) {
        let payload = vs.next().expect("stream ended early");
        let dec = LeafParserV2::from_buf(payload).unwrap();
        dec.draw_onto(&mut fb);
        assert_eq!(frame, &fb.bytes[..]);
    }
}

#[test]
fn fuzz_v1_single_frames() {
    let mut state = 0x1234_5678_9abc_def1u64;
    for _ in 0..4400 {
        let raster = random_raster(&mut state);
        let tree = QuadTree::from_128x64(&raster, true);
        let mut payload = Vec::new();
        tree.store_packed(&mut payload);
        let dec = LeafParserV1::new(&payload).unwrap();
        let mut fb = Framebuffer { bytes: [0; 1024] };
        dec.draw_onto(&mut fb);
        assert_eq!(raster, fb.bytes);
    }
}

#[test]
fn fuzz_v2_single_frames() {
    let mut state = 0x0f0e_0d0c_0b0a_0901u64;
    for _ in 0..4400 {
        let raster = random_raster(&mut state);
        let tree = QuadTree::from_128x64(&raster, false);
        let payload = tree.collect_compact().unwrap();
        let dec = LeafParserV2::from_buf(&payload).unwrap();
        let mut fb = Framebuffer { bytes: [0; 1024] };
        fb.clear(false);
        dec.draw_onto(&mut fb);
        assert_eq!(raster, fb.bytes);
    }
}

#[test]
fn fuzz_v1_pframes_interval_one() {
    let mut state = 0xdead_beef_cafe_f00du64;
    let mut frames = vec![0u8; 6 * 1024];
    for _ in 0..70 {
        for f in 0..6 {
            let r = random_raster(&mut state);
            frames[f * 1024..(f + 1) * 1024].copy_from_slice(&r);
        }
        check_v1(&frames, 1);
    }
}

#[test]
fn fuzz_pframes_interval_three() {
    let mut state = 0x0123_4567_89ab_cdefu64;
    let mut frames = vec![0u8; 6 * 1024];
    for _ in 0..70 {
        for f in 0..6 {
            let r = random_raster(&mut state);
            frames[f * 1024..(f + 1) * 1024].copy_from_slice(&r);
        }
        check_v1(&frames, 3);
        check_v2(&frames, 3);
    }
}
