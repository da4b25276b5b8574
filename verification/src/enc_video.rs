//! The streaming encoder: accumulates 1024-byte frames and writes each as
//! an I-frame or a P-frame, every payload behind a 16-bit little-endian
//! length prefix.
use vstd::prelude::*;

verus! {

use crate::enc::{
    Node, QuadTree, build_tree, diff_node, leaves_of, height, size, has_bitmap, compact_bits,
    pack_bits, packets_of, packets_feature, v1_full_payload, v1_delta_payloads, v1_active,
    lemma_tree_size, lemma_tree_no_bitmap, lemma_diff_no_bitmap, lemma_diff_height,
    lemma_diff_size, lemma_leaves_wf, lemma_leaves_le_size, lemma_packets_len, lemma_compact_len,
    lemma_preorder_size,
};
use crate::{FrameMeta, meta_byte};

/// A 16-bit length as two little-endian bytes.
pub open spec fn le16(n: int) -> Seq<u8> {
    seq![(n % 256) as u8, ((n / 256) % 256) as u8]
}

/// A framed V1 I-frame: the full-frame payload behind its length.
pub open spec fn v1_iframe(raster: Seq<u8>) -> Seq<u8> {
    let payload = v1_full_payload(leaves_of(build_tree(raster, true), Seq::empty()));
    le16(payload.len() as int) + payload
}

/// A framed V1 P-frame: the two delta payloads behind their lengths, or the
/// full frame alone when that is shorter than the combined deltas.
pub open spec fn v1_pframe(prev: Node, raster: Seq<u8>) -> Seq<u8> {
    let tree = build_tree(raster, true);
    let dl = leaves_of(diff_node(tree, prev), Seq::empty());
    let full = v1_full_payload(leaves_of(tree, Seq::empty()));
    let pay_on = seq![
        meta_byte(FrameMeta { active_feature: true, partial: true, display: false }),
    ] + packets_of(dl, true);
    let pay_off = seq![
        meta_byte(FrameMeta { active_feature: false, partial: true, display: true }),
    ] + packets_feature(dl, false);
    if full.len() < pay_on.len() + pay_off.len() {
        le16(full.len() as int) + full
    } else {
        le16(pay_on.len() as int) + pay_on + le16(pay_off.len() as int) + pay_off
    }
}

/// A framed V2 payload of one tree: its two-bit node stream packed to
/// bytes, behind its length.
pub open spec fn v2_frame(n: Node) -> Seq<u8> {
    let payload = pack_bits(compact_bits(n));
    le16(payload.len() as int) + payload
}

/// Appends a 16-bit little-endian length.
fn push_le16(out: &mut Vec<u8>, len: usize)
    requires
        len < 65536,
    ensures
        final(out)@ == old(out)@ + le16(len as int),
{
    out.push((len % 256) as u8);
    out.push(((len / 256) % 256) as u8);
    proof {
        assert(out@ =~= old(out)@ + le16(len as int));
    }
}

/// Appends the bytes of `src` between `start` and `end`.
fn append_range(out: &mut Vec<u8>, src: &Vec<u8>, start: usize, end: usize)
    requires
        start <= end <= src@.len(),
    ensures
        final(out)@ == old(out)@ + src@.subrange(start as int, end as int),
{
    let mut i: usize = start;
    while i < end
        invariant
            start <= i <= end <= src@.len(),
            out@ == old(out)@ + src@.subrange(start as int, i as int),
        decreases end - i,
    {
        out.push(src[i]);
        proof {
            assert(out@ =~= old(out)@ + src@.subrange(start as int, i + 1));
        }
        i += 1;
    }
}

/// Writes a payload of packed bytes behind its 16-bit length prefix.
fn write_bits(bytes: &Vec<u8>, out: &mut Vec<u8>)
    requires
        bytes@.len() < 65536,
    ensures
        final(out)@ == old(out)@ + le16(bytes@.len() as int) + bytes@,
{
    push_le16(out, bytes.len());
    append_range(out, bytes, 0, bytes.len());
    proof {
        assert(bytes@.subrange(0, bytes@.len() as int) =~= bytes@);
    }
}

/// One frame-level encoder: it turns a raster into framed payloads and
/// retains the frame's tree for the next P-frame.
pub trait Encode: Sized {
    /// The tree retained from the previously encoded frame.
    spec fn prev_model(&self) -> Option<Node>;

    /// Well-formedness of the retained state.
    spec fn inv(&self) -> bool;

    /// The bytes a self-contained frame of the raster encodes to.
    spec fn iframe_bytes(raster: Seq<u8>) -> Seq<u8>;

    /// The bytes a delta frame of the raster against `prev` encodes to.
    spec fn pframe_bytes(prev: Node, raster: Seq<u8>) -> Seq<u8>;

    /// The tree retained after encoding the raster.
    spec fn tree_of(raster: Seq<u8>) -> Node;

    /// A fresh encoder with no retained frame.
    fn init() -> (r: Self)
        ensures
            r.inv(),
            r.prev_model() is None,
    ;

    /// Encodes a self-contained frame and retains its tree.
    fn encode_i_frame(&mut self, buf: &[u8; 1024], out: &mut Vec<u8>)
        requires
            old(self).inv(),
        ensures
            final(self).inv(),
            final(out)@ == old(out)@ + Self::iframe_bytes(buf@),
            final(self).prev_model() == Some(Self::tree_of(buf@)),
    ;

    /// Encodes a delta frame against the retained tree, or a self-contained
    /// frame when none is retained, and retains the new tree.
    fn encode_p_frame(&mut self, buf: &[u8; 1024], out: &mut Vec<u8>)
        requires
            old(self).inv(),
        ensures
            final(self).inv(),
            final(out)@ == old(out)@ + (match old(self).prev_model() {
                None => Self::iframe_bytes(buf@),
                Some(p) => Self::pframe_bytes(p, buf@),
            }),
            final(self).prev_model() == Some(Self::tree_of(buf@)),
    ;
}

/// The V1 frame encoder.
#[derive(Debug)]
pub struct EncoderV1 {
    pub previous_tree: Option<QuadTree>,
}

impl Encode for EncoderV1 {
    open spec fn prev_model(&self) -> Option<Node> {
        match self.previous_tree {
            None => None,
            Some(t) => Some(t.head),
        }
    }

    open spec fn inv(&self) -> bool {
        match self.previous_tree {
            None => true,
            Some(t) => height(t.head) <= 5 && size(t.head) <= 8194,
        }
    }

    open spec fn iframe_bytes(raster: Seq<u8>) -> Seq<u8> {
        v1_iframe(raster)
    }

    open spec fn pframe_bytes(prev: Node, raster: Seq<u8>) -> Seq<u8> {
        v1_pframe(prev, raster)
    }

    open spec fn tree_of(raster: Seq<u8>) -> Node {
        build_tree(raster, true)
    }

    fn init() -> (r: Self) {
        EncoderV1 { previous_tree: None }
    }

    fn encode_i_frame(&mut self, buf: &[u8; 1024], out: &mut Vec<u8>) {
        let tree = QuadTree::from_128x64(buf, true);
        let ghost lm = leaves_of(tree.head, Seq::empty());
        proof {
            lemma_tree_size(buf@, true);
            lemma_leaves_wf(tree.head, Seq::empty());
            lemma_leaves_le_size(tree.head, Seq::empty());
            lemma_packets_len(lm, true);
            lemma_packets_len(lm, false);
        }
        let mut payload: Vec<u8> = Vec::new();
        let len = tree.store_packed(&mut payload);
        push_le16(out, len);
        out.append(&mut payload);
        self.previous_tree = Some(tree);
    }

    fn encode_p_frame(&mut self, buf: &[u8; 1024], out: &mut Vec<u8>) {
        let has_prev = match &self.previous_tree {
            Some(_) => true,
            None => false,
        };
        if !has_prev {
            self.encode_i_frame(buf, out);
            return ;
        }
        let tree = QuadTree::from_128x64(buf, true);
        let ghost lm = leaves_of(tree.head, Seq::empty());
        proof {
            lemma_tree_size(buf@, true);
            lemma_leaves_wf(tree.head, Seq::empty());
            lemma_leaves_le_size(tree.head, Seq::empty());
            lemma_packets_len(lm, true);
            lemma_packets_len(lm, false);
        }
        match &self.previous_tree {
            None => {
                proof {
                    assert(false);
                }
            },
            Some(prev) => {
                let d = tree.diff(prev);
                let ghost dl = leaves_of(d.head, Seq::empty());
                proof {
                    lemma_diff_height(tree.head, prev.head);
                    lemma_diff_size(tree.head, prev.head);
                    lemma_leaves_wf(d.head, Seq::empty());
                    lemma_leaves_le_size(d.head, Seq::empty());
                    lemma_packets_len(dl, true);
                    lemma_packets_len(dl, false);
                }
                let mut delta_buf: Vec<u8> = Vec::new();
                let counts = d.store_as_diff(&mut delta_buf);
                let len_y = counts.0;
                let len_n = counts.1;
                let mut full_buf: Vec<u8> = Vec::new();
                let full_len = tree.store_packed(&mut full_buf);
                if full_len < delta_buf.len() {
                    push_le16(out, full_len);
                    out.append(&mut full_buf);
                } else {
                    proof {
                        assert(delta_buf@.subrange(0, len_y as int) =~= seq![
                            meta_byte(
                                FrameMeta { active_feature: true, partial: true, display: false },
                            ),
                        ] + packets_of(dl, true));
                        assert(delta_buf@.subrange(len_y as int, (len_y + len_n) as int) =~= seq![
                            meta_byte(
                                FrameMeta { active_feature: false, partial: true, display: true },
                            ),
                        ] + packets_feature(dl, false));
                    }
                    push_le16(out, len_y);
                    append_range(out, &delta_buf, 0, len_y);
                    push_le16(out, len_n);
                    append_range(out, &delta_buf, len_y, len_y + len_n);
                }
                self.previous_tree = Some(tree);
            },
        }
    }
}

/// The V2 frame encoder.
#[derive(Debug)]
pub struct EncoderV2 {
    pub previous_tree: Option<QuadTree>,
}

impl Encode for EncoderV2 {
    open spec fn prev_model(&self) -> Option<Node> {
        match self.previous_tree {
            None => None,
            Some(t) => Some(t.head),
        }
    }

    open spec fn inv(&self) -> bool {
        match self.previous_tree {
            None => true,
            Some(t) => !has_bitmap(t.head) && size(t.head) <= 8194,
        }
    }

    open spec fn iframe_bytes(raster: Seq<u8>) -> Seq<u8> {
        v2_frame(build_tree(raster, false))
    }

    open spec fn pframe_bytes(prev: Node, raster: Seq<u8>) -> Seq<u8> {
        v2_frame(diff_node(build_tree(raster, false), prev))
    }

    open spec fn tree_of(raster: Seq<u8>) -> Node {
        build_tree(raster, false)
    }

    fn init() -> (r: Self) {
        EncoderV2 { previous_tree: None }
    }

    fn encode_i_frame(&mut self, buf: &[u8; 1024], out: &mut Vec<u8>) {
        let tree = QuadTree::from_128x64(buf, false);
        proof {
            lemma_tree_no_bitmap(buf@);
            lemma_tree_size(buf@, false);
            lemma_compact_len(tree.head);
            lemma_preorder_size(tree.head);
        }
        let bytes = match tree.collect_compact() {
            Ok(v) => v,
            Err(_) => vstd::pervasive::unreached(),
        };
        write_bits(&bytes, out);
        self.previous_tree = Some(tree);
    }

    fn encode_p_frame(&mut self, buf: &[u8; 1024], out: &mut Vec<u8>) {
        let has_prev = match &self.previous_tree {
            Some(_) => true,
            None => false,
        };
        if !has_prev {
            self.encode_i_frame(buf, out);
            return ;
        }
        let tree = QuadTree::from_128x64(buf, false);
        proof {
            lemma_tree_no_bitmap(buf@);
            lemma_tree_size(buf@, false);
        }
        match &self.previous_tree {
            None => {
                proof {
                    assert(false);
                }
            },
            Some(prev) => {
                let d = tree.diff(prev);
                proof {
                    lemma_diff_no_bitmap(tree.head, prev.head);
                    lemma_diff_size(tree.head, prev.head);
                    lemma_compact_len(d.head);
                    lemma_preorder_size(d.head);
                }
                let bytes = match d.collect_compact() {
                    Ok(v) => v,
                    Err(_) => vstd::pervasive::unreached(),
                };
                write_bits(&bytes, out);
                self.previous_tree = Some(tree);
            },
        }
    }
}

/// The streaming encoder: a byte sink that encodes each full 1024-byte
/// buffer as one frame, self-contained every `i_frame_interval` frames and
/// a delta in between.
#[derive(Debug)]
pub struct VideoEncoder<E> {
    pub encoder: E,
    pub buf: [u8; 1024],
    pub cursor: usize,
    pub i_frame_interval: u16,
    pub frame_counter: u16,
}

impl<E: Encode> VideoEncoder<E> {
    /// Well-formedness: the cursor stays inside the buffer and the frame
    /// encoder's own state is well formed.
    pub open spec fn inv(&self) -> bool {
        &&& self.encoder.inv()
        &&& self.cursor <= 1024
    }

    /// The bytes accumulated towards the next frame.
    pub open spec fn pending(&self) -> Seq<u8> {
        self.buf@.take(self.cursor as int)
    }

    /// What flushing a full buffer appends to the stream: a self-contained
    /// frame when the counter has reached the interval or nothing is
    /// retained, a delta frame otherwise.
    pub open spec fn frame_bytes(&self, raster: Seq<u8>) -> Seq<u8> {
        if self.frame_counter >= self.i_frame_interval {
            E::iframe_bytes(raster)
        } else {
            match self.encoder.prev_model() {
                None => E::iframe_bytes(raster),
                Some(p) => E::pframe_bytes(p, raster),
            }
        }
    }

    /// A fresh encoder; the counter starts at the interval, so the first
    /// frame is always self-contained.
    pub fn new(i_frame_interval: u16) -> (r: Self)
        ensures
            r.inv(),
            r.cursor == 0,
            r.i_frame_interval == i_frame_interval,
            r.frame_counter == i_frame_interval,
            r.encoder.prev_model() is None,
    {
        VideoEncoder {
            encoder: E::init(),
            buf: [0u8; 1024],
            cursor: 0,
            i_frame_interval,
            frame_counter: i_frame_interval,
        }
    }

    /// Encodes the accumulated buffer as one frame and resets the cursor.
    fn encode_buf(&mut self, out: &mut Vec<u8>)
        requires
            old(self).inv(),
        ensures
            final(self).inv(),
            final(out)@ == old(out)@ + old(self).frame_bytes(old(self).buf@),
            final(self).cursor == 0,
            final(self).buf == old(self).buf,
            final(self).i_frame_interval == old(self).i_frame_interval,
            final(self).encoder.prev_model() == Some(E::tree_of(old(self).buf@)),
            final(self).frame_counter == (if old(self).frame_counter
                >= old(self).i_frame_interval {
                1u16
            } else {
                (old(self).frame_counter + 1) as u16
            }),
    {
        self.cursor = 0;
        if self.frame_counter < self.i_frame_interval {
            self.frame_counter = self.frame_counter + 1;
            self.encoder.encode_p_frame(&self.buf, out);
        } else {
            self.frame_counter = 1;
            self.encoder.encode_i_frame(&self.buf, out);
        }
    }

    /// Accepts bytes into the accumulator, encoding one frame when it
    /// fills; returns how many bytes were taken.
    pub fn write(&mut self, data: &[u8], out: &mut Vec<u8>) -> (n: usize)
        requires
            old(self).inv(),
        ensures
            final(self).inv(),
            n == (if data@.len() <= 1024 - old(self).cursor {
                data@.len() as int
            } else {
                1024 - old(self).cursor
            }),
            final(self).i_frame_interval == old(self).i_frame_interval,
            old(self).cursor + n < 1024 ==> {
                &&& final(out)@ == old(out)@
                &&& final(self).pending() == old(self).pending() + data@.take(n as int)
                &&& final(self).frame_counter == old(self).frame_counter
                &&& final(self).encoder.prev_model() == old(self).encoder.prev_model()
            },
            old(self).cursor + n == 1024 ==> {
                &&& final(out)@ == old(out)@ + old(self).frame_bytes(
                    old(self).pending() + data@.take(n as int),
                )
                &&& final(self).cursor == 0
                &&& final(self).encoder.prev_model() == Some(
                    E::tree_of(old(self).pending() + data@.take(n as int)),
                )
                &&& final(self).frame_counter == (if old(self).frame_counter >= old(
                    self,
                ).i_frame_interval {
                    1u16
                } else {
                    (old(self).frame_counter + 1) as u16
                })
            },
    {
        let avail = 1024 - self.cursor;
        let to_write = if data.len() < avail {
            data.len()
        } else {
            avail
        };
        let start = self.cursor;
        let mut k: usize = 0;
        while k < to_write
            invariant
                0 <= k <= to_write,
                to_write <= data@.len(),
                start + to_write <= 1024,
                self.buf@.len() == 1024,
                self.cursor == start,
                self.encoder == old(self).encoder,
                self.frame_counter == old(self).frame_counter,
                self.i_frame_interval == old(self).i_frame_interval,
                self.buf@ == old(self).buf@.take(start as int) + data@.take(k as int) + old(
                    self,
                ).buf@.skip((start + k) as int),
            decreases to_write - k,
        {
            self.buf[start + k] = data[k];
            proof {
                assert(self.buf@ =~= old(self).buf@.take(start as int) + data@.take(k + 1) + old(
                    self,
                ).buf@.skip(start + k + 1));
            }
            k += 1;
        }
        self.cursor = start + to_write;
        proof {
            assert(self.pending() =~= old(self).pending() + data@.take(to_write as int));
        }
        if self.cursor == 1024 {
            proof {
                assert(self.buf@ =~= self.pending());
            }
            self.encode_buf(out);
        }
        to_write
    }

    /// Zero-pads the accumulator to a whole frame and encodes it.
    pub fn flush(&mut self, out: &mut Vec<u8>)
        requires
            old(self).inv(),
        ensures
            final(self).inv(),
            final(out)@ == old(out)@ + old(self).frame_bytes(
                old(self).pending() + Seq::new((1024 - old(self).cursor) as nat, |i: int| 0u8),
            ),
            final(self).cursor == 0,
            final(self).i_frame_interval == old(self).i_frame_interval,
            final(self).encoder.prev_model() == Some(
                E::tree_of(
                    old(self).pending() + Seq::new((1024 - old(self).cursor) as nat, |i: int| 0u8),
                ),
            ),
    {
        let start = self.cursor;
        let mut k: usize = start;
        while k < 1024
            invariant
                start <= k <= 1024,
                self.buf@.len() == 1024,
                self.cursor == start,
                start <= 1024,
                self.encoder == old(self).encoder,
                self.frame_counter == old(self).frame_counter,
                self.i_frame_interval == old(self).i_frame_interval,
                self.encoder.inv(),
                self.buf@ == old(self).buf@.take(start as int) + Seq::new(
                    (k - start) as nat,
                    |i: int| 0u8,
                ) + old(self).buf@.skip(k as int),
            decreases 1024 - k,
        {
            self.buf[k] = 0;
            proof {
                assert(self.buf@ =~= old(self).buf@.take(start as int) + Seq::new(
                    (k + 1 - start) as nat,
                    |i: int| 0u8,
                ) + old(self).buf@.skip(k + 1));
            }
            k += 1;
        }
        proof {
            assert(self.buf@ =~= old(self).pending() + Seq::new(
                (1024 - start) as nat,
                |i: int| 0u8,
            ));
        }
        self.encode_buf(out);
    }
}

} // verus!
