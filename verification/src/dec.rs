//! Streaming decoders for the two wire formats, and the rasteriser that
//! paints decoded leaves into a framebuffer.
use vstd::prelude::*;

verus! {

use crate::bits::byte_bit;
use crate::enc::{two_bytes, leaf_packet, packet_byte0, packet_byte1, packet_depth, pos_at, packets_of, v1_storable, bitmaps_at_five, lemma_packets_front, lemma_packets_feature_front, packets_feature, v1_active, v1_full_payload, compact_bits, has_bitmap, pack_bits, byte_of_bits, bitval, leaves_of, height, Node, lemma_compact_len, lemma_preorder_size, build_tree, lemma_tree_no_bitmap, lemma_tree_height, lemma_leaves_nonprefix, lemma_leaves_wf, pos_prefix_of};
use crate::leaf_listed;
use crate::pos::{Position, pos_seq, pos_new, pos_push, pos_truncate, pos_clone, pos_len, pos_get, next_pos, advance, pos_wf};
use crate::raster::{Framebuffer, Rect, paint_rect, paint_tile};
use crate::{FrameMeta, Leaf, LeafData, LeafModel, meta_of_byte, meta_byte, lemma_meta_roundtrip};

/// A payload that cannot be decoded at all.
#[derive(Debug, PartialEq, Eq, Structural, Clone, Copy)]
pub enum ParseError {
    /// The V1 header byte is out of range, or the payload is empty.
    InvalidHeader,
}

/// The next leaf of a V1 packet run starting at byte `i`, and the index
/// just past it.  A packet that runs off the end of the payload yields
/// nothing: the run is over.
pub open spec fn v1_next(bytes: Seq<u8>, i: int, feature: bool) -> Option<(LeafModel, int)> {
    if !(0 <= i < bytes.len()) {
        None
    } else {
        let b = bytes[i];
        if b >= 128 {
            let depth = ((b / 16) % 8) as int;
            let head2 = seq![(b / 4) % 4, b % 4];
            if depth <= 2 {
                Some(
                    (
                        LeafModel { pos: head2.take(depth), data: LeafData::Feature(feature) },
                        i + 1,
                    ),
                )
            } else if i + 2 > bytes.len() {
                None
            } else {
                let b1 = bytes[i + 1];
                let more = seq![(b1 / 64) % 4, (b1 / 16) % 4, (b1 / 4) % 4];
                let pos = head2 + more.take(
                    if depth <= 5 {
                        depth - 2
                    } else {
                        3
                    },
                );
                if depth < 6 {
                    Some((LeafModel { pos, data: LeafData::Feature(feature) }, i + 2))
                } else if i + 4 > bytes.len() {
                    None
                } else {
                    Some(
                        (
                            LeafModel {
                                pos,
                                data: LeafData::Bitmap(two_bytes(bytes[i + 2], bytes[i + 3])),
                            },
                            i + 4,
                        ),
                    )
                }
            }
        } else {
            // A cleared discriminant bit codes a depth-7 solid leaf: three
            // position elements in this byte, four in the next.
            if i + 2 > bytes.len() {
                None
            } else {
                let b1 = bytes[i + 1];
                let pos = seq![
                    (b / 16) % 4,
                    (b / 4) % 4,
                    b % 4,
                    (b1 / 64) % 4,
                    (b1 / 16) % 4,
                    (b1 / 4) % 4,
                    b1 % 4,
                ];
                Some((LeafModel { pos, data: LeafData::Feature(feature) }, i + 2))
            }
        }
    }
}

/// All leaves of a V1 packet run from byte `i` on.
pub open spec fn v1_leaves(bytes: Seq<u8>, i: int, feature: bool) -> Seq<LeafModel>
    decreases bytes.len() - i,
{
    match v1_next(bytes, i, feature) {
        None => Seq::empty(),
        Some((lm, j)) => seq![lm] + v1_leaves(bytes, j, feature),
    }
}

/// The two-bit code at index `k` of a byte-packed code stream, high bits
/// first within each byte.
pub open spec fn code_at(bytes: Seq<u8>, k: int) -> u8 {
    let b = bytes[k / 4];
    if k % 4 == 0 {
        (b / 64) % 4
    } else if k % 4 == 1 {
        (b / 16) % 4
    } else if k % 4 == 2 {
        (b / 4) % 4
    } else {
        b % 4
    }
}

/// The next leaf of a V2 code stream from code `k` with position counter
/// `pos`: empty nodes advance the counter, branches descend, and a solid
/// leaf is yielded with the counter advanced past it.  A descent below the
/// greatest depth ends the run.
pub open spec fn v2_next(bytes: Seq<u8>, k: int, pos: Seq<u8>) -> Option<(LeafModel, int, Seq<u8>)>
    decreases 4 * bytes.len() - k,
{
    if !(0 <= k < 4 * bytes.len()) {
        None
    } else {
        let c = code_at(bytes, k);
        if c == 0 {
            v2_next(bytes, k + 1, advance(pos))
        } else if c == 1 {
            if pos.len() >= 7 {
                None
            } else {
                v2_next(bytes, k + 1, pos.push(0))
            }
        } else {
            Some((LeafModel { pos, data: LeafData::Feature(c == 3) }, k + 1, advance(pos)))
        }
    }
}

/// A yielded V2 leaf lies strictly further into the code stream.
pub proof fn lemma_v2_next_advances(bytes: Seq<u8>, k: int, pos: Seq<u8>)
    ensures
        v2_next(bytes, k, pos) matches Some((lm, k2, pos2)) ==> k < k2 <= 4 * bytes.len(),
    decreases 4 * bytes.len() - k,
{
    if 0 <= k < 4 * bytes.len() {
        let c = code_at(bytes, k);
        if c == 0 {
            lemma_v2_next_advances(bytes, k + 1, advance(pos));
        } else if c == 1 && pos.len() < 7 {
            lemma_v2_next_advances(bytes, k + 1, pos.push(0));
        }
    }
}

/// All leaves of a V2 code stream from code `k` on.
pub open spec fn v2_leaves(bytes: Seq<u8>, k: int, pos: Seq<u8>) -> Seq<LeafModel>
    decreases 4 * bytes.len() - k
        via v2_leaves_decreases
{
    match v2_next(bytes, k, pos) {
        None => Seq::empty(),
        Some((lm, k2, pos2)) => seq![lm] + v2_leaves(bytes, k2, pos2),
    }
}

#[via_fn]
proof fn v2_leaves_decreases(bytes: Seq<u8>, k: int, pos: Seq<u8>) {
    lemma_v2_next_advances(bytes, k, pos);
}

/// The weight of one position bit: two to the given power.
pub open spec fn bit_weight(e: nat) -> nat {
    if e == 0 {
        1
    } else if e == 1 {
        2
    } else if e == 2 {
        4
    } else if e == 3 {
        8
    } else if e == 4 {
        16
    } else if e == 5 {
        32
    } else {
        64
    }
}

/// The left edge of the region a position names: each element contributes
/// its horizontal bit, weighted from 64 down.
pub open spec fn rect_x(pos: Seq<u8>) -> nat
    decreases pos.len(),
{
    if pos.len() == 0 {
        0
    } else {
        (rect_x(pos.drop_last()) + (if pos.last() % 2 == 1 {
            bit_weight((7 - pos.len()) as nat)
        } else {
            0
        })) as nat
    }
}

/// The top edge of the region a position names: each element contributes
/// its vertical bit, weighted from 64 down.
pub open spec fn rect_y(pos: Seq<u8>) -> nat
    decreases pos.len(),
{
    if pos.len() == 0 {
        0
    } else {
        (rect_y(pos.drop_last()) + (if (pos.last() / 2) % 2 == 1 {
            bit_weight((7 - pos.len()) as nat)
        } else {
            0
        })) as nat
    }
}

/// The side of the square a position of the given depth names.
pub open spec fn rect_side(depth: nat) -> nat {
    if depth == 0 {
        128
    } else if depth == 1 {
        64
    } else if depth == 2 {
        32
    } else if depth == 3 {
        16
    } else if depth == 4 {
        8
    } else if depth == 5 {
        4
    } else if depth == 6 {
        2
    } else {
        1
    }
}

/// The square region a position names.
pub open spec fn rect_of(pos: Seq<u8>) -> Rect {
    Rect {
        x: rect_x(pos) as usize,
        y: rect_y(pos) as usize,
        w: rect_side(pos.len()) as usize,
        h: rect_side(pos.len()) as usize,
    }
}

/// Position edges stay below 128.
pub proof fn lemma_rect_bound(pos: Seq<u8>)
    requires
        pos.len() <= 7,
    ensures
        rect_x(pos) + rect_side(pos.len()) <= 128,
        rect_y(pos) + rect_side(pos.len()) <= 128,
    decreases pos.len(),
{
    if pos.len() > 0 {
        lemma_rect_bound(pos.drop_last());
    }
}

/// The pixel grid after painting one leaf: a solid leaf fills its square,
/// a tile leaf draws its 16 pixels at the square's top-left corner.
pub open spec fn paint_leaf(v: Seq<bool>, lm: LeafModel) -> Seq<bool> {
    let r = rect_of(lm.pos);
    match lm.data {
        LeafData::Feature(c) => paint_rect(v, r.x as int, r.y as int, r.w as int, r.h as int, c),
        LeafData::Bitmap(t) => paint_tile(v, t, r.x as int, r.y as int),
    }
}

/// The pixel grid after painting a run of leaves in order.
pub open spec fn apply_leaves(v: Seq<bool>, ls: Seq<LeafModel>) -> Seq<bool>
    decreases ls.len(),
{
    if ls.len() == 0 {
        v
    } else {
        apply_leaves(paint_leaf(v, ls.first()), ls.drop_first())
    }
}

/// Painting a run and one more leaf is painting the run, then the leaf.
pub proof fn lemma_apply_push(v: Seq<bool>, ls: Seq<LeafModel>, x: LeafModel)
    ensures
        apply_leaves(v, ls.push(x)) == paint_leaf(apply_leaves(v, ls), x),
    decreases ls.len(),
{
    if ls.len() == 0 {
        assert(ls.push(x).drop_first() =~= Seq::<LeafModel>::empty());
        assert(ls.push(x).first() == x);
        assert(apply_leaves(v, ls.push(x)) == apply_leaves(
            paint_leaf(v, x),
            Seq::<LeafModel>::empty(),
        ));
        assert(apply_leaves(paint_leaf(v, x), Seq::<LeafModel>::empty()) == paint_leaf(v, x));
        assert(apply_leaves(v, ls) == v);
    } else {
        assert(ls.push(x).first() == ls.first());
        assert(ls.push(x).drop_first() =~= ls.drop_first().push(x));
        assert(apply_leaves(v, ls.push(x)) == apply_leaves(
            paint_leaf(v, ls.first()),
            ls.drop_first().push(x),
        ));
        lemma_apply_push(paint_leaf(v, ls.first()), ls.drop_first(), x);
        assert(apply_leaves(v, ls) == apply_leaves(paint_leaf(v, ls.first()), ls.drop_first()));
    }
}

impl Leaf {
    /// The square region this leaf paints; at depth 0 the logical square
    /// is 128 wide and clipped by the canvas when painted.
    pub fn bounding_box(&self) -> (r: Rect)
        ensures
            r == rect_of(self.pos_view()),
            r.x + r.w <= 128,
            r.y + r.h <= 128,
    {
        let ghost pv = self.pos_view();
        let depth = pos_len(&self.pos);
        let mut x: usize = 0;
        let mut y: usize = 0;
        let mut i: usize = 0;
        proof {
            lemma_rect_bound(pv);
        }
        while i < depth
            invariant
                0 <= i <= depth,
                depth == pv.len() <= 7,
                pv == self.pos_view(),
                x == rect_x(pv.take(i as int)),
                y == rect_y(pv.take(i as int)),
                x <= 127,
                y <= 127,
            decreases depth - i,
        {
            let p = pos_get(&self.pos, i);
            let wgt = bit_weight_at(6 - i);
            proof {
                assert(pv.take(i + 1).drop_last() =~= pv.take(i as int));
                assert(pv.take(i + 1).last() == pv[i as int]);
                lemma_rect_bound(pv.take(i + 1));
            }
            if p % 2 == 1 {
                x += wgt;
            }
            if (p / 2) % 2 == 1 {
                y += wgt;
            }
            i += 1;
        }
        proof {
            assert(pv.take(depth as int) =~= pv);
        }
        let side = rect_side_at(depth);
        Rect { x, y, w: side, h: side }
    }

    /// Paints the leaf into the framebuffer, clipped by the canvas.
    pub fn draw(&self, fb: &mut Framebuffer)
        ensures
            final(fb).view() == paint_leaf(old(fb).view(), self.model()),
    {
        let rect = self.bounding_box();
        match self.data {
            LeafData::Feature(f) => {
                let w = if rect.x >= 128 {
                    0
                } else if rect.x + rect.w > 128 {
                    128 - rect.x
                } else {
                    rect.w
                };
                let h = if rect.y >= 64 {
                    0
                } else if rect.y + rect.h > 64 {
                    64 - rect.y
                } else {
                    rect.h
                };
                if rect.y < 64 {
                    fb.fill_rect(rect.x, rect.y, w, h, f);
                }
                proof {
                    assert forall|i: int| 0 <= i < 8192 implies 0 <= #[trigger] (i % 128) < 128 && 0
                        <= i / 128 < 64 by {
                        assert(i == (i / 128) * 128 + (i % 128));
                    }
                    assert(fb.view() =~= paint_leaf(old(fb).view(), self.model()));
                }
            },
            LeafData::Bitmap(t) => {
                fb.draw_tile(t, rect.x, rect.y);
            },
        }
    }
}

/// The weight of the position bit at the given power of two.
fn bit_weight_at(e: usize) -> (r: usize)
    requires
        e <= 6,
    ensures
        r == bit_weight(e as nat),
{
    match e {
        0 => 1,
        1 => 2,
        2 => 4,
        3 => 8,
        4 => 16,
        5 => 32,
        _ => 64,
    }
}

/// The side of the square at the given depth.
fn rect_side_at(depth: usize) -> (r: usize)
    requires
        depth <= 7,
    ensures
        r == rect_side(depth as nat),
{
    match depth {
        0 => 128,
        1 => 64,
        2 => 32,
        3 => 16,
        4 => 8,
        5 => 4,
        6 => 2,
        _ => 1,
    }
}

/// The pixel grid a V1 payload leaves behind: unless the header says the
/// payload is partial, the canvas is first cleared to the inactive colour;
/// then every packet's leaf is painted in order.
pub open spec fn v1_apply(v: Seq<bool>, tail: Seq<u8>, meta: FrameMeta) -> Seq<bool> {
    let init = if meta.partial {
        v
    } else {
        Seq::new(8192, |i: int| !meta.active_feature)
    };
    apply_leaves(init, v1_leaves(tail, 0, meta.active_feature))
}

/// The pixel grid a V2 payload leaves behind: nothing is cleared, every
/// yielded leaf is painted in order.
pub open spec fn v2_apply(v: Seq<bool>, bytes: Seq<u8>) -> Seq<bool> {
    apply_leaves(v, v2_leaves(bytes, 0, Seq::empty()))
}

/// A parsed V1 payload: its header and the packet bytes after it.
#[derive(Debug, PartialEq, Clone, Copy)]
pub struct LeafParserV1<'a> {
    pub buf: &'a [u8],
    pub meta: FrameMeta,
}

impl<'a> LeafParserV1<'a> {
    /// Splits a payload into its header byte and the packets; an empty
    /// payload or a header byte above 7 is an invalid header.
    pub fn new(buf: &'a [u8]) -> (r: Result<Self, ParseError>)
        ensures
            buf@.len() == 0 ==> r == Err::<Self, ParseError>(ParseError::InvalidHeader),
            buf@.len() > 0 && buf@[0] > 7 ==> r == Err::<Self, ParseError>(
                ParseError::InvalidHeader,
            ),
            buf@.len() > 0 && buf@[0] <= 7 ==> (r matches Ok(p) && p.meta == meta_of_byte(
                buf@[0],
            ) && p.buf@ == buf@.skip(1)),
    {
        if buf.len() < 1 {
            return Err(ParseError::InvalidHeader);
        }
        let b0 = *vstd::slice::slice_index_get(buf, 0);
        match FrameMeta::try_from_byte(b0) {
            Ok(meta) => {
                let tail = vstd::slice::slice_subrange(buf, 1, buf.len());
                proof {
                    assert(tail@ =~= buf@.skip(1));
                }
                Ok(Self { buf: tail, meta })
            },
            Err(e) => Err(e),
        }
    }

    /// `new`, under the name the V2 parser also offers.
    pub fn from_buf(buf: &'a [u8]) -> (r: Result<Self, ParseError>)
        ensures
            buf@.len() == 0 ==> r == Err::<Self, ParseError>(ParseError::InvalidHeader),
            buf@.len() > 0 && buf@[0] > 7 ==> r == Err::<Self, ParseError>(
                ParseError::InvalidHeader,
            ),
            buf@.len() > 0 && buf@[0] <= 7 ==> (r matches Ok(p) && p.meta == meta_of_byte(
                buf@[0],
            ) && p.buf@ == buf@.skip(1)),
    {
        Self::new(buf)
    }

    /// The iterator over the payload's leaves.
    pub fn iter(&self) -> (r: LeafParserIterV1<'a>)
        ensures
            r.buf@ == self.buf@,
            r.index == 0,
            r.feature == self.meta.active_feature,
    {
        LeafParserIterV1 { buf: self.buf, index: 0, feature: self.meta.active_feature }
    }

    /// Whether the frame is complete after this payload.
    pub fn flush_after(&self) -> (r: bool)
        ensures
            r == self.meta.display,
    {
        self.meta.display
    }

    /// The colour to clear the canvas to before painting, if any.
    pub fn clear_framebuffer(&self) -> (r: Option<bool>)
        ensures
            r == (if self.meta.partial {
                None::<bool>
            } else {
                Some(!self.meta.active_feature)
            }),
    {
        if !self.meta.partial {
            Some(!self.meta.active_feature)
        } else {
            None
        }
    }

    /// Paints the payload into the framebuffer.
    pub fn draw_onto(&self, fb: &mut Framebuffer)
        requires
            self.buf@.len() <= 0x1000_0000,
        ensures
            final(fb).view() == v1_apply(old(fb).view(), self.buf@, self.meta),
    {
        match self.clear_framebuffer() {
            Some(c) => {
                fb.clear(c);
            },
            None => {},
        }
        let ghost init = fb.view();
        let feature = self.meta.active_feature;
        let mut it = self.iter();
        let ghost mut done: Seq<LeafModel> = Seq::empty();
        loop
            invariant_except_break
                v1_leaves(self.buf@, 0, feature) == done + v1_leaves(
                    self.buf@,
                    it.index as int,
                    feature,
                ),
            invariant
                it.buf@ == self.buf@,
                it.feature == feature,
                feature == self.meta.active_feature,
                self.buf@.len() <= 0x1000_0000,
                it.index <= 0x1000_0001,
                fb.view() == apply_leaves(init, done),
            ensures
                done == v1_leaves(self.buf@, 0, feature),
            decreases self.buf@.len() + 1 - it.index,
        {
            let ghost at = it.index as int;
            match it.next() {
                None => {
                    proof {
                        assert(done =~= v1_leaves(self.buf@, 0, feature));
                    }
                    break ;
                },
                Some(leaf) => {
                    let ghost lm = leaf.model();
                    leaf.draw(fb);
                    proof {
                        lemma_apply_push(init, done, lm);
                        assert(v1_leaves(self.buf@, at, feature) == seq![lm] + v1_leaves(
                            self.buf@,
                            it.index as int,
                            feature,
                        ));
                        done = done.push(lm);
                        assert(done + v1_leaves(self.buf@, it.index as int, feature)
                            =~= (done.drop_last() + (seq![lm] + v1_leaves(
                            self.buf@,
                            it.index as int,
                            feature,
                        ))));
                    }
                },
            }
        }
    }
}

/// The packet-by-packet iterator of a V1 payload.
#[derive(Debug, Clone, Copy)]
pub struct LeafParserIterV1<'a> {
    pub buf: &'a [u8],
    pub index: usize,
    pub feature: bool,
}

impl<'a> LeafParserIterV1<'a> {
    /// Parses the next packet; a packet that runs off the end of the
    /// payload ends the run.
    pub fn next(&mut self) -> (r: Option<Leaf>)
        requires
            old(self).buf@.len() <= 0x1000_0000,
            old(self).index <= 0x1000_0001,
        ensures
            final(self).buf == old(self).buf,
            final(self).feature == old(self).feature,
            match v1_next(old(self).buf@, old(self).index as int, old(self).feature) {
                None => r is None && final(self).index == old(self).index,
                Some((lm, j)) => {
                    &&& r matches Some(lf) && lf.data == lm.data && lf.pos_view() == lm.pos
                    &&& final(self).index == j
                },
            },
    {
        let i = self.index;
        if i >= self.buf.len() {
            return None;
        }
        let b = *vstd::slice::slice_index_get(self.buf, i);
        if b >= 128 {
            let depth = (b / 16) % 8;
            let mut pos = pos_new();
            let r0 = pos_push(&mut pos, (b / 4) % 4);
            let r1 = pos_push(&mut pos, b % 4);
            pos_truncate(&mut pos, depth as usize);
            if depth <= 2 {
                self.index = i + 1;
                proof {
                    assert(pos_seq(pos) =~= seq![(b / 4) % 4, b % 4].take(depth as int));
                }
                return Some(Leaf::new(LeafData::Feature(self.feature), pos));
            }
            if i + 1 >= self.buf.len() {
                return None;
            }
            let b1 = *vstd::slice::slice_index_get(self.buf, i + 1);
            let extra: usize = if depth <= 5 {
                (depth - 2) as usize
            } else {
                3
            };
            if extra >= 1 {
                let r2 = pos_push(&mut pos, (b1 / 64) % 4);
            }
            if extra >= 2 {
                let r3 = pos_push(&mut pos, (b1 / 16) % 4);
            }
            if extra >= 3 {
                let r4 = pos_push(&mut pos, (b1 / 4) % 4);
            }
            proof {
                let head2 = seq![(b / 4) % 4, b % 4];
                let more = seq![(b1 / 64) % 4, (b1 / 16) % 4, (b1 / 4) % 4];
                assert(pos_seq(pos) =~= head2 + more.take(extra as int));
            }
            if depth < 6 {
                self.index = i + 2;
                return Some(Leaf::new(LeafData::Feature(self.feature), pos));
            }
            if i + 4 > self.buf.len() {
                return None;
            }
            let t0 = *vstd::slice::slice_index_get(self.buf, i + 2);
            let t1 = *vstd::slice::slice_index_get(self.buf, i + 3);
            let mut tile = [0u8; 2];
            tile[0] = t0;
            tile[1] = t1;
            proof {
                vstd::array::lemma_array_index(tile, 0);
                vstd::array::lemma_array_index(tile, 1);
                assert(tile@ =~= two_bytes(t0, t1)@);
                assert(tile =~= two_bytes(t0, t1));
            }
            self.index = i + 4;
            Some(Leaf::new(LeafData::Bitmap(tile), pos))
        } else {
            if i + 1 >= self.buf.len() {
                return None;
            }
            let b1 = *vstd::slice::slice_index_get(self.buf, i + 1);
            let mut pos = pos_new();
            let r0 = pos_push(&mut pos, (b / 16) % 4);
            let r1 = pos_push(&mut pos, (b / 4) % 4);
            let r2 = pos_push(&mut pos, b % 4);
            let r3 = pos_push(&mut pos, (b1 / 64) % 4);
            let r4 = pos_push(&mut pos, (b1 / 16) % 4);
            let r5 = pos_push(&mut pos, (b1 / 4) % 4);
            let r6 = pos_push(&mut pos, b1 % 4);
            proof {
                assert(pos_seq(pos) =~= seq![
                    (b / 16) % 4,
                    (b / 4) % 4,
                    b % 4,
                    (b1 / 64) % 4,
                    (b1 / 16) % 4,
                    (b1 / 4) % 4,
                    b1 % 4,
                ]);
            }
            self.index = i + 2;
            Some(Leaf::new(LeafData::Feature(self.feature), pos))
        }
    }
}

/// A parsed V2 payload: the raw code-stream bytes.
#[derive(Debug, PartialEq, Clone, Copy)]
pub struct LeafParserV2<'a> {
    pub buf: &'a [u8],
}

impl<'a> LeafParserV2<'a> {
    /// Wraps a payload; every byte run is a valid V2 payload.
    pub fn from_buf(buf: &'a [u8]) -> (r: Result<Self, ParseError>)
        ensures
            r matches Ok(p) && p.buf@ == buf@,
    {
        Ok(Self { buf })
    }

    /// The iterator over the payload's leaves.
    pub fn iter(&self) -> (r: LeafParserIterV2<'a>)
        ensures
            r.buf@ == self.buf@,
            r.k == 0,
            pos_seq(r.pos) == Seq::<u8>::empty(),
    {
        LeafParserIterV2 { buf: self.buf, k: 0, pos: pos_new() }
    }

    /// A V2 payload always completes a frame.
    pub fn flush_after(&self) -> (r: bool)
        ensures
            r == true,
    {
        true
    }

    /// A V2 payload never clears the canvas.
    pub fn clear_framebuffer(&self) -> (r: Option<bool>)
        ensures
            r is None,
    {
        None
    }

    /// Paints the payload into the framebuffer.
    pub fn draw_onto(&self, fb: &mut Framebuffer)
        requires
            self.buf@.len() <= 0x1000_0000,
        ensures
            final(fb).view() == v2_apply(old(fb).view(), self.buf@),
    {
        let ghost init = fb.view();
        let mut it = self.iter();
        let ghost mut done: Seq<LeafModel> = Seq::empty();
        loop
            invariant_except_break
                v2_leaves(self.buf@, 0, Seq::empty()) == done + v2_leaves(
                    self.buf@,
                    it.k as int,
                    pos_seq(it.pos),
                ),
            invariant
                it.buf@ == self.buf@,
                self.buf@.len() <= 0x1000_0000,
                pos_seq(it.pos).len() <= 7,
                0 <= it.k,
                fb.view() == apply_leaves(init, done),
            ensures
                done == v2_leaves(self.buf@, 0, Seq::empty()),
            decreases 4 * self.buf@.len() + 1 - it.k,
        {
            let ghost at = it.k as int;
            let ghost atpos = pos_seq(it.pos);
            proof {
                lemma_v2_next_advances(self.buf@, at, atpos);
            }
            match it.next() {
                None => {
                    proof {
                        assert(done =~= v2_leaves(self.buf@, 0, Seq::empty()));
                    }
                    break ;
                },
                Some(leaf) => {
                    let ghost lm = leaf.model();
                    leaf.draw(fb);
                    proof {
                        lemma_apply_push(init, done, lm);
                        assert(v2_leaves(self.buf@, at, atpos) == seq![lm] + v2_leaves(
                            self.buf@,
                            it.k as int,
                            pos_seq(it.pos),
                        ));
                        done = done.push(lm);
                        assert(done + v2_leaves(self.buf@, it.k as int, pos_seq(it.pos))
                            =~= (done.drop_last() + (seq![lm] + v2_leaves(
                            self.buf@,
                            it.k as int,
                            pos_seq(it.pos),
                        ))));
                    }
                },
            }
        }
    }
}

/// The code-by-code iterator of a V2 payload.
#[derive(Debug)]
pub struct LeafParserIterV2<'a> {
    pub buf: &'a [u8],
    pub k: usize,
    pub pos: Position,
}

impl<'a> Clone for LeafParserIterV2<'a> {
    /// A copy of the iterator in the same state.
    fn clone(&self) -> (r: Self)
        ensures
            r.buf == self.buf,
            r.k == self.k,
            pos_seq(r.pos) == pos_seq(self.pos),
    {
        LeafParserIterV2 { buf: self.buf, k: self.k, pos: pos_clone(&self.pos) }
    }
}

impl<'a> LeafParserIterV2<'a> {
    /// Walks codes until a leaf is yielded or the stream ends.
    pub fn next(&mut self) -> (r: Option<Leaf>)
        requires
            old(self).buf@.len() <= 0x1000_0000,
            pos_seq(old(self).pos).len() <= 7,
        ensures
            final(self).buf == old(self).buf,
            pos_seq(final(self).pos).len() <= 7,
            match v2_next(old(self).buf@, old(self).k as int, pos_seq(old(self).pos)) {
                None => r is None,
                Some((lm, k2, pos2)) => {
                    &&& r matches Some(lf) && lf.data == lm.data && lf.pos_view() == lm.pos
                    &&& final(self).k == k2
                    &&& pos_seq(final(self).pos) == pos2
                },
            },
    {
        loop
            invariant
                self.buf == old(self).buf,
                self.buf@.len() <= 0x1000_0000,
                pos_seq(self.pos).len() <= 7,
                0 <= self.k,
                v2_next(old(self).buf@, old(self).k as int, pos_seq(old(self).pos)) == v2_next(
                    self.buf@,
                    self.k as int,
                    pos_seq(self.pos),
                ),
            decreases 4 * self.buf@.len() + 1 - self.k,
        {
            if self.k / 4 >= self.buf.len() {
                return None;
            }
            let b = *vstd::slice::slice_index_get(self.buf, self.k / 4);
            let sel = self.k % 4;
            let c: u8 = if sel == 0 {
                (b / 64) % 4
            } else if sel == 1 {
                (b / 16) % 4
            } else if sel == 2 {
                (b / 4) % 4
            } else {
                b % 4
            };
            proof {
                assert(self.k < 4 * self.buf@.len());
                assert(c == code_at(self.buf@, self.k as int));
            }
            if c == 0 {
                let ghost p0 = pos_seq(self.pos);
                let adv = next_pos(&mut self.pos);
                proof {
                    crate::pos::lemma_advance_len(p0);
                }
                self.k = self.k + 1;
            } else if c == 1 {
                if pos_len(&self.pos) >= 7 {
                    return None;
                }
                let rp = pos_push(&mut self.pos, 0);
                self.k = self.k + 1;
            } else {
                let leaf = Leaf::new(LeafData::Feature(c == 3), pos_clone(&self.pos));
                let ghost p0 = pos_seq(self.pos);
                let adv = next_pos(&mut self.pos);
                proof {
                    crate::pos::lemma_advance_len(p0);
                }
                self.k = self.k + 1;
                return Some(leaf);
            }
        }
    }
}


/// Law: a packet written for a storable leaf parses back to the same leaf,
/// wherever it stands in a payload, and consumes exactly its own bytes.
/// Solid leaves parse back under the payload colour they were listed for.
pub proof fn lemma_packet_roundtrip(
    bytes: Seq<u8>,
    i: int,
    pos: Seq<u8>,
    data: LeafData,
    feature: bool,
)
    requires
        pos.len() <= 5,
        forall|k: int| 0 <= k < pos.len() ==> pos[k] <= 3,
        data is Bitmap ==> pos.len() == 5,
        data matches LeafData::Feature(f) ==> f == feature,
        0 <= i,
        i + leaf_packet(pos, data).len() <= bytes.len(),
        bytes.subrange(i, i + leaf_packet(pos, data).len()) == leaf_packet(pos, data),
    ensures
        v1_next(bytes, i, feature) == Some(
            (LeafModel { pos, data }, i + leaf_packet(pos, data).len()),
        ),
{
    let pkt = leaf_packet(pos, data);
    let d = packet_depth(pos, data);
    let p0 = pos_at(pos, 0);
    let p1 = pos_at(pos, 1);
    assert(d <= 6);
    assert(p0 <= 3 && p1 <= 3);
    let b = bytes[i];
    assert(b == pkt[0]);
    assert(pkt[0] == packet_byte0(pos, data));
    assert(128 + d * 16 + p0 * 4 + p1 <= 255);
    assert(b == 128 + d * 16 + p0 * 4 + p1);
    assert(b >= 128);
    assert(b / 16 == 8 + d) by {
        assert(b == 16 * (8 + d) + (p0 * 4 + p1));
        assert(0 <= p0 * 4 + p1 < 16);
    }
    assert((b / 16) % 8 == d);
    assert((b / 4) % 4 == p0) by {
        assert(b == 4 * (32 + d * 4 + p0) + p1);
        assert(0 <= p1 < 4);
        assert(b / 4 == 32 + d * 4 + p0);
    }
    assert(b % 4 == p1) by {
        assert(b == 4 * (32 + d * 4 + p0) + p1);
        assert(0 <= p1 < 4);
    }
    let head2 = seq![(b / 4) % 4, b % 4];
    if pos.len() <= 2 && data is Feature {
        assert(d == pos.len());
        assert(pkt.len() == 1);
        assert(head2.take(d as int) =~= pos);
        assert(v1_next(bytes, i, feature) == Some(
            (LeafModel { pos, data }, i + 1),
        ));
    } else {
        // two position bytes on the wire
        assert(pkt[1] == packet_byte1(pos));
        let b1 = bytes[i + 1];
        assert(b1 == pkt[1]);
        let p2 = pos_at(pos, 2);
        let p3 = pos_at(pos, 3);
        let p4 = pos_at(pos, 4);
        assert(p2 <= 3 && p3 <= 3 && p4 <= 3);
        assert(b1 == p2 * 64 + p3 * 16 + p4 * 4);
        assert((b1 / 64) % 4 == p2) by {
            assert(b1 == 64 * p2 + (p3 * 16 + p4 * 4));
            assert(0 <= p3 * 16 + p4 * 4 < 64);
        }
        assert((b1 / 16) % 4 == p3) by {
            assert(b1 == 16 * (p2 * 4 + p3) + p4 * 4);
            assert(0 <= p4 * 4 < 16);
            assert(b1 / 16 == p2 * 4 + p3);
        }
        assert((b1 / 4) % 4 == p4) by {
            assert(b1 == 4 * (p2 * 16 + p3 * 4 + p4));
            assert(b1 / 4 == p2 * 16 + p3 * 4 + p4);
        }
        let more = seq![(b1 / 64) % 4, (b1 / 16) % 4, (b1 / 4) % 4];
        match data {
            LeafData::Feature(_) => {
                assert(d == pos.len() && 3 <= d <= 5);
                assert(pkt.len() == 2);
                assert(head2 + more.take(d as int - 2) =~= pos);
                assert(v1_next(bytes, i, feature) == Some(
                    (LeafModel { pos, data }, i + 2),
                ));
            },
            LeafData::Bitmap(t) => {
                assert(d == 6 && pos.len() == 5);
                assert(pkt.len() == 4);
                assert(head2 + more.take(3) =~= pos);
                assert(bytes[i + 2] == pkt[2] && bytes[i + 3] == pkt[3]);
                assert(pkt[2] == t[0] && pkt[3] == t[1]);
                assert(two_bytes(t[0], t[1])@ =~= t@);
                assert(two_bytes(t[0], t[1]) =~= t);
                assert(v1_next(bytes, i, feature) == Some(
                    (LeafModel { pos, data }, i + 4),
                ));
            },
        }
    }
}


/// The leaves of a run that a payload with the given active colour lists,
/// in order.
pub open spec fn listed_models(s: Seq<LeafModel>, feat: bool) -> Seq<LeafModel>
    decreases s.len(),
{
    if s.len() == 0 {
        Seq::empty()
    } else {
        (if leaf_listed(s.first().data, feat) {
            seq![s.first()]
        } else {
            Seq::<LeafModel>::empty()
        }) + listed_models(s.drop_first(), feat)
    }
}

/// Law: parsing the packet run of a storable leaf list returns exactly the
/// listed leaves, in order.  Together with the header round trip this is
/// the V1 wire round trip at the leaf level.
pub proof fn lemma_v1_payload_roundtrip(s: Seq<LeafModel>, feat: bool, bytes: Seq<u8>, i: int)
    requires
        v1_storable(s),
        bitmaps_at_five(s),
        0 <= i,
        bytes.len() == i + packets_of(s, feat).len(),
        bytes.subrange(i, bytes.len() as int) == packets_of(s, feat),
    ensures
        v1_leaves(bytes, i, feat) == listed_models(s, feat),
    decreases s.len(),
{
    if s.len() == 0 {
        assert(v1_next(bytes, i, feat) is None);
        assert(v1_leaves(bytes, i, feat) =~= listed_models(s, feat));
    } else {
        let first = s.first();
        let rest = s.drop_first();
        lemma_packets_front(s, feat);
        assert(v1_storable(rest) && bitmaps_at_five(rest)) by {
            assert(forall|k: int| 0 <= k < rest.len() ==> rest[k] == s[k + 1]);
        }
        if leaf_listed(first.data, feat) {
            let pkt = leaf_packet(first.pos, first.data);
            assert(first.pos.len() <= 5 && (first.data is Bitmap ==> first.pos.len() == 5)) by {
                assert(s[0] == first);
            }
            assert(forall|k: int| 0 <= k < first.pos.len() ==> first.pos[k] <= 3) by {
                assert(s[0] == first);
            }
            assert(bytes.subrange(i, i + pkt.len()) =~= pkt);
            assert(first.data matches LeafData::Feature(f) ==> f == feat);
            lemma_packet_roundtrip(bytes, i, first.pos, first.data, feat);
            assert forall|j: int|
                0 <= j < packets_of(rest, feat).len() implies bytes[i + pkt.len() + j]
                == packets_of(rest, feat)[j] by {
                assert(bytes.subrange(i, bytes.len() as int)[pkt.len() + j] == packets_of(
                    s,
                    feat,
                )[pkt.len() + j]);
            }
            assert(bytes.subrange(i + pkt.len(), bytes.len() as int) =~= packets_of(rest, feat));
            lemma_v1_payload_roundtrip(rest, feat, bytes, i + pkt.len());
            assert(v1_next(bytes, i, feat) == Some(
                (LeafModel { pos: first.pos, data: first.data }, i + pkt.len()),
            ));
            assert(LeafModel { pos: first.pos, data: first.data } == first);
            assert(v1_leaves(bytes, i, feat) =~= listed_models(s, feat));
        } else {
            assert(packets_of(s, feat) =~= packets_of(rest, feat));
            assert(bytes.subrange(i, bytes.len() as int) =~= packets_of(rest, feat));
            lemma_v1_payload_roundtrip(rest, feat, bytes, i);
            assert(v1_leaves(bytes, i, feat) =~= listed_models(s, feat));
        }
    }
}


/// Whether two rectangles share no pixel.
pub open spec fn rects_disjoint(a: Rect, b: Rect) -> bool {
    ||| a.x + a.w <= b.x
    ||| b.x + b.w <= a.x
    ||| a.y + a.h <= b.y
    ||| b.y + b.h <= a.y
}

/// Law: the region of a well-formed position below one of the two root
/// halves lies inside the 128x64 canvas.
pub proof fn lemma_rect_in_canvas(pos: Seq<u8>)
    requires
        pos_wf(pos),
        pos.len() >= 1,
        pos[0] <= 1,
    ensures
        rect_x(pos) + rect_side(pos.len()) <= 128,
        rect_y(pos) + rect_side(pos.len()) <= 64,
    decreases pos.len(),
{
    lemma_rect_bound(pos);
    if pos.len() == 1 {
        assert(pos.last() == pos[0]);
        assert(pos.drop_last() =~= Seq::<u8>::empty());
        assert(rect_y(Seq::<u8>::empty()) == 0);
        assert((pos.last() / 2) % 2 == 0);
        assert(rect_y(pos) == 0);
    } else {
        assert(pos.drop_last()[0] == pos[0]);
        lemma_rect_in_canvas(pos.drop_last());
        assert(rect_side(((pos.len() - 1) as nat)) == 2 * rect_side(pos.len()));
        assert(rect_y(pos) <= rect_y(pos.drop_last()) + bit_weight((7 - pos.len()) as nat));
        assert(bit_weight((7 - pos.len()) as nat) == rect_side(pos.len()));
    }
}

/// Dropping the last position element widens the region around it.
proof fn lemma_rect_step(s: Seq<u8>)
    requires
        1 <= s.len() <= 7,
    ensures
        rect_x(s.drop_last()) <= rect_x(s),
        rect_x(s) + rect_side(s.len()) <= rect_x(s.drop_last()) + rect_side((s.len() - 1) as nat),
        rect_y(s.drop_last()) <= rect_y(s),
        rect_y(s) + rect_side(s.len()) <= rect_y(s.drop_last()) + rect_side((s.len() - 1) as nat),
{
}

/// A position's region lies inside the region of each of its prefixes.
proof fn lemma_rect_nested(s: Seq<u8>, m: int)
    requires
        0 <= m <= s.len() <= 7,
    ensures
        rect_x(s.take(m)) <= rect_x(s),
        rect_x(s) + rect_side(s.len()) <= rect_x(s.take(m)) + rect_side(m as nat),
        rect_y(s.take(m)) <= rect_y(s),
        rect_y(s) + rect_side(s.len()) <= rect_y(s.take(m)) + rect_side(m as nat),
    decreases s.len() - m,
{
    if m == s.len() {
        assert(s.take(m) =~= s);
    } else {
        lemma_rect_step(s);
        assert(s.drop_last().take(m) =~= s.take(m));
        lemma_rect_nested(s.drop_last(), m);
    }
}

/// Two different children of one branch name disjoint regions.
proof fn lemma_sibling_disjoint(p: Seq<u8>, qa: u8, qb: u8)
    requires
        p.len() <= 6,
        qa <= 3,
        qb <= 3,
        qa != qb,
    ensures
        rects_disjoint(rect_of(p.push(qa)), rect_of(p.push(qb))),
{
    let a = p.push(qa);
    let b = p.push(qb);
    assert(a.drop_last() =~= p);
    assert(b.drop_last() =~= p);
    assert(a.last() == qa && b.last() == qb);
    let w = bit_weight((7 - a.len()) as nat);
    assert(rect_side(a.len()) == w);
    lemma_rect_bound(a);
    lemma_rect_bound(b);
    assert(rect_x(a) <= 127 && rect_x(b) <= 127 && rect_y(a) <= 127 && rect_y(b) <= 127);
    if qa % 2 != qb % 2 {
        assert(rect_x(a) + w <= rect_x(b) || rect_x(b) + w <= rect_x(a));
    } else {
        assert((qa / 2) % 2 != (qb / 2) % 2) by {
            assert(qa == 2 * (qa / 2) + qa % 2 && qb == 2 * (qb / 2) + qb % 2);
            assert(qa / 2 <= 1 && qb / 2 <= 1);
        }
        assert(rect_y(a) + w <= rect_y(b) || rect_y(b) + w <= rect_y(a));
    }
}

/// Law: the regions of two well-formed positions, neither a prefix of the
/// other, are disjoint -- sibling leaves never paint the same pixel.
pub proof fn lemma_position_rects_disjoint(a: Seq<u8>, b: Seq<u8>)
    requires
        pos_wf(a),
        pos_wf(b),
        !(a.len() <= b.len() && b.take(a.len() as int) == a),
        !(b.len() <= a.len() && a.take(b.len() as int) == b),
    ensures
        rects_disjoint(rect_of(a), rect_of(b)),
{
    assert(a.take(0) =~= b.take(0));
    lemma_rects_disjoint_from(a, b, 0);
}

/// The working induction behind the disjointness law: the two positions
/// agree on their first `k` elements.
proof fn lemma_rects_disjoint_from(a: Seq<u8>, b: Seq<u8>, k: int)
    requires
        pos_wf(a),
        pos_wf(b),
        0 <= k <= a.len(),
        k <= b.len(),
        a.take(k) == b.take(k),
        !(a.len() <= b.len() && b.take(a.len() as int) == a),
        !(b.len() <= a.len() && a.take(b.len() as int) == b),
    ensures
        rects_disjoint(rect_of(a), rect_of(b)),
    decreases a.len() - k,
{
    assert(k < a.len()) by {
        if k == a.len() {
            assert(b.take(a.len() as int) =~= a);
        }
    }
    assert(k < b.len()) by {
        if k == b.len() {
            assert(a.take(b.len() as int) =~= b);
        }
    }
    if a[k] == b[k] {
        assert(a.take(k + 1) =~= b.take(k + 1));
        lemma_rects_disjoint_from(a, b, k + 1);
    } else {
        let p = a.take(k);
        assert(a.take(k + 1) =~= p.push(a[k]));
        assert(b.take(k + 1) =~= p.push(b[k]));
        lemma_sibling_disjoint(p, a[k], b[k]);
        lemma_rect_nested(a, k + 1);
        lemma_rect_nested(b, k + 1);
        lemma_rect_bound(a);
        lemma_rect_bound(b);
        lemma_rect_bound(a.take(k + 1));
        lemma_rect_bound(b.take(k + 1));
    }
}


/// Law: a stored full frame parses back.  The payload's first byte parses
/// to the very header it was packed from, and the packet run after it
/// parses to exactly the leaves the payload listed, in order.
pub proof fn lemma_v1_frame_roundtrip(s: Seq<LeafModel>)
    requires
        v1_storable(s),
        bitmaps_at_five(s),
    ensures
        meta_of_byte(v1_full_payload(s)[0]) == (FrameMeta {
            active_feature: v1_active(s),
            partial: false,
            display: true,
        }),
        v1_full_payload(s)[0] <= 7,
        v1_leaves(v1_full_payload(s).skip(1), 0, v1_active(s)) == listed_models(s, v1_active(s)),
{
    let active = v1_active(s);
    let m = FrameMeta { active_feature: active, partial: false, display: true };
    lemma_meta_roundtrip(m);
    let payload = v1_full_payload(s);
    assert(payload[0] == meta_byte(m));
    assert(payload.skip(1) =~= packets_of(s, active));
    assert(payload.skip(1).subrange(0, payload.skip(1).len() as int) =~= payload.skip(1));
    lemma_v1_payload_roundtrip(s, active, payload.skip(1), 0);
}


/// The two-bit code a pair of stream bits stands for.
pub open spec fn code_of(bits: Seq<bool>, j: int) -> u8 {
    ((if bitval(bits, 2 * j) == 1 {
        2u8
    } else {
        0u8
    }) + (if bitval(bits, 2 * j + 1) == 1 {
        1u8
    } else {
        0u8
    })) as u8
}

/// Reading two-bit codes off the packed bytes returns the packed bit
/// pairs; pairs past the end of the stream read as zero codes.
pub proof fn lemma_pack_code(bits: Seq<bool>, k: int)
    requires
        0 <= k,
        k / 4 < pack_bits(bits).len(),
    ensures
        code_at(pack_bits(bits), k) == code_of(bits, k),
{
    let m = k / 4;
    let b = pack_bits(bits)[m];
    assert(b == byte_of_bits(bits, 8 * m));
    let b0 = bitval(bits, 8 * m);
    let b1 = bitval(bits, 8 * m + 1);
    let b2 = bitval(bits, 8 * m + 2);
    let b3 = bitval(bits, 8 * m + 3);
    let b4 = bitval(bits, 8 * m + 4);
    let b5 = bitval(bits, 8 * m + 5);
    let b6 = bitval(bits, 8 * m + 6);
    let b7 = bitval(bits, 8 * m + 7);
    assert(b0 <= 1 && b1 <= 1 && b2 <= 1 && b3 <= 1 && b4 <= 1 && b5 <= 1 && b6 <= 1 && b7 <= 1);
    assert(b == b0 * 128 + b1 * 64 + b2 * 32 + b3 * 16 + b4 * 8 + b5 * 4 + b6 * 2 + b7);
    assert(k == 4 * m + k % 4);
    if k % 4 == 0 {
        assert(2 * k == 8 * m && 2 * k + 1 == 8 * m + 1);
        assert(b / 64 == b0 * 2 + b1) by {
            assert(b == 64 * (b0 * 2 + b1) + (b2 * 32 + b3 * 16 + b4 * 8 + b5 * 4 + b6 * 2 + b7));
            assert(0 <= b2 * 32 + b3 * 16 + b4 * 8 + b5 * 4 + b6 * 2 + b7 < 64);
        }
        assert((b / 64) % 4 == b0 * 2 + b1);
    } else if k % 4 == 1 {
        assert(2 * k == 8 * m + 2 && 2 * k + 1 == 8 * m + 3);
        assert(b / 16 == b0 * 8 + b1 * 4 + b2 * 2 + b3) by {
            assert(b == 16 * (b0 * 8 + b1 * 4 + b2 * 2 + b3) + (b4 * 8 + b5 * 4 + b6 * 2 + b7));
            assert(0 <= b4 * 8 + b5 * 4 + b6 * 2 + b7 < 16);
        }
        assert((b / 16) % 4 == b2 * 2 + b3) by {
            assert(b0 * 8 + b1 * 4 + b2 * 2 + b3 == 4 * (b0 * 2 + b1) + (b2 * 2 + b3));
            assert(0 <= b2 * 2 + b3 < 4);
        }
    } else if k % 4 == 2 {
        assert(2 * k == 8 * m + 4 && 2 * k + 1 == 8 * m + 5);
        assert(b / 4 == b0 * 32 + b1 * 16 + b2 * 8 + b3 * 4 + b4 * 2 + b5) by {
            assert(b == 4 * (b0 * 32 + b1 * 16 + b2 * 8 + b3 * 4 + b4 * 2 + b5) + (b6 * 2 + b7));
            assert(0 <= b6 * 2 + b7 < 4);
        }
        assert((b / 4) % 4 == b4 * 2 + b5) by {
            assert(b0 * 32 + b1 * 16 + b2 * 8 + b3 * 4 + b4 * 2 + b5 == 4 * (b0 * 8 + b1 * 4 + b2
                * 2 + b3) + (b4 * 2 + b5));
            assert(0 <= b4 * 2 + b5 < 4);
        }
    } else {
        assert(2 * k == 8 * m + 6 && 2 * k + 1 == 8 * m + 7);
        assert(b % 4 == b6 * 2 + b7) by {
            assert(b == 4 * (b0 * 32 + b1 * 16 + b2 * 8 + b3 * 4 + b4 * 2 + b5) + (b6 * 2 + b7));
            assert(0 <= b6 * 2 + b7 < 4);
        }
    }
}

/// A stream whose remaining codes are all zero yields no further leaf.
proof fn lemma_zero_codes_end(bytes: Seq<u8>, k: int, pos: Seq<u8>)
    requires
        0 <= k,
        forall|j: int| k <= j < 4 * bytes.len() ==> #[trigger] code_at(bytes, j) == 0,
    ensures
        v2_next(bytes, k, pos) is None,
    decreases 4 * bytes.len() - k,
{
    if 0 <= k < 4 * bytes.len() {
        lemma_zero_codes_end(bytes, k + 1, advance(pos));
    }
}

/// Codes read inside a window of a code run agree with the window's own
/// codes.
proof fn lemma_code_window(bytes: Seq<u8>, k: int, cb: Seq<bool>, sub: Seq<bool>, kw: int)
    requires
        0 <= k <= kw,
        2 * (kw - k) + sub.len() <= cb.len(),
        forall|i: int| 0 <= i < sub.len() ==> cb[2 * (kw - k) + i] == sub[i],
        forall|j: int|
            k <= j && 2 * (j - k) + 1 < cb.len() ==> #[trigger] code_at(bytes, j) == code_of(
                cb,
                j - k,
            ),
    ensures
        forall|j: int|
            kw <= j && 2 * (j - kw) + 1 < sub.len() ==> #[trigger] code_at(bytes, j) == code_of(
                sub,
                j - kw,
            ),
{
    assert forall|j: int| kw <= j && 2 * (j - kw) + 1 < sub.len() implies #[trigger] code_at(
        bytes,
        j,
    ) == code_of(sub, j - kw) by {
        let off = kw - k;
        assert(code_at(bytes, j) == code_of(cb, j - k));
        assert(cb[2 * off + 2 * (j - kw)] == sub[2 * (j - kw)]);
        assert(cb[2 * off + (2 * (j - kw) + 1)] == sub[2 * (j - kw) + 1]);
        assert(2 * (j - k) == 2 * off + 2 * (j - kw));
    }
}

/// The walk of one tree's code run: starting at code `k` with counter
/// `pos`, the decoder yields exactly the tree's leaves at their positions
/// and goes on past the run with the counter advanced once.
#[verifier::rlimit(100)]
proof fn lemma_v2_walk(bytes: Seq<u8>, k: int, t: Node, pos: Seq<u8>)
    requires
        !has_bitmap(t),
        pos.len() + height(t) <= 7,
        0 <= k,
        k + compact_bits(t).len() / 2 <= 4 * bytes.len(),
        forall|j: int|
            k <= j && 2 * (j - k) + 1 < compact_bits(t).len() ==> #[trigger] code_at(bytes, j)
                == code_of(compact_bits(t), j - k),
    ensures
        v2_leaves(bytes, k, pos) == leaves_of(t, pos) + v2_leaves(
            bytes,
            k + compact_bits(t).len() / 2,
            advance(pos),
        ),
    decreases t, 1int,
{
    let cb = compact_bits(t);
    match t {
        Node::Empty => {
            assert(cb =~= seq![false, false]);
            assert(code_at(bytes, k) == code_of(cb, 0));
            assert(code_of(cb, 0) == 0);
            assert(v2_next(bytes, k, pos) == v2_next(bytes, k + 1, advance(pos)));
            assert(v2_leaves(bytes, k, pos) == v2_leaves(bytes, k + 1, advance(pos)));
            assert(leaves_of(t, pos) =~= Seq::<LeafModel>::empty());
            assert(v2_leaves(bytes, k, pos) =~= leaves_of(t, pos) + v2_leaves(
                bytes,
                k + 1,
                advance(pos),
            ));
        },
        Node::Leaf(d) => {
            let v = d->Feature_0;
            assert(cb =~= seq![true, v]);
            assert(code_at(bytes, k) == code_of(cb, 0));
            assert(code_of(cb, 0) == (if v {
                3u8
            } else {
                2u8
            }));
            let lm = LeafModel { pos, data: LeafData::Feature(v) };
            assert(v2_next(bytes, k, pos) == Some((lm, k + 1, advance(pos))));
            assert(leaves_of(t, pos) =~= seq![lm]);
            assert(v2_leaves(bytes, k, pos) =~= leaves_of(t, pos) + v2_leaves(
                bytes,
                k + 1,
                advance(pos),
            ));
        },
        Node::Branch(c0, c1, c2, c3) => {
            lemma_v2_walk_branch(bytes, k, t, pos);
        },
    }
}

/// The branch case of the code-run walk: the four children's runs follow
/// the branch code, and the position counter steps through the quadrants.
#[verifier::spinoff_prover]
#[verifier::rlimit(100)]
proof fn lemma_v2_walk_branch(bytes: Seq<u8>, k: int, t: Node, pos: Seq<u8>)
    requires
        t is Branch,
        !has_bitmap(t),
        pos.len() + height(t) <= 7,
        0 <= k,
        k + compact_bits(t).len() / 2 <= 4 * bytes.len(),
        forall|j: int|
            k <= j && 2 * (j - k) + 1 < compact_bits(t).len() ==> #[trigger] code_at(bytes, j)
                == code_of(compact_bits(t), j - k),
    ensures
        v2_leaves(bytes, k, pos) == leaves_of(t, pos) + v2_leaves(
            bytes,
            k + compact_bits(t).len() / 2,
            advance(pos),
        ),
    decreases t, 0int,
{
    let cb = compact_bits(t);
    match t {
        Node::Branch(c0, c1, c2, c3) => {

            lemma_compact_len(t);
            lemma_compact_len(*c0);
            lemma_compact_len(*c1);
            lemma_compact_len(*c2);
            lemma_compact_len(*c3);
            lemma_preorder_size(*c0);
            lemma_preorder_size(*c1);
            lemma_preorder_size(*c2);
            lemma_preorder_size(*c3);
            let l0 = compact_bits(*c0);
            let l1 = compact_bits(*c1);
            let l2 = compact_bits(*c2);
            let l3 = compact_bits(*c3);
            assert(cb == seq![false, true] + l0 + l1 + l2 + l3);
            let n0 = l0.len() as int / 2;
            let n1 = l1.len() as int / 2;
            let n2 = l2.len() as int / 2;
            let n3 = l3.len() as int / 2;
            assert(cb.len() / 2 == 1 + n0 + n1 + n2 + n3);
            assert(code_at(bytes, k) == code_of(cb, 0));
            assert(code_of(cb, 0) == 1);
            assert(pos.len() < 7);
            let p0 = pos.push(0);
            let p1 = pos.push(1);
            let p2 = pos.push(2);
            let p3 = pos.push(3);
            assert(v2_next(bytes, k, pos) == v2_next(bytes, k + 1, p0));
            assert(v2_leaves(bytes, k, pos) == v2_leaves(bytes, k + 1, p0));
            assert(p0.drop_last() =~= pos && p1.drop_last() =~= pos && p2.drop_last() =~= pos
                && p3.drop_last() =~= pos);
            assert(advance(p0) =~= p1 && advance(p1) =~= p2 && advance(p2) =~= p3);
            assert(advance(p3) == advance(pos));
            assert forall|i: int| 0 <= i < l0.len() implies cb[2 * (k + 1 - k) + i] == l0[i] by {
                assert(2 * (k + 1 - k) + i == 2 + i);
            }
            lemma_code_window(bytes, k, cb, l0, k + 1);
            lemma_v2_walk(bytes, k + 1, *c0, p0);
            assert forall|i: int|
                0 <= i < l1.len() implies cb[2 * (k + 1 + n0 - k) + i] == l1[i] by {
                assert(2 * (k + 1 + n0 - k) + i == 2 + l0.len() + i);
            }
            lemma_code_window(bytes, k, cb, l1, k + 1 + n0);
            lemma_v2_walk(bytes, k + 1 + n0, *c1, p1);
            assert forall|i: int|
                0 <= i < l2.len() implies cb[2 * (k + 1 + n0 + n1 - k) + i] == l2[i] by {
                assert(2 * (k + 1 + n0 + n1 - k) + i == 2 + l0.len() + l1.len() + i);
            }
            lemma_code_window(bytes, k, cb, l2, k + 1 + n0 + n1);
            lemma_v2_walk(bytes, k + 1 + n0 + n1, *c2, p2);
            assert forall|i: int|
                0 <= i < l3.len() implies cb[2 * (k + 1 + n0 + n1 + n2 - k) + i] == l3[i] by {
                assert(2 * (k + 1 + n0 + n1 + n2 - k) + i == 2 + l0.len() + l1.len() + l2.len()
                    + i);
            }
            lemma_code_window(bytes, k, cb, l3, k + 1 + n0 + n1 + n2);
            lemma_v2_walk(bytes, k + 1 + n0 + n1 + n2, *c3, p3);
            let a0 = leaves_of(*c0, p0);
            let a1 = leaves_of(*c1, p1);
            let a2 = leaves_of(*c2, p2);
            let a3 = leaves_of(*c3, p3);
            let tail = v2_leaves(bytes, k + cb.len() / 2, advance(pos));
            assert(v2_leaves(bytes, k, pos) == a0 + (a1 + (a2 + (a3 + tail))));
            assert(leaves_of(t, pos) == a0 + a1 + a2 + a3);
            assert(leaves_of(t, pos) + tail =~= a0 + (a1 + (a2 + (a3 + tail))));
        },
        _ => {},
    }
}

/// Law: decoding the packed pre-order code stream of a tile-free tree
/// yields exactly the tree's leaves, at their positions and in order --
/// the V2 wire round trip at the leaf level.  The zero padding of the last
/// byte reads as empty nodes and yields nothing.
pub proof fn lemma_v2_frame_roundtrip(t: Node)
    requires
        !has_bitmap(t),
        height(t) <= 7,
    ensures
        v2_leaves(pack_bits(compact_bits(t)), 0, Seq::empty()) == leaves_of(t, Seq::empty()),
{
    let cb = compact_bits(t);
    let bytes = pack_bits(cb);
    lemma_compact_len(t);
    lemma_preorder_size(t);
    let half = cb.len() as int / 2;
    assert(bytes.len() == (cb.len() + 7) / 8);
    assert(half <= 4 * bytes.len());
    assert forall|j: int| 0 <= j && 2 * (j - 0) + 1 < cb.len() implies #[trigger] code_at(
        bytes,
        j,
    ) == code_of(cb, j - 0) by {
        lemma_pack_code(cb, j);
    }
    lemma_v2_walk(bytes, 0, t, Seq::empty());
    assert(advance(Seq::<u8>::empty()) =~= Seq::<u8>::empty());
    assert forall|j: int| half <= j < 4 * bytes.len() implies #[trigger] code_at(bytes, j)
        == 0 by {
        lemma_pack_code(cb, j);
        assert(2 * j >= cb.len());
        assert(bitval(cb, 2 * j) == 0 && bitval(cb, 2 * j + 1) == 0);
    }
    lemma_zero_codes_end(bytes, half, Seq::empty());
    assert(v2_leaves(bytes, half, Seq::empty()) =~= Seq::<LeafModel>::empty());
    assert(v2_leaves(bytes, 0, Seq::empty()) =~= leaves_of(t, Seq::empty()));
}


/// Law: the packed V2 payload of any raster's tree decodes to exactly
/// that tree's leaves.
pub proof fn lemma_v2_tree_roundtrip(r: Seq<u8>)
    ensures
        v2_leaves(pack_bits(compact_bits(build_tree(r, false))), 0, Seq::empty()) == leaves_of(
            build_tree(r, false),
            Seq::empty(),
        ),
{
    lemma_tree_no_bitmap(r);
    lemma_tree_height(r, false);
    lemma_v2_frame_roundtrip(build_tree(r, false));
}


/// The solid leaves of one colour in a run, in order.
pub open spec fn feature_models(s: Seq<LeafModel>, feat: bool) -> Seq<LeafModel>
    decreases s.len(),
{
    if s.len() == 0 {
        Seq::empty()
    } else {
        (if s.first().data == LeafData::Feature(feat) {
            seq![s.first()]
        } else {
            Seq::<LeafModel>::empty()
        }) + feature_models(s.drop_first(), feat)
    }
}

/// Law: parsing the packet run of one colour's solid leaves -- the second
/// payload of a P-frame -- returns exactly those leaves, in order.
pub proof fn lemma_v1_delta_roundtrip(s: Seq<LeafModel>, feat: bool, bytes: Seq<u8>, i: int)
    requires
        v1_storable(s),
        0 <= i,
        bytes.len() == i + packets_feature(s, feat).len(),
        bytes.subrange(i, bytes.len() as int) == packets_feature(s, feat),
    ensures
        v1_leaves(bytes, i, feat) == feature_models(s, feat),
    decreases s.len(),
{
    if s.len() == 0 {
        assert(v1_next(bytes, i, feat) is None);
        assert(v1_leaves(bytes, i, feat) =~= feature_models(s, feat));
    } else {
        let first = s.first();
        let rest = s.drop_first();
        lemma_packets_feature_front(s, feat);
        assert(v1_storable(rest)) by {
            assert(forall|k: int| 0 <= k < rest.len() ==> rest[k] == s[k + 1]);
        }
        if first.data == LeafData::Feature(feat) {
            let pkt = leaf_packet(first.pos, first.data);
            assert(first.pos.len() <= 5) by {
                assert(s[0] == first);
            }
            assert(forall|k: int| 0 <= k < first.pos.len() ==> first.pos[k] <= 3) by {
                assert(s[0] == first);
            }
            assert(bytes.subrange(i, i + pkt.len()) =~= pkt);
            lemma_packet_roundtrip(bytes, i, first.pos, first.data, feat);
            assert forall|j: int|
                0 <= j < packets_feature(rest, feat).len() implies bytes[i + pkt.len() + j]
                == packets_feature(rest, feat)[j] by {
                assert(bytes.subrange(i, bytes.len() as int)[pkt.len() + j] == packets_feature(
                    s,
                    feat,
                )[pkt.len() + j]);
            }
            assert(bytes.subrange(i + pkt.len(), bytes.len() as int) =~= packets_feature(
                rest,
                feat,
            ));
            lemma_v1_delta_roundtrip(rest, feat, bytes, i + pkt.len());
            assert(v1_next(bytes, i, feat) == Some(
                (LeafModel { pos: first.pos, data: first.data }, i + pkt.len()),
            ));
            assert(LeafModel { pos: first.pos, data: first.data } == first);
            assert(v1_leaves(bytes, i, feat) =~= feature_models(s, feat));
        } else {
            assert(packets_feature(s, feat) =~= packets_feature(rest, feat));
            assert(bytes.subrange(i, bytes.len() as int) =~= packets_feature(rest, feat));
            lemma_v1_delta_roundtrip(rest, feat, bytes, i);
            assert(v1_leaves(bytes, i, feat) =~= feature_models(s, feat));
        }
    }
}

/// Law: the full payload of any raster's tree parses back -- its header to
/// the header it was packed from, its packets to exactly the listed
/// leaves.
pub proof fn lemma_v1_tree_roundtrip(r: Seq<u8>)
    ensures
        meta_of_byte(
            v1_full_payload(leaves_of(build_tree(r, true), Seq::empty()))[0],
        ) == (FrameMeta {
            active_feature: v1_active(leaves_of(build_tree(r, true), Seq::empty())),
            partial: false,
            display: true,
        }),
        v1_leaves(
            v1_full_payload(leaves_of(build_tree(r, true), Seq::empty())).skip(1),
            0,
            v1_active(leaves_of(build_tree(r, true), Seq::empty())),
        ) == listed_models(
            leaves_of(build_tree(r, true), Seq::empty()),
            v1_active(leaves_of(build_tree(r, true), Seq::empty())),
        ),
{
    crate::enc::lemma_built_tree_storable(r);
    lemma_v1_frame_roundtrip(leaves_of(build_tree(r, true), Seq::empty()));
}


/// Law: the regions of any two different leaves of a raster's tree are
/// disjoint -- no pixel is painted by two leaves of one frame.
pub proof fn lemma_tree_rects_disjoint(r: Seq<u8>, use_bitmap: bool)
    ensures
        forall|i: int, j: int|
            0 <= i < j < leaves_of(build_tree(r, use_bitmap), Seq::empty()).len()
                ==> rects_disjoint(
                rect_of((#[trigger] leaves_of(build_tree(r, use_bitmap), Seq::empty())[i]).pos),
                rect_of((#[trigger] leaves_of(build_tree(r, use_bitmap), Seq::empty())[j]).pos),
            ),
{
    let t = build_tree(r, use_bitmap);
    let L = leaves_of(t, Seq::empty());
    lemma_tree_height(r, use_bitmap);
    lemma_leaves_wf(t, Seq::empty());
    lemma_leaves_nonprefix(t, Seq::empty());
    assert forall|i: int, j: int| 0 <= i < j < L.len() implies rects_disjoint(
        rect_of((#[trigger] L[i]).pos),
        rect_of((#[trigger] L[j]).pos),
    ) by {
        assert(L[i].pos.len() <= 7 && L[j].pos.len() <= 7);
        assert(!pos_prefix_of(L[i].pos, L[j].pos) && !pos_prefix_of(L[j].pos, L[i].pos));
        lemma_position_rects_disjoint(L[i].pos, L[j].pos);
    }
}

} // verus!
