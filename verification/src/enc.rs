//! The encoder: quadtree construction from the Z-order-curve linearisation
//! of a frame, tree diffs for P-frames, and depth-first leaf collection.
use vstd::prelude::*;

verus! {

broadcast use vstd::array::group_array_axioms;

use crate::bits::{ZBits, zbits, zb_new, zb_push, zb_get, get_bit, raster_pixel};
use crate::pos::{Position, pos_seq, pos_new, pos_push, pos_pop, pos_clone, pos_len, pos_get};
use crate::{Leaf, LeafData, LeafModel, FrameMeta, meta_byte, leaf_listed, models};

/// A node of the quadtree.  A branch holds its four quadrants in the order
/// top-left, top-right, bottom-left, bottom-right.
#[derive(Debug, PartialEq)]
pub enum Node {
    /// No information; appears only in diff trees.
    Empty,
    /// A terminal region: a solid colour or a 4x4 tile.
    Leaf(LeafData),
    /// Four quadrants: top-left, top-right, bottom-left, bottom-right.
    Branch(Box<Node>, Box<Node>, Box<Node>, Box<Node>),
}

/// All bits of a run are equal.  A run of one bit is uniform.
pub open spec fn uniform_bits(bits: Seq<bool>) -> bool {
    forall|i: int| 0 <= i < bits.len() ==> #[trigger] bits[i] == bits[0]
}

/// The two-bit group starting at index `i`, high bit first.
pub open spec fn bit_pair(bits: Seq<bool>, i: int) -> u8 {
    ((if bits[i] {
        2u8
    } else {
        0u8
    }) + (if bits[i + 1] {
        1u8
    } else {
        0u8
    })) as u8
}

/// One tile byte packed from the 8 Z-ordered bits starting at `base`: the
/// middle two bit pairs trade places, which turns the Z order into the
/// row-major order of two 4-pixel rows.
pub open spec fn tile_byte(bits: Seq<bool>, base: int) -> u8 {
    (bit_pair(bits, base) * 64 + bit_pair(bits, base + 4) * 16 + bit_pair(bits, base + 2) * 4
        + bit_pair(bits, base + 6)) as u8
}

/// The two-byte array holding the given bytes.
pub open spec fn two_bytes(b0: u8, b1: u8) -> [u8; 2] {
    vstd::array::spec_array_update(
        vstd::array::spec_array_update(vstd::array::spec_array_fill_for_copy_type::<u8, 2>(0u8), 0, b0),
        1,
        b1,
    )
}

/// A side length the balanced splits can reach: a power of two up to 64.
pub open spec fn pow2_side(w: nat) -> bool {
    w == 1 || w == 2 || w == 4 || w == 8 || w == 16 || w == 32 || w == 64
}

/// The number of pixels of a square region with the given side.
pub open spec fn side_area(w: nat) -> nat {
    if w == 1 {
        1
    } else if w == 2 {
        4
    } else if w == 4 {
        16
    } else if w == 8 {
        64
    } else if w == 16 {
        256
    } else if w == 32 {
        1024
    } else {
        4096
    }
}

/// How many splits it takes to reach single pixels from a given side.
pub open spec fn side_log(w: nat) -> nat {
    if w == 1 {
        0
    } else if w == 2 {
        1
    } else if w == 4 {
        2
    } else if w == 8 {
        3
    } else if w == 16 {
        4
    } else if w == 32 {
        5
    } else {
        6
    }
}

/// The node built from the Z-ordered bit run of a square region with the
/// given side length: a uniform run becomes a solid leaf; otherwise the run
/// splits into its four quadrant runs, except that a 4x4 region becomes an
/// explicit tile leaf when tiles are in use.
pub open spec fn build_sector(bits: Seq<bool>, side: nat, use_bitmap: bool) -> Node
    decreases side,
{
    if uniform_bits(bits) {
        Node::Leaf(LeafData::Feature(bits[0]))
    } else if side > 4 || !use_bitmap {
        if side < 2 {
            Node::Empty
        } else {
            let q = bits.len() as int / 4;
            Node::Branch(
                Box::new(build_sector(bits.subrange(0, q), side / 2, use_bitmap)),
                Box::new(build_sector(bits.subrange(q, 2 * q), side / 2, use_bitmap)),
                Box::new(build_sector(bits.subrange(2 * q, 3 * q), side / 2, use_bitmap)),
                Box::new(build_sector(bits.subrange(3 * q, 4 * q), side / 2, use_bitmap)),
            )
        }
    } else {
        Node::Leaf(LeafData::Bitmap(two_bytes(tile_byte(bits, 0), tile_byte(bits, 8))))
    }
}

/// The Z-order linearisation of one square region: at single pixels the
/// pixel itself, otherwise the four quadrants in the order top-left,
/// top-right, bottom-left, bottom-right.
pub open spec fn zquad(r: Seq<u8>, x: int, y: int, w: nat) -> Seq<bool>
    decreases w,
{
    if w <= 1 {
        seq![raster_pixel(r, x, y)]
    } else {
        let h = w / 2;
        zquad(r, x, y, h) + zquad(r, x + h, y, h) + zquad(r, x, y + h, h) + zquad(
            r,
            x + h,
            y + h,
            h,
        )
    }
}

/// The Z-order linearisation of a whole 128x64 raster: the left 64x64
/// half, then the right.
pub open spec fn zorder_128x64(r: Seq<u8>) -> Seq<bool> {
    zquad(r, 0, 0, 64) + zquad(r, 64, 0, 64)
}

/// The tree built from a 128x64 raster: a single solid leaf when the frame
/// is uniform, otherwise a root branch whose first two children hold the
/// two 64x64 halves and whose last two children stay empty.
pub open spec fn build_tree(r: Seq<u8>, use_bitmap: bool) -> Node {
    let z = zorder_128x64(r);
    if uniform_bits(z) {
        Node::Leaf(LeafData::Feature(z[0]))
    } else {
        Node::Branch(
            Box::new(build_sector(z.subrange(0, 4096), 64, use_bitmap)),
            Box::new(build_sector(z.subrange(4096, 8192), 64, use_bitmap)),
            Box::new(Node::Empty),
            Box::new(Node::Empty),
        )
    }
}

/// The height of a node: branches above their tallest child, terminals at 0.
pub open spec fn height(n: Node) -> nat
    decreases n,
{
    match n {
        Node::Branch(c0, c1, c2, c3) => {
            let h0 = height(*c0);
            let h1 = height(*c1);
            let h2 = height(*c2);
            let h3 = height(*c3);
            let a = if h0 >= h1 {
                h0
            } else {
                h1
            };
            let b = if h2 >= h3 {
                h2
            } else {
                h3
            };
            (1 + if a >= b {
                a
            } else {
                b
            }) as nat
        },
        _ => 0,
    }
}

/// The leaves below a node in pre-order, each with the position made of the
/// given prefix extended by the child indices on the way down.  Empty nodes
/// contribute no leaves.
pub open spec fn leaves_of(n: Node, prefix: Seq<u8>) -> Seq<LeafModel>
    decreases n,
{
    match n {
        Node::Empty => Seq::empty(),
        Node::Leaf(d) => seq![LeafModel { pos: prefix, data: d }],
        Node::Branch(c0, c1, c2, c3) => leaves_of(*c0, prefix.push(0)) + leaves_of(
            *c1,
            prefix.push(1),
        ) + leaves_of(*c2, prefix.push(2)) + leaves_of(*c3, prefix.push(3)),
    }
}

/// Every node below a node in pre-order, the node itself first.
pub open spec fn preorder(n: Node) -> Seq<Node>
    decreases n,
{
    match n {
        Node::Branch(c0, c1, c2, c3) => seq![n] + preorder(*c0) + preorder(*c1) + preorder(*c2)
            + preorder(*c3),
        _ => seq![n],
    }
}

/// The structural diff of two trees.  Matching branches recurse and
/// collapse to Empty when nothing below them changed; equal terminals
/// become Empty; anything else is replaced by a copy of the new node.
pub open spec fn diff_node(new: Node, prev: Node) -> Node
    decreases new,
{
    match (new, prev) {
        (Node::Branch(a0, a1, a2, a3), Node::Branch(b0, b1, b2, b3)) => {
            let d0 = diff_node(*a0, *b0);
            let d1 = diff_node(*a1, *b1);
            let d2 = diff_node(*a2, *b2);
            let d3 = diff_node(*a3, *b3);
            if d0 == Node::Empty && d1 == Node::Empty && d2 == Node::Empty && d3 == Node::Empty {
                Node::Empty
            } else {
                Node::Branch(Box::new(d0), Box::new(d1), Box::new(d2), Box::new(d3))
            }
        },
        (n, p) => {
            if !(n is Branch) && !(p is Branch) && n == p {
                Node::Empty
            } else {
                n
            }
        },
    }
}

/// Law: a tree diffed against itself is all Empty -- a P-frame of an
/// unchanged frame carries no leaves.
pub proof fn lemma_diff_identity(n: Node)
    ensures
        diff_node(n, n) == Node::Empty,
    decreases n,
{
    match n {
        Node::Branch(c0, c1, c2, c3) => {
            lemma_diff_identity(*c0);
            lemma_diff_identity(*c1);
            lemma_diff_identity(*c2);
            lemma_diff_identity(*c3);
        },
        _ => {},
    }
}

impl Clone for Node {
    /// A structurally equal copy of the node.
    fn clone(&self) -> (r: Self)
        ensures
            r == *self,
        decreases self,
    {
        match self {
            Node::Empty => Node::Empty,
            Node::Leaf(d) => Node::Leaf(*d),
            Node::Branch(c0, c1, c2, c3) => Node::Branch(
                Box::new((**c0).clone()),
                Box::new((**c1).clone()),
                Box::new((**c2).clone()),
                Box::new((**c3).clone()),
            ),
        }
    }
}

impl Node {
    /// A branch whose four children are all Empty.
    pub fn empty_branch() -> (r: Self)
        ensures
            r == Node::Branch(
                Box::new(Node::Empty),
                Box::new(Node::Empty),
                Box::new(Node::Empty),
                Box::new(Node::Empty),
            ),
    {
        Node::Branch(
            Box::new(Node::Empty),
            Box::new(Node::Empty),
            Box::new(Node::Empty),
            Box::new(Node::Empty),
        )
    }

    /// The node's four children, if it is a branch.
    pub fn children(&self) -> (r: Option<(&Node, &Node, &Node, &Node)>)
        ensures
            match *self {
                Node::Branch(c0, c1, c2, c3) => {
                    &&& r is Some
                    &&& *r->Some_0.0 == *c0
                    &&& *r->Some_0.1 == *c1
                    &&& *r->Some_0.2 == *c2
                    &&& *r->Some_0.3 == *c3
                },
                _ => r is None,
            },
    {
        match self {
            Node::Branch(c0, c1, c2, c3) => Some((&**c0, &**c1, &**c2, &**c3)),
            _ => None,
        }
    }

    /// Takes the node's value, leaving Empty in its place.
    pub fn take(&mut self) -> (r: Self)
        ensures
            r == *old(self),
            *final(self) == Node::Empty,
    {
        let mut t = Node::Empty;
        core::mem::swap(&mut t, self);
        t
    }

    /// Whether the node is Empty.
    pub fn is_empty(&self) -> (r: bool)
        ensures
            r == (*self == Node::Empty),
    {
        match self {
            Node::Empty => true,
            _ => false,
        }
    }

    /// Equality of two terminal (non-branch) nodes.
    fn terminal_eq(&self, other: &Self) -> (r: bool)
        requires
            !(*self is Branch),
            !(*other is Branch),
        ensures
            r == (*self == *other),
    {
        match (self, other) {
            (Node::Empty, Node::Empty) => true,
            (Node::Leaf(a), Node::Leaf(b)) => a.matches(b),
            _ => false,
        }
    }

    /// The structural diff of this tree against a previous one.
    pub fn diff(&self, other: &Self) -> (r: Self)
        ensures
            r == diff_node(*self, *other),
        decreases self,
    {
        match (self, other) {
            (Node::Branch(a0, a1, a2, a3), Node::Branch(b0, b1, b2, b3)) => {
                let d0 = (**a0).diff(&**b0);
                let d1 = (**a1).diff(&**b1);
                let d2 = (**a2).diff(&**b2);
                let d3 = (**a3).diff(&**b3);
                if d0.is_empty() && d1.is_empty() && d2.is_empty() && d3.is_empty() {
                    Node::Empty
                } else {
                    Node::Branch(Box::new(d0), Box::new(d1), Box::new(d2), Box::new(d3))
                }
            },
            _ => {
                let self_branch = match self {
                    Node::Branch(..) => true,
                    _ => false,
                };
                let other_branch = match other {
                    Node::Branch(..) => true,
                    _ => false,
                };
                if !self_branch && !other_branch {
                    if self.terminal_eq(other) {
                        Node::Empty
                    } else {
                        self.clone()
                    }
                } else {
                    self.clone()
                }
            },
        }
    }
}

/// Whether all bits of the given run of the bit buffer are equal.
fn uniform_range(z: &ZBits, start: usize, len: usize) -> (r: bool)
    requires
        len >= 1,
        start + len <= zbits(*z).len(),
        start + len <= 0x1000_0000,
    ensures
        r == uniform_bits(zbits(*z).subrange(start as int, (start + len) as int)),
{
    let ghost run = zbits(*z).subrange(start as int, (start + len) as int);
    let first = zb_get(z, start);
    let mut i: usize = 1;
    while i < len
        invariant
            1 <= i <= len,
            start + len <= zbits(*z).len(),
            start + len <= 0x1000_0000,
            run == zbits(*z).subrange(start as int, (start + len) as int),
            first == zbits(*z)[start as int],
            forall|j: int| 0 <= j < i ==> #[trigger] zbits(*z)[start + j] == first,
        decreases len - i,
    {
        if zb_get(z, start + i) != first {
            proof {
                assert(run[i as int] == zbits(*z)[start + i]);
                assert(run[0] == zbits(*z)[start as int]);
                assert(!uniform_bits(run));
            }
            return false;
        }
        i += 1;
    }
    proof {
        assert forall|k: int| 0 <= k < run.len() implies #[trigger] run[k] == run[0] by {
            assert(run[k] == zbits(*z)[start + k]);
            assert(run[0] == zbits(*z)[start as int]);
        }
    }
    true
}

/// The two-bit group of the bit buffer starting at `i`, high bit first.
fn bit_pair_at(z: &ZBits, i: usize) -> (r: u8)
    requires
        i + 2 <= zbits(*z).len(),
        i + 2 <= 0x1000_0000,
    ensures
        r == bit_pair(zbits(*z), i as int),
{
    (if zb_get(z, i) {
        2u8
    } else {
        0u8
    }) + (if zb_get(z, i + 1) {
        1u8
    } else {
        0u8
    })
}

/// One tile byte packed from the 8 Z-ordered bits starting at `base`.
fn tile_byte_at(z: &ZBits, base: usize) -> (r: u8)
    requires
        base + 8 <= zbits(*z).len(),
        base + 8 <= 0x1000_0000,
    ensures
        r == tile_byte(zbits(*z), base as int),
{
    let p0 = bit_pair_at(z, base);
    let p1 = bit_pair_at(z, base + 4);
    let p2 = bit_pair_at(z, base + 2);
    let p3 = bit_pair_at(z, base + 6);
    p0 * 64 + p1 * 16 + p2 * 4 + p3
}

/// A subrange of a subrange is the matching subrange of the whole.
proof fn lemma_subrange_sub(zs: Seq<bool>, start: int, a: int, b: int, end: int)
    requires
        0 <= start <= end <= zs.len(),
        0 <= a <= b <= end - start,
    ensures
        zs.subrange(start, end).subrange(a, b) == zs.subrange(start + a, start + b),
{
    assert(zs.subrange(start, end).subrange(a, b) =~= zs.subrange(start + a, start + b));
}

/// Splitting a side halves it into the next valid side, with a quarter of
/// the pixels per quadrant.
proof fn lemma_side_split(side: usize, s2: usize, len: usize, q: usize)
    requires
        pow2_side(side as nat),
        side >= 2,
        len == side_area(side as nat),
        s2 == side / 2,
        q == len / 4,
    ensures
        pow2_side(s2 as nat),
        q == side_area(s2 as nat),
        len == 4 * q,
{
}

impl Node {
    /// Builds the node of one square region from its Z-ordered bit run.
    #[verifier::rlimit(100)]
    fn from_sector(z: &ZBits, start: usize, len: usize, side: usize, use_bitmap: bool) -> (n: Node)
        requires
            pow2_side(side as nat),
            len == side_area(side as nat),
            use_bitmap ==> side >= 4,
            start + len <= zbits(*z).len(),
            start + len <= 0x1000_0000,
        ensures
            n == build_sector(
                zbits(*z).subrange(start as int, (start + len) as int),
                side as nat,
                use_bitmap,
            ),
        decreases side,
    {
        let ghost run = zbits(*z).subrange(start as int, (start + len) as int);
        if uniform_range(z, start, len) {
            let c = zb_get(z, start);
            assert(c == run[0]);
            Node::Leaf(LeafData::Feature(c))
        } else if side > 4 || !use_bitmap {
            proof {
                if side < 2 {
                    assert(len == 1);
                    assert(uniform_bits(run));
                }
            }
            let q = len / 4;
            let s2 = side / 2;
            proof {
                lemma_side_split(side, s2, len, q);
            }
            let c0 = Self::from_sector(z, start, q, s2, use_bitmap);
            let c1 = Self::from_sector(z, start + q, q, s2, use_bitmap);
            let c2 = Self::from_sector(z, start + 2 * q, q, s2, use_bitmap);
            let c3 = Self::from_sector(z, start + 3 * q, q, s2, use_bitmap);
            proof {
                let qi = q as int;
                lemma_subrange_sub(zbits(*z), start as int, 0, qi, start + 4 * qi);
                lemma_subrange_sub(zbits(*z), start as int, qi, 2 * qi, start + 4 * qi);
                lemma_subrange_sub(zbits(*z), start as int, 2 * qi, 3 * qi, start + 4 * qi);
                lemma_subrange_sub(zbits(*z), start as int, 3 * qi, 4 * qi, start + 4 * qi);
            }
            Node::Branch(Box::new(c0), Box::new(c1), Box::new(c2), Box::new(c3))
        } else {
            assert(side == 4 && len == 16);
            let b0 = tile_byte_at(z, start);
            let b1 = tile_byte_at(z, start + 8);
            let mut tile = [0u8; 2];
            tile[0] = b0;
            tile[1] = b1;
            proof {
                assert(bit_pair(run, 0) == bit_pair(zbits(*z), start as int));
                assert(bit_pair(run, 4) == bit_pair(zbits(*z), start + 4));
                assert(bit_pair(run, 2) == bit_pair(zbits(*z), start + 2));
                assert(bit_pair(run, 6) == bit_pair(zbits(*z), start + 6));
                assert(bit_pair(run, 8) == bit_pair(zbits(*z), start + 8));
                assert(bit_pair(run, 12) == bit_pair(zbits(*z), start + 12));
                assert(bit_pair(run, 10) == bit_pair(zbits(*z), start + 10));
                assert(bit_pair(run, 14) == bit_pair(zbits(*z), start + 14));
                assert(tile@ =~= two_bytes(tile_byte(run, 0), tile_byte(run, 8))@);
                assert(tile =~= two_bytes(tile_byte(run, 0), tile_byte(run, 8)));
            }
            Node::Leaf(LeafData::Bitmap(tile))
        }
    }
}

/// Pushes the Z-order linearisation of one square region of the raster
/// onto the bit buffer.
pub fn z_order(source: &[u8], dest: &mut ZBits, width: usize, x: usize, y: usize)
    requires
        source@.len() == 1024,
        pow2_side(width as nat),
        x + width <= 128,
        y + width <= 64,
        zbits(*old(dest)).len() + side_area(width as nat) <= 8192,
    ensures
        zbits(*final(dest)) == zbits(*old(dest)) + zquad(source@, x as int, y as int, width as nat),
    decreases width,
{
    if width == 1 {
        let b = get_bit(source, x + y * 128);
        zb_push(dest, b);
        proof {
            assert(zbits(*dest) =~= zbits(*old(dest)) + zquad(
                source@,
                x as int,
                y as int,
                width as nat,
            ));
        }
    } else {
        let h = width / 2;
        proof {
            assert(width == 2 * h && 4 * side_area(h as nat) == side_area(width as nat)
                && pow2_side(h as nat));
            lemma_zquad_len(source@, x as int, y as int, h as nat);
            lemma_zquad_len(source@, x + h, y as int, h as nat);
            lemma_zquad_len(source@, x as int, y + h, h as nat);
            lemma_zquad_len(source@, x + h, y + h, h as nat);
        }
        z_order(source, dest, h, x, y);
        z_order(source, dest, h, x + h, y);
        z_order(source, dest, h, x, y + h);
        z_order(source, dest, h, x + h, y + h);
        proof {
            assert(zbits(*dest) =~= zbits(*old(dest)) + zquad(
                source@,
                x as int,
                y as int,
                width as nat,
            ));
        }
    }
}

/// Pushes the Z-order linearisation of the whole 128-wide raster: its two
/// 64x64 halves, left first.
pub fn z_order_2to1(source: &[u8], dest: &mut ZBits, width: usize)
    requires
        source@.len() == 1024,
        width == 128,
        zbits(*old(dest)).len() == 0,
    ensures
        zbits(*final(dest)) == zorder_128x64(source@),
{
    let half = width / 2;
    z_order(source, dest, half, 0, 0);
    proof {
        lemma_zquad_len(source@, 0, 0, 64);
    }
    z_order(source, dest, half, half, 0);
    proof {
        assert(zbits(*dest) =~= zorder_128x64(source@));
    }
}

/// The length of a Z-ordered run is the squared side of its region.
pub proof fn lemma_zquad_len(r: Seq<u8>, x: int, y: int, w: nat)
    requires
        pow2_side(w),
    ensures
        zquad(r, x, y, w).len() == side_area(w),
    decreases w,
{
    if w > 1 {
        let h = w / 2;
        assert(h == w / 2 && pow2_side(h));
        lemma_zquad_len(r, x, y, h);
        lemma_zquad_len(r, x + h, y, h);
        lemma_zquad_len(r, x, y + h, h);
        lemma_zquad_len(r, x + h, y + h, h);
    }
}

/// A built sector is no taller than the number of splits it can take:
/// down to single pixels, or only down to 4x4 tiles when tiles are in use.
pub proof fn lemma_build_height(bits: Seq<bool>, side: nat, use_bitmap: bool)
    requires
        pow2_side(side),
        use_bitmap ==> side >= 4,
    ensures
        height(build_sector(bits, side, use_bitmap)) <= side_log(side) - (if use_bitmap {
            2int
        } else {
            0int
        }),
    decreases side,
{
    if !uniform_bits(bits) && (side > 4 || !use_bitmap) && side >= 2 {
        let q = bits.len() as int / 4;
        lemma_build_height(bits.subrange(0, q), side / 2, use_bitmap);
        lemma_build_height(bits.subrange(q, 2 * q), side / 2, use_bitmap);
        lemma_build_height(bits.subrange(2 * q, 3 * q), side / 2, use_bitmap);
        lemma_build_height(bits.subrange(3 * q, 4 * q), side / 2, use_bitmap);
    }
}

/// A quadtree of one frame, or the diff of two frames.
#[derive(Debug)]
pub struct QuadTree {
    pub head: Node,
}

impl Clone for QuadTree {
    /// A structurally equal copy of the tree.
    fn clone(&self) -> (r: Self)
        ensures
            r == *self,
    {
        QuadTree { head: self.head.clone() }
    }
}

impl QuadTree {
    /// An empty tree.
    pub fn new() -> (r: Self)
        ensures
            r.head == Node::Empty,
    {
        QuadTree { head: Node::Empty }
    }

    /// Builds the tree of a 128x64 monochrome raster.
    pub fn from_128x64(buf: &[u8; 1024], use_bitmap: bool) -> (r: Self)
        ensures
            r.head == build_tree(buf@, use_bitmap),
            height(r.head) <= 7,
            use_bitmap ==> height(r.head) <= 5,
    {
        let mut z = zb_new();
        z_order_2to1(buf.as_slice(), &mut z, 128);
        proof {
            lemma_zquad_len(buf@, 0, 0, 64);
            lemma_zquad_len(buf@, 64, 0, 64);
        }
        if uniform_range(&z, 0, 8192) {
            let c = zb_get(&z, 0);
            proof {
                assert(zbits(z).subrange(0, 8192) =~= zbits(z));
            }
            QuadTree { head: Node::Leaf(LeafData::Feature(c)) }
        } else {
            proof {
                assert(zbits(z).subrange(0, 8192) =~= zbits(z));
                lemma_build_height(zbits(z).subrange(0, 4096), 64, use_bitmap);
                lemma_build_height(zbits(z).subrange(4096, 8192), 64, use_bitmap);
            }
            let left = Node::from_sector(&z, 0, 4096, 64, use_bitmap);
            let right = Node::from_sector(&z, 4096, 4096, 64, use_bitmap);
            let head = Node::Branch(
                Box::new(left),
                Box::new(right),
                Box::new(Node::Empty),
                Box::new(Node::Empty),
            );
            proof {
                assert(height(left) <= 6 && height(right) <= 6);
                if use_bitmap {
                    assert(height(left) <= 4 && height(right) <= 4);
                }
                assert(height(Node::Empty) == 0);
                let hl = height(left);
                let hr = height(right);
                let a = if hl >= hr { hl } else { hr };
                let b = if a >= 0 { a } else { 0 };
                assert(height(head) == 1 + b);
                assert(height(head) <= 7);
                assert(head == build_tree(buf@, use_bitmap));
            }
            QuadTree { head }
        }
    }

    /// The structural diff of this tree against a previous one.
    pub fn diff(&self, other: &Self) -> (r: Self)
        ensures
            r.head == diff_node(self.head, other.head),
    {
        QuadTree { head: self.head.diff(&other.head) }
    }

    /// The leaves of the tree in pre-order, each carrying its position.
    pub fn leaves(&self) -> (r: Vec<Leaf>)
        requires
            height(self.head) <= 7,
        ensures
            models(r@) == leaves_of(self.head, Seq::empty()),
    {
        let mut out: Vec<Leaf> = Vec::new();
        let mut pos = pos_new();
        collect_leaves(&self.head, &mut pos, &mut out);
        proof {
            assert(models(out@) =~= leaves_of(self.head, Seq::empty()));
        }
        out
    }

    /// Every node of the tree in pre-order.
    pub fn nodes(&self) -> (r: Vec<&Node>)
        ensures
            r@.len() == preorder(self.head).len(),
            forall|i: int| 0 <= i < r@.len() ==> *r@[i] == preorder(self.head)[i],
    {
        let mut out: Vec<&Node> = Vec::new();
        collect_nodes(&self.head, &mut out);
        out
    }
}

/// Appends the leaves below `n` to `out`, with positions extending the
/// prefix held by `pos`; `pos` is restored before returning.
fn collect_leaves(n: &Node, pos: &mut Position, out: &mut Vec<Leaf>)
    requires
        pos_seq(*old(pos)).len() + height(*n) <= 7,
    ensures
        pos_seq(*final(pos)) == pos_seq(*old(pos)),
        models(final(out)@) == models(old(out)@) + leaves_of(*n, pos_seq(*old(pos))),
    decreases *n,
{
    let ghost prefix = pos_seq(*pos);
    match n {
        Node::Empty => {
            proof {
                assert(models(out@) =~= models(old(out)@) + leaves_of(*n, prefix));
            }
        },
        Node::Leaf(d) => {
            let leaf = Leaf::new(*d, pos_clone(pos));
            out.push(leaf);
            proof {
                assert(models(out@) =~= models(old(out)@) + leaves_of(*n, prefix));
            }
        },
        Node::Branch(c0, c1, c2, c3) => {
            let r0 = pos_push(pos, 0);
            collect_leaves(&**c0, pos, out);
            let x0 = pos_pop(pos);
            let r1 = pos_push(pos, 1);
            collect_leaves(&**c1, pos, out);
            let x1 = pos_pop(pos);
            let r2 = pos_push(pos, 2);
            collect_leaves(&**c2, pos, out);
            let x2 = pos_pop(pos);
            let r3 = pos_push(pos, 3);
            collect_leaves(&**c3, pos, out);
            let x3 = pos_pop(pos);
            proof {
                assert(prefix.push(0).drop_last() =~= prefix);
                assert(prefix.push(1).drop_last() =~= prefix);
                assert(prefix.push(2).drop_last() =~= prefix);
                assert(prefix.push(3).drop_last() =~= prefix);
                assert(models(out@) =~= models(old(out)@) + leaves_of(*n, prefix));
            }
        },
    }
}

/// Appends every node below `n` to `out` in pre-order.
fn collect_nodes<'a>(n: &'a Node, out: &mut Vec<&'a Node>)
    ensures
        final(out)@.len() == old(out)@.len() + preorder(*n).len(),
        forall|i: int| 0 <= i < old(out)@.len() ==> final(out)@[i] == old(out)@[i],
        forall|i: int|
            0 <= i < preorder(*n).len() ==> *final(out)@[old(out)@.len() + i] == preorder(*n)[i],
    decreases *n,
{
    out.push(n);
    match n {
        Node::Branch(c0, c1, c2, c3) => {
            collect_nodes(&**c0, out);
            collect_nodes(&**c1, out);
            collect_nodes(&**c2, out);
            collect_nodes(&**c3, out);
        },
        _ => {},
    }
}


/// The position element at index `i`, or 0 past the end (the wire format
/// zero-pads unused position slots).
pub open spec fn pos_at(pos: Seq<u8>, i: int) -> u8 {
    if 0 <= i < pos.len() {
        pos[i]
    } else {
        0
    }
}

/// The depth code of a packet: tile leaves are coded as depth 6, solid
/// leaves carry their real depth.
pub open spec fn packet_depth(pos: Seq<u8>, data: LeafData) -> u8 {
    if data is Bitmap {
        6
    } else {
        pos.len() as u8
    }
}

/// The first packet byte: a set discriminant bit, three depth bits, then
/// the first two position elements, two bits each, high bits first.
pub open spec fn packet_byte0(pos: Seq<u8>, data: LeafData) -> u8 {
    (128 + packet_depth(pos, data) * 16 + pos_at(pos, 0) * 4 + pos_at(pos, 1)) as u8
}

/// The second packet byte: position elements three to five, two bits each,
/// the last two bits zero padding.
pub open spec fn packet_byte1(pos: Seq<u8>) -> u8 {
    (pos_at(pos, 2) * 64 + pos_at(pos, 3) * 16 + pos_at(pos, 4) * 4) as u8
}

/// The wire packet of one leaf: one byte up to depth 2, two bytes beyond,
/// and for a tile leaf the two tile bytes after the position bytes.
pub open spec fn leaf_packet(pos: Seq<u8>, data: LeafData) -> Seq<u8> {
    let head = if pos.len() <= 2 {
        seq![packet_byte0(pos, data)]
    } else {
        seq![packet_byte0(pos, data), packet_byte1(pos)]
    };
    match data {
        LeafData::Feature(_) => head,
        LeafData::Bitmap(t) => head + seq![t[0], t[1]],
    }
}

impl Leaf {
    /// Appends the leaf's wire packet.  Leaves deeper than 5 have no
    /// packet form: solid leaves carry their depth in three bits with 6
    /// reserved for tiles, and tiles sit at depth 5 exactly.
    pub fn write(&self, out: &mut Vec<u8>) -> (written: usize)
        requires
            self.pos_view().len() <= 5,
            forall|i: int| 0 <= i < self.pos_view().len() ==> self.pos_view()[i] <= 3,
        ensures
            final(out)@ == old(out)@ + leaf_packet(self.pos_view(), self.data),
            written == leaf_packet(self.pos_view(), self.data).len(),
    {
        let ghost pv = self.pos_view();
        let depth = pos_len(&self.pos);
        let d: u8 = match self.data {
            LeafData::Bitmap(_) => 6,
            LeafData::Feature(_) => depth as u8,
        };
        let p0: u8 = if depth > 0 {
            pos_get(&self.pos, 0)
        } else {
            0
        };
        let p1: u8 = if depth > 1 {
            pos_get(&self.pos, 1)
        } else {
            0
        };
        let byte0: u8 = 128 + d * 16 + p0 * 4 + p1;
        out.push(byte0);
        let mut written: usize = 1;
        if depth > 2 {
            let p2 = pos_get(&self.pos, 2);
            let p3: u8 = if depth > 3 {
                pos_get(&self.pos, 3)
            } else {
                0
            };
            let p4: u8 = if depth > 4 {
                pos_get(&self.pos, 4)
            } else {
                0
            };
            let byte1: u8 = p2 * 64 + p3 * 16 + p4 * 4;
            out.push(byte1);
            written = 2;
        }
        if let LeafData::Bitmap(t) = self.data {
            out.push(t[0]);
            out.push(t[1]);
            written += 2;
        }
        proof {
            assert(out@ =~= old(out)@ + leaf_packet(pv, self.data));
        }
        written
    }
}

/// How many leaves of a run are listed under the given active colour.
pub open spec fn count_listed(s: Seq<LeafModel>, feat: bool) -> nat
    decreases s.len(),
{
    if s.len() == 0 {
        0
    } else {
        count_listed(s.drop_last(), feat) + (if leaf_listed(s.last().data, feat) {
            1nat
        } else {
            0nat
        })
    }
}

/// The concatenated packets of the leaves listed under the given active
/// colour, in order.
pub open spec fn packets_of(s: Seq<LeafModel>, feat: bool) -> Seq<u8>
    decreases s.len(),
{
    if s.len() == 0 {
        Seq::empty()
    } else {
        packets_of(s.drop_last(), feat) + (if leaf_listed(s.last().data, feat) {
            leaf_packet(s.last().pos, s.last().data)
        } else {
            Seq::empty()
        })
    }
}

/// The concatenated packets of the solid leaves of one colour, tiles left
/// out.
pub open spec fn packets_feature(s: Seq<LeafModel>, feat: bool) -> Seq<u8>
    decreases s.len(),
{
    if s.len() == 0 {
        Seq::empty()
    } else {
        packets_feature(s.drop_last(), feat) + (if s.last().data == LeafData::Feature(feat) {
            leaf_packet(s.last().pos, s.last().data)
        } else {
            Seq::empty()
        })
    }
}

/// The active colour a full frame is stored under: the colour with the
/// shorter leaf list, except that an empty list never wins -- a uniform
/// frame is stored as its own colour with the root leaf listed.
pub open spec fn v1_active(s: Seq<LeafModel>) -> bool {
    let ny = count_listed(s, true);
    let nn = count_listed(s, false);
    if ny == 0 {
        false
    } else if nn == 0 {
        true
    } else {
        ny < nn
    }
}

/// The V1 payload of a full frame: a header that clears the background and
/// presents the frame, then the packets of the active-colour leaves.
pub open spec fn v1_full_payload(s: Seq<LeafModel>) -> Seq<u8> {
    seq![
        meta_byte(
            FrameMeta { active_feature: v1_active(s), partial: false, display: true },
        ),
    ] + packets_of(s, v1_active(s))
}

/// Leaves that the V1 packet form can carry: at most depth 5, quadrant
/// indices only, tiles at depth 5 exactly.
pub open spec fn v1_storable(s: Seq<LeafModel>) -> bool {
    forall|i: int|
        0 <= i < s.len() ==> {
            &&& (#[trigger] s[i]).pos.len() <= 5
            &&& (forall|k: int| 0 <= k < s[i].pos.len() ==> s[i].pos[k] <= 3)
        }
}

/// The number of terminal nodes of a tree.
pub open spec fn size(n: Node) -> nat
    decreases n,
{
    match n {
        Node::Branch(c0, c1, c2, c3) => (size(*c0) + size(*c1) + size(*c2) + size(*c3)) as nat,
        _ => 1,
    }
}

/// A tree has no more leaves than terminal nodes.
pub proof fn lemma_leaves_le_size(n: Node, prefix: Seq<u8>)
    ensures
        leaves_of(n, prefix).len() <= size(n),
    decreases n,
{
    match n {
        Node::Branch(c0, c1, c2, c3) => {
            lemma_leaves_le_size(*c0, prefix.push(0));
            lemma_leaves_le_size(*c1, prefix.push(1));
            lemma_leaves_le_size(*c2, prefix.push(2));
            lemma_leaves_le_size(*c3, prefix.push(3));
        },
        _ => {},
    }
}

/// Every leaf of a tree sits at most `height` levels below its prefix, and
/// its position stays made of quadrant indices.
pub proof fn lemma_leaves_wf(n: Node, prefix: Seq<u8>)
    requires
        forall|k: int| 0 <= k < prefix.len() ==> prefix[k] <= 3,
    ensures
        forall|i: int|
            0 <= i < leaves_of(n, prefix).len() ==> {
                &&& (#[trigger] leaves_of(n, prefix)[i]).pos.len() <= prefix.len() + height(n)
                &&& (forall|k: int|
                    0 <= k < leaves_of(n, prefix)[i].pos.len() ==> leaves_of(n, prefix)[i].pos[k]
                        <= 3)
            },
    decreases n,
{
    match n {
        Node::Branch(c0, c1, c2, c3) => {
            lemma_leaves_wf(*c0, prefix.push(0));
            lemma_leaves_wf(*c1, prefix.push(1));
            lemma_leaves_wf(*c2, prefix.push(2));
            lemma_leaves_wf(*c3, prefix.push(3));
        },
        _ => {},
    }
}

/// A diff is no taller than the tree it describes.
pub proof fn lemma_diff_height(a: Node, b: Node)
    ensures
        height(diff_node(a, b)) <= height(a),
    decreases a,
{
    match (a, b) {
        (Node::Branch(a0, a1, a2, a3), Node::Branch(b0, b1, b2, b3)) => {
            lemma_diff_height(*a0, *b0);
            lemma_diff_height(*a1, *b1);
            lemma_diff_height(*a2, *b2);
            lemma_diff_height(*a3, *b3);
        },
        _ => {},
    }
}

/// Every tree has at least one terminal node.
pub proof fn lemma_size_pos(n: Node)
    ensures
        size(n) >= 1,
    decreases n,
{
    match n {
        Node::Branch(c0, c1, c2, c3) => {
            lemma_size_pos(*c0);
        },
        _ => {},
    }
}

/// A diff has no more terminal nodes than the tree it describes.
pub proof fn lemma_diff_size(a: Node, b: Node)
    ensures
        size(diff_node(a, b)) <= size(a),
        size(diff_node(a, b)) >= 1,
    decreases a,
{
    lemma_size_pos(a);
    match (a, b) {
        (Node::Branch(a0, a1, a2, a3), Node::Branch(b0, b1, b2, b3)) => {
            lemma_diff_size(*a0, *b0);
            lemma_diff_size(*a1, *b1);
            lemma_diff_size(*a2, *b2);
            lemma_diff_size(*a3, *b3);
        },
        _ => {
            lemma_size_pos(diff_node(a, b));
        },
    }
}

/// A built sector has no more terminal nodes than its region has pixels.
pub proof fn lemma_build_size(bits: Seq<bool>, side: nat, use_bitmap: bool)
    requires
        pow2_side(side),
    ensures
        size(build_sector(bits, side, use_bitmap)) <= side_area(side),
        size(build_sector(bits, side, use_bitmap)) >= 1,
    decreases side,
{
    if !uniform_bits(bits) && (side > 4 || !use_bitmap) && side >= 2 {
        let q = bits.len() as int / 4;
        lemma_build_size(bits.subrange(0, q), side / 2, use_bitmap);
        lemma_build_size(bits.subrange(q, 2 * q), side / 2, use_bitmap);
        lemma_build_size(bits.subrange(2 * q, 3 * q), side / 2, use_bitmap);
        lemma_build_size(bits.subrange(3 * q, 4 * q), side / 2, use_bitmap);
    }
}

/// Listed packets take at most four bytes per leaf.
pub proof fn lemma_packets_len(s: Seq<LeafModel>, feat: bool)
    ensures
        packets_of(s, feat).len() <= 4 * s.len(),
        packets_feature(s, feat).len() <= 4 * s.len(),
    decreases s.len(),
{
    if s.len() > 0 {
        lemma_packets_len(s.drop_last(), feat);
    }
}

impl QuadTree {
    /// Stores a full frame: a V1 header byte, then one packet per listed
    /// leaf; returns how many bytes the payload took.
    pub fn store_packed(&self, out: &mut Vec<u8>) -> (count: usize)
        requires
            height(self.head) <= 7,
            v1_storable(leaves_of(self.head, Seq::empty())),
            size(self.head) <= 0x2000_0000,
            old(out)@.len() + 1 + 4 * size(self.head) <= usize::MAX,
        ensures
            final(out)@ == old(out)@ + v1_full_payload(leaves_of(self.head, Seq::empty())),
            count == v1_full_payload(leaves_of(self.head, Seq::empty())).len(),
    {
        let ghost lm = leaves_of(self.head, Seq::empty());
        proof {
            lemma_leaves_le_size(self.head, Seq::empty());
            lemma_packets_len(lm, true);
            lemma_packets_len(lm, false);
        }
        let lv = self.leaves();
        let mut ny: usize = 0;
        let mut nn: usize = 0;
        let mut i: usize = 0;
        while i < lv.len()
            invariant
                0 <= i <= lv.len(),
                models(lv@) == lm,
                ny == count_listed(lm.take(i as int), true),
                nn == count_listed(lm.take(i as int), false),
                ny <= i,
                nn <= i,
            decreases lv.len() - i,
        {
            proof {
                assert(lm.take(i + 1).drop_last() =~= lm.take(i as int));
                assert(lm.take(i + 1).last() == lm[i as int]);
                assert(lm[i as int] == models(lv@)[i as int]);
            }
            if lv[i].feat_or_data(true) {
                ny += 1;
            }
            if lv[i].feat_or_data(false) {
                nn += 1;
            }
            i += 1;
        }
        proof {
            assert(lm.take(lv@.len() as int) =~= lm);
        }
        let active = if ny == 0 {
            false
        } else if nn == 0 {
            true
        } else {
            ny < nn
        };
        assert(active == v1_active(lm));
        out.push(FrameMeta::new(active, false, true).to_byte());
        let mut count: usize = 1;
        let mut j: usize = 0;
        while j < lv.len()
            invariant
                0 <= j <= lv.len(),
                models(lv@) == lm,
                v1_storable(lm),
                active == v1_active(lm),
                lm.len() <= 0x2000_0000,
                out@ == old(out)@ + seq![
                    meta_byte(
                        FrameMeta { active_feature: active, partial: false, display: true },
                    ),
                ] + packets_of(lm.take(j as int), active),
                count == 1 + packets_of(lm.take(j as int), active).len(),
                count <= 1 + 4 * j,
                old(out)@.len() + 1 + 4 * lm.len() <= usize::MAX,
            decreases lv.len() - j,
        {
            proof {
                assert(lm.take(j + 1).drop_last() =~= lm.take(j as int));
                assert(lm.take(j + 1).last() == lm[j as int]);
                assert(lm[j as int] == models(lv@)[j as int]);
                lemma_packets_len(lm.take(j + 1), active);
            }
            if lv[j].feat_or_data(active) {
                let w = lv[j].write(out);
                count += w;
            }
            proof {
                assert(out@ =~= old(out)@ + seq![
                    meta_byte(
                        FrameMeta { active_feature: active, partial: false, display: true },
                    ),
                ] + packets_of(lm.take(j + 1), active));
            }
            j += 1;
        }
        proof {
            assert(lm.take(lv@.len() as int) =~= lm);
            assert(out@ =~= old(out)@ + v1_full_payload(lm));
        }
        count
    }
}


/// A V2 payload could not be produced.
#[derive(Debug, PartialEq, Eq, Structural, Clone, Copy)]
pub enum CompactError {
    /// The tree holds a tile leaf, which the two-bit node codes cannot carry.
    BitmapLeaf,
}

/// Whether the tree holds a tile leaf.
pub open spec fn has_bitmap(n: Node) -> bool
    decreases n,
{
    match n {
        Node::Empty => false,
        Node::Leaf(d) => d is Bitmap,
        Node::Branch(c0, c1, c2, c3) => has_bitmap(*c0) || has_bitmap(*c1) || has_bitmap(*c2)
            || has_bitmap(*c3),
    }
}

/// The pre-order two-bit code stream of a tree: 00 for Empty, 01 for a
/// branch followed by its children, 10 and 11 for a solid leaf carrying
/// its colour in the low bit.
pub open spec fn compact_bits(n: Node) -> Seq<bool>
    decreases n,
{
    match n {
        Node::Empty => seq![false, false],
        Node::Leaf(d) => match d {
            LeafData::Feature(v) => seq![true, v],
            LeafData::Bitmap(_) => Seq::empty(),
        },
        Node::Branch(c0, c1, c2, c3) => seq![false, true] + compact_bits(*c0) + compact_bits(*c1)
            + compact_bits(*c2) + compact_bits(*c3),
    }
}

/// The bit at index `j` as a number; out-of-range bits count as zero.
pub open spec fn bitval(bits: Seq<bool>, j: int) -> u8 {
    if 0 <= j < bits.len() && bits[j] {
        1u8
    } else {
        0u8
    }
}

/// The byte packing the eight bits starting at `j`, high bit first,
/// zero-padded past the end.
pub open spec fn byte_of_bits(bits: Seq<bool>, j: int) -> u8 {
    (bitval(bits, j) * 128 + bitval(bits, j + 1) * 64 + bitval(bits, j + 2) * 32 + bitval(
        bits,
        j + 3,
    ) * 16 + bitval(bits, j + 4) * 8 + bitval(bits, j + 5) * 4 + bitval(bits, j + 6) * 2 + bitval(
        bits,
        j + 7,
    )) as u8
}

/// The bytes of an MSB-first bit stream, the last byte zero-padded.
pub open spec fn pack_bits(bits: Seq<bool>) -> Seq<u8> {
    Seq::new(((bits.len() + 7) / 8) as nat, |k: int| byte_of_bits(bits, 8 * k))
}

/// A tree without tile leaves codes to exactly two bits per node.
pub proof fn lemma_compact_len(n: Node)
    requires
        !has_bitmap(n),
    ensures
        compact_bits(n).len() == 2 * preorder(n).len(),
    decreases n,
{
    match n {
        Node::Branch(c0, c1, c2, c3) => {
            lemma_compact_len(*c0);
            lemma_compact_len(*c1);
            lemma_compact_len(*c2);
            lemma_compact_len(*c3);
        },
        _ => {},
    }
}

/// A tree has fewer than twice as many nodes as terminals.
pub proof fn lemma_preorder_size(n: Node)
    ensures
        preorder(n).len() <= 2 * size(n) - 1,
        preorder(n).len() >= 1,
    decreases n,
{
    match n {
        Node::Branch(c0, c1, c2, c3) => {
            lemma_preorder_size(*c0);
            lemma_preorder_size(*c1);
            lemma_preorder_size(*c2);
            lemma_preorder_size(*c3);
        },
        _ => {},
    }
}

/// Emits the two-bit code of every node below `n` in pre-order; fails on a
/// tile leaf and may then leave a partial emission behind.
fn emit_compact(n: &Node, out: &mut Vec<bool>) -> (ok: bool)
    ensures
        ok == !has_bitmap(*n),
        ok ==> final(out)@ == old(out)@ + compact_bits(*n),
    decreases *n,
{
    match n {
        Node::Empty => {
            out.push(false);
            out.push(false);
            proof {
                assert(out@ =~= old(out)@ + compact_bits(*n));
            }
            true
        },
        Node::Leaf(d) => {
            match d {
                LeafData::Feature(v) => {
                    out.push(true);
                    out.push(*v);
                    proof {
                        assert(out@ =~= old(out)@ + compact_bits(*n));
                    }
                    true
                },
                LeafData::Bitmap(_) => false,
            }
        },
        Node::Branch(c0, c1, c2, c3) => {
            out.push(false);
            out.push(true);
            if !emit_compact(&**c0, out) {
                return false;
            }
            if !emit_compact(&**c1, out) {
                return false;
            }
            if !emit_compact(&**c2, out) {
                return false;
            }
            if !emit_compact(&**c3, out) {
                return false;
            }
            proof {
                assert(out@ =~= old(out)@ + compact_bits(*n));
            }
            true
        },
    }
}

/// The bit at index `j` of the collected bits as a number, zero past the
/// end.
fn bitval_at(bits: &Vec<bool>, j: usize) -> (r: u8)
    ensures
        r == bitval(bits@, j as int),
{
    if j < bits.len() && bits[j] {
        1
    } else {
        0
    }
}

/// Packs collected bits into bytes, high bit first, zero-padding the last
/// byte.
fn pack_bit_vec(bits: &Vec<bool>) -> (r: Vec<u8>)
    requires
        bits@.len() <= 0x1000_0000,
    ensures
        r@ == pack_bits(bits@),
{
    let total = (bits.len() + 7) / 8;
    let mut out: Vec<u8> = Vec::new();
    let mut k: usize = 0;
    while k < total
        invariant
            0 <= k <= total,
            total == (bits@.len() + 7) / 8,
            bits@.len() <= 0x1000_0000,
            out@.len() == k,
            forall|t: int| 0 <= t < k ==> out@[t] == byte_of_bits(bits@, 8 * t),
        decreases total - k,
    {
        let base = 8 * k;
        let b: u8 = bitval_at(bits, base) * 128 + bitval_at(bits, base + 1) * 64 + bitval_at(
            bits,
            base + 2,
        ) * 32 + bitval_at(bits, base + 3) * 16 + bitval_at(bits, base + 4) * 8 + bitval_at(
            bits,
            base + 5,
        ) * 4 + bitval_at(bits, base + 6) * 2 + bitval_at(bits, base + 7);
        out.push(b);
        k += 1;
    }
    proof {
        assert(out@ =~= pack_bits(bits@));
    }
    out
}

/// The two payloads of a V1 P-frame: first the leaves that turn pixels on
/// (tiles listed there too) behind a partial no-display header, then the
/// leaves that turn pixels off behind a partial display header.
pub open spec fn v1_delta_payloads(s: Seq<LeafModel>) -> Seq<u8> {
    seq![meta_byte(FrameMeta { active_feature: true, partial: true, display: false })]
        + packets_of(s, true) + seq![
        meta_byte(FrameMeta { active_feature: false, partial: true, display: true }),
    ] + packets_feature(s, false)
}

impl QuadTree {
    /// Stores the tree as a pre-order two-bit stream, padded to bytes.
    pub fn collect_compact(&self) -> (r: Result<Vec<u8>, CompactError>)
        requires
            size(self.head) <= 0x100_0000,
        ensures
            r is Ok <==> !has_bitmap(self.head),
            r matches Ok(v) ==> v@ == pack_bits(compact_bits(self.head)),
    {
        let mut bits: Vec<bool> = Vec::new();
        if emit_compact(&self.head, &mut bits) {
            proof {
                lemma_compact_len(self.head);
                lemma_preorder_size(self.head);
            }
            Ok(pack_bit_vec(&bits))
        } else {
            Err(CompactError::BitmapLeaf)
        }
    }

    /// Stores a diff tree as a V1 P-frame: both colours kept, the decoder
    /// told not to clear.  Returns the byte counts of the two payloads.
    pub fn store_as_diff(&self, out: &mut Vec<u8>) -> (counts: (usize, usize))
        requires
            height(self.head) <= 7,
            v1_storable(leaves_of(self.head, Seq::empty())),
            size(self.head) <= 0x2000_0000,
            old(out)@.len() + 2 + 8 * size(self.head) <= usize::MAX,
        ensures
            final(out)@ == old(out)@ + v1_delta_payloads(leaves_of(self.head, Seq::empty())),
            counts.0 == 1 + packets_of(leaves_of(self.head, Seq::empty()), true).len(),
            counts.1 == 1 + packets_feature(leaves_of(self.head, Seq::empty()), false).len(),
    {
        let ghost lm = leaves_of(self.head, Seq::empty());
        proof {
            lemma_leaves_le_size(self.head, Seq::empty());
            lemma_packets_len(lm, true);
            lemma_packets_len(lm, false);
        }
        let lv = self.leaves();
        out.push(FrameMeta::new(true, true, false).to_byte());
        let mut count_yes: usize = 1;
        let mut i: usize = 0;
        while i < lv.len()
            invariant
                0 <= i <= lv.len(),
                models(lv@) == lm,
                v1_storable(lm),
                lm.len() <= 0x2000_0000,
                out@ == old(out)@ + seq![
                    meta_byte(FrameMeta { active_feature: true, partial: true, display: false }),
                ] + packets_of(lm.take(i as int), true),
                count_yes == 1 + packets_of(lm.take(i as int), true).len(),
                count_yes <= 1 + 4 * i,
                old(out)@.len() + 2 + 8 * lm.len() <= usize::MAX,
            decreases lv.len() - i,
        {
            proof {
                assert(lm.take(i + 1).drop_last() =~= lm.take(i as int));
                assert(lm.take(i + 1).last() == lm[i as int]);
                assert(lm[i as int] == models(lv@)[i as int]);
                lemma_packets_len(lm.take(i + 1), true);
            }
            if lv[i].feat_or_data(true) {
                let w = lv[i].write(out);
                count_yes += w;
            }
            proof {
                assert(out@ =~= old(out)@ + seq![
                    meta_byte(FrameMeta { active_feature: true, partial: true, display: false }),
                ] + packets_of(lm.take(i + 1), true));
            }
            i += 1;
        }
        proof {
            assert(lm.take(lv@.len() as int) =~= lm);
        }
        let ghost mid = out@;
        out.push(FrameMeta::new(false, true, true).to_byte());
        let mut count_no: usize = 1;
        let mut j: usize = 0;
        while j < lv.len()
            invariant
                0 <= j <= lv.len(),
                models(lv@) == lm,
                v1_storable(lm),
                lm.len() <= 0x2000_0000,
                mid == old(out)@ + seq![
                    meta_byte(FrameMeta { active_feature: true, partial: true, display: false }),
                ] + packets_of(lm, true),
                out@ == mid + seq![
                    meta_byte(FrameMeta { active_feature: false, partial: true, display: true }),
                ] + packets_feature(lm.take(j as int), false),
                count_no == 1 + packets_feature(lm.take(j as int), false).len(),
                count_no <= 1 + 4 * j,
                mid.len() + 1 + 4 * lm.len() <= usize::MAX,
            decreases lv.len() - j,
        {
            proof {
                assert(lm.take(j + 1).drop_last() =~= lm.take(j as int));
                assert(lm.take(j + 1).last() == lm[j as int]);
                assert(lm[j as int] == models(lv@)[j as int]);
                lemma_packets_len(lm.take(j + 1), false);
            }
            let is_feature_off = match lv[j].data {
                LeafData::Feature(f) => !f,
                LeafData::Bitmap(_) => false,
            };
            if is_feature_off {
                let w = lv[j].write(out);
                count_no += w;
            }
            proof {
                assert(out@ =~= mid + seq![
                    meta_byte(FrameMeta { active_feature: false, partial: true, display: true }),
                ] + packets_feature(lm.take(j + 1), false));
            }
            j += 1;
        }
        proof {
            assert(lm.take(lv@.len() as int) =~= lm);
            assert(out@ =~= old(out)@ + v1_delta_payloads(lm));
        }
        (count_yes, count_no)
    }
}


/// A tree built from a 128x64 raster has at most 8194 terminal nodes.
pub proof fn lemma_tree_size(r: Seq<u8>, use_bitmap: bool)
    ensures
        size(build_tree(r, use_bitmap)) <= 8194,
{
    let z = zorder_128x64(r);
    lemma_zquad_len(r, 0, 0, 64);
    lemma_zquad_len(r, 64, 0, 64);
    if !uniform_bits(z) {
        lemma_build_size(z.subrange(0, 4096), 64, use_bitmap);
        lemma_build_size(z.subrange(4096, 8192), 64, use_bitmap);
        let l = build_sector(z.subrange(0, 4096), 64, use_bitmap);
        let rr = build_sector(z.subrange(4096, 8192), 64, use_bitmap);
        let head = Node::Branch(Box::new(l), Box::new(rr), Box::new(Node::Empty), Box::new(Node::Empty));
        assert(build_tree(r, use_bitmap) == head);
        assert(size(Node::Empty) == 1);
        assert(size(head) == size(l) + size(rr) + 2);
    } else {
        assert(size(build_tree(r, use_bitmap)) == 1);
    }
}

/// A sector built without tiles holds no tile leaf.
pub proof fn lemma_build_no_bitmap(bits: Seq<bool>, side: nat)
    ensures
        !has_bitmap(build_sector(bits, side, false)),
    decreases side,
{
    if !uniform_bits(bits) && side >= 2 {
        let q = bits.len() as int / 4;
        lemma_build_no_bitmap(bits.subrange(0, q), side / 2);
        lemma_build_no_bitmap(bits.subrange(q, 2 * q), side / 2);
        lemma_build_no_bitmap(bits.subrange(2 * q, 3 * q), side / 2);
        lemma_build_no_bitmap(bits.subrange(3 * q, 4 * q), side / 2);
    }
}

/// A tree built from a raster without tiles holds no tile leaf.
pub proof fn lemma_tree_no_bitmap(r: Seq<u8>)
    ensures
        !has_bitmap(build_tree(r, false)),
{
    let z = zorder_128x64(r);
    lemma_zquad_len(r, 0, 0, 64);
    lemma_zquad_len(r, 64, 0, 64);
    if !uniform_bits(z) {
        lemma_build_no_bitmap(z.subrange(0, 4096), 64);
        lemma_build_no_bitmap(z.subrange(4096, 8192), 64);
        let l = build_sector(z.subrange(0, 4096), 64, false);
        let rr = build_sector(z.subrange(4096, 8192), 64, false);
        let head = Node::Branch(Box::new(l), Box::new(rr), Box::new(Node::Empty), Box::new(Node::Empty));
        assert(build_tree(r, false) == head);
        assert(!has_bitmap(Node::Empty));
        assert(!has_bitmap(head));
    } else {
        assert(!has_bitmap(build_tree(r, false)));
    }
}

/// A diff of a tile-free tree is tile-free: the diff only copies subtrees
/// of the new tree.
pub proof fn lemma_diff_no_bitmap(a: Node, b: Node)
    requires
        !has_bitmap(a),
    ensures
        !has_bitmap(diff_node(a, b)),
    decreases a,
{
    match (a, b) {
        (Node::Branch(a0, a1, a2, a3), Node::Branch(b0, b1, b2, b3)) => {
            lemma_diff_no_bitmap(*a0, *b0);
            lemma_diff_no_bitmap(*a1, *b1);
            lemma_diff_no_bitmap(*a2, *b2);
            lemma_diff_no_bitmap(*a3, *b3);
        },
        _ => {},
    }
}


/// Tile leaves that sit at depth 5 exactly, as the packet form requires.
pub open spec fn bitmaps_at_five(s: Seq<LeafModel>) -> bool {
    forall|i: int|
        0 <= i < s.len() ==> ((#[trigger] s[i]).data is Bitmap ==> s[i].pos.len() == 5)
}

/// The packets of a leaf run, split off at the front.
pub proof fn lemma_packets_front(s: Seq<LeafModel>, feat: bool)
    requires
        s.len() > 0,
    ensures
        packets_of(s, feat) == (if leaf_listed(s.first().data, feat) {
            leaf_packet(s.first().pos, s.first().data)
        } else {
            Seq::<u8>::empty()
        }) + packets_of(s.drop_first(), feat),
    decreases s.len(),
{
    let front = if leaf_listed(s.first().data, feat) {
        leaf_packet(s.first().pos, s.first().data)
    } else {
        Seq::<u8>::empty()
    };
    if s.len() == 1 {
        assert(s.drop_last() =~= Seq::<LeafModel>::empty());
        assert(s.drop_first() =~= Seq::<LeafModel>::empty());
        assert(s.first() == s.last());
        assert(packets_of(s, feat) =~= front + packets_of(s.drop_first(), feat));
    } else {
        let dl = s.drop_last();
        lemma_packets_front(dl, feat);
        assert(dl.first() == s.first());
        assert(s.drop_first().drop_last() =~= dl.drop_first());
        assert(s.drop_first().last() == s.last());
        assert(s.drop_first().len() > 0);
        assert(packets_of(s, feat) == packets_of(dl, feat) + (if leaf_listed(
            s.last().data,
            feat,
        ) {
            leaf_packet(s.last().pos, s.last().data)
        } else {
            Seq::<u8>::empty()
        }));
        assert(packets_of(s, feat) =~= front + packets_of(s.drop_first(), feat));
    }
}


/// Law: a uniform frame compacts to a single root leaf.  Its V1 payload is
/// exactly the header carrying the frame's colour and one depth-0 packet;
/// its V2 payload is exactly one byte, the root leaf's code padded out.
pub proof fn lemma_uniform_frame(r: Seq<u8>)
    requires
        uniform_bits(zorder_128x64(r)),
    ensures
        leaves_of(build_tree(r, true), Seq::empty()) == seq![
            LeafModel { pos: Seq::empty(), data: LeafData::Feature(zorder_128x64(r)[0]) },
        ],
        v1_full_payload(leaves_of(build_tree(r, true), Seq::empty())) == seq![
            meta_byte(
                FrameMeta {
                    active_feature: zorder_128x64(r)[0],
                    partial: false,
                    display: true,
                },
            ),
            128u8,
        ],
        pack_bits(compact_bits(build_tree(r, false))) == seq![
            (if zorder_128x64(r)[0] {
                0xC0u8
            } else {
                0x80u8
            }),
        ],
{
    let z = zorder_128x64(r);
    let c = z[0];
    let root = Node::Leaf(LeafData::Feature(c));
    assert(build_tree(r, true) == root);
    assert(build_tree(r, false) == root);
    let lm = LeafModel { pos: Seq::empty(), data: LeafData::Feature(c) };
    let s = leaves_of(root, Seq::empty());
    assert(s =~= seq![lm]);
    assert(s.drop_last() =~= Seq::<LeafModel>::empty());
    assert(s.last() == lm);
    assert(count_listed(Seq::<LeafModel>::empty(), true) == 0);
    assert(count_listed(Seq::<LeafModel>::empty(), false) == 0);
    assert(packets_of(Seq::<LeafModel>::empty(), c) =~= Seq::<u8>::empty());
    assert(count_listed(s, true) == (if c {
        1nat
    } else {
        0nat
    }));
    assert(count_listed(s, false) == (if c {
        0nat
    } else {
        1nat
    }));
    assert(v1_active(s) == c);
    assert(pos_at(Seq::empty(), 0) == 0 && pos_at(Seq::empty(), 1) == 0);
    assert(packet_byte0(lm.pos, lm.data) == 128);
    assert(leaf_packet(lm.pos, lm.data) =~= seq![128u8]);
    assert(packets_of(s, c) =~= seq![128u8]);
    assert(v1_full_payload(s) =~= seq![
        meta_byte(FrameMeta { active_feature: c, partial: false, display: true }),
        128u8,
    ]);
    let bits = compact_bits(root);
    assert(bits =~= seq![true, c]);
    assert(byte_of_bits(bits, 0) == (if c {
        0xC0u8
    } else {
        0x80u8
    }));
    assert(pack_bits(bits) =~= seq![
        (if c {
            0xC0u8
        } else {
            0x80u8
        }),
    ]);
}


/// Every tile leaf of a sector built with tiles sits exactly where the
/// splits bottom out: two levels above single pixels.
pub proof fn lemma_built_bitmap_depth(bits: Seq<bool>, side: nat, prefix: Seq<u8>)
    requires
        pow2_side(side),
        side >= 4,
    ensures
        forall|i: int|
            0 <= i < leaves_of(build_sector(bits, side, true), prefix).len() ==> ((#[trigger]
            leaves_of(build_sector(bits, side, true), prefix)[i]).data is Bitmap ==> leaves_of(
                build_sector(bits, side, true),
                prefix,
            )[i].pos.len() == prefix.len() + side_log(side) - 2),
    decreases side,
{
    if !uniform_bits(bits) && side > 4 {
        let q = bits.len() as int / 4;
        lemma_built_bitmap_depth(bits.subrange(0, q), side / 2, prefix.push(0));
        lemma_built_bitmap_depth(bits.subrange(q, 2 * q), side / 2, prefix.push(1));
        lemma_built_bitmap_depth(bits.subrange(2 * q, 3 * q), side / 2, prefix.push(2));
        lemma_built_bitmap_depth(bits.subrange(3 * q, 4 * q), side / 2, prefix.push(3));
    }
}

/// The leaves of a tree built with tiles are storable as V1 packets: at
/// most depth 5, quadrant indices only, tiles at depth 5 exactly.
pub proof fn lemma_built_tree_storable(r: Seq<u8>)
    ensures
        v1_storable(leaves_of(build_tree(r, true), Seq::empty())),
        bitmaps_at_five(leaves_of(build_tree(r, true), Seq::empty())),
{
    let z = zorder_128x64(r);
    lemma_zquad_len(r, 0, 0, 64);
    lemma_zquad_len(r, 64, 0, 64);
    let head = build_tree(r, true);
    lemma_leaves_wf(head, Seq::empty());
    if uniform_bits(z) {
        assert(height(head) == 0);
    } else {
        let l = build_sector(z.subrange(0, 4096), 64, true);
        let rr = build_sector(z.subrange(4096, 8192), 64, true);
        lemma_build_height(z.subrange(0, 4096), 64, true);
        lemma_build_height(z.subrange(4096, 8192), 64, true);
        assert(height(Node::Empty) == 0);
        assert(height(head) <= 5) by {
            let hl = height(l);
            let hr = height(rr);
            let a = if hl >= hr {
                hl
            } else {
                hr
            };
            let b = if a >= 0 {
                a
            } else {
                0
            };
            assert(height(head) == 1 + b);
        }
        lemma_built_bitmap_depth(z.subrange(0, 4096), 64, seq![0u8]);
        lemma_built_bitmap_depth(z.subrange(4096, 8192), 64, seq![1u8]);
        assert(leaves_of(head, Seq::empty()) =~= leaves_of(l, seq![0u8]) + leaves_of(
            rr,
            seq![1u8],
        )) by {
            assert(Seq::<u8>::empty().push(0) =~= seq![0u8]);
            assert(Seq::<u8>::empty().push(1) =~= seq![1u8]);
            assert(leaves_of(Node::Empty, Seq::<u8>::empty().push(2)) =~= Seq::<LeafModel>::empty());
            assert(leaves_of(Node::Empty, Seq::<u8>::empty().push(3)) =~= Seq::<LeafModel>::empty());
        }
    }
}


/// A tree built from a raster is at most 7 levels tall.
pub proof fn lemma_tree_height(r: Seq<u8>, use_bitmap: bool)
    ensures
        height(build_tree(r, use_bitmap)) <= 7,
{
    let z = zorder_128x64(r);
    if !uniform_bits(z) {
        let l = build_sector(z.subrange(0, 4096), 64, use_bitmap);
        let rr = build_sector(z.subrange(4096, 8192), 64, use_bitmap);
        lemma_build_height(z.subrange(0, 4096), 64, use_bitmap);
        lemma_build_height(z.subrange(4096, 8192), 64, use_bitmap);
        let head = Node::Branch(
            Box::new(l),
            Box::new(rr),
            Box::new(Node::Empty),
            Box::new(Node::Empty),
        );
        assert(build_tree(r, use_bitmap) == head);
        assert(height(Node::Empty) == 0);
        let hl = height(l);
        let hr = height(rr);
        let a = if hl >= hr {
            hl
        } else {
            hr
        };
        let b = if a >= 0 {
            a
        } else {
            0
        };
        assert(height(head) == 1 + b);
    }
}


/// The solid-colour packets of a leaf run, split off at the front.
pub proof fn lemma_packets_feature_front(s: Seq<LeafModel>, feat: bool)
    requires
        s.len() > 0,
    ensures
        packets_feature(s, feat) == (if s.first().data == LeafData::Feature(feat) {
            leaf_packet(s.first().pos, s.first().data)
        } else {
            Seq::<u8>::empty()
        }) + packets_feature(s.drop_first(), feat),
    decreases s.len(),
{
    let front = if s.first().data == LeafData::Feature(feat) {
        leaf_packet(s.first().pos, s.first().data)
    } else {
        Seq::<u8>::empty()
    };
    if s.len() == 1 {
        assert(s.drop_last() =~= Seq::<LeafModel>::empty());
        assert(s.drop_first() =~= Seq::<LeafModel>::empty());
        assert(s.first() == s.last());
        assert(packets_feature(s, feat) =~= front + packets_feature(s.drop_first(), feat));
    } else {
        let dl = s.drop_last();
        lemma_packets_feature_front(dl, feat);
        assert(dl.first() == s.first());
        assert(s.drop_first().drop_last() =~= dl.drop_first());
        assert(s.drop_first().last() == s.last());
        assert(s.drop_first().len() > 0);
        assert(packets_feature(s, feat) =~= front + packets_feature(s.drop_first(), feat));
    }
}


/// One position is an ancestor-or-equal of another when it is a prefix.
pub open spec fn pos_prefix_of(a: Seq<u8>, b: Seq<u8>) -> bool {
    a.len() <= b.len() && b.take(a.len() as int) == a
}

/// Every leaf below a node carries the node's own position as a prefix.
pub proof fn lemma_leaves_extend(n: Node, prefix: Seq<u8>)
    ensures
        forall|i: int|
            0 <= i < leaves_of(n, prefix).len() ==> {
                &&& (#[trigger] leaves_of(n, prefix)[i]).pos.len() >= prefix.len()
                &&& leaves_of(n, prefix)[i].pos.take(prefix.len() as int) == prefix
            },
    decreases n,
{
    match n {
        Node::Branch(c0, c1, c2, c3) => {
            lemma_leaves_extend(*c0, prefix.push(0));
            lemma_leaves_extend(*c1, prefix.push(1));
            lemma_leaves_extend(*c2, prefix.push(2));
            lemma_leaves_extend(*c3, prefix.push(3));
            let pl = prefix.len() as int;
            assert forall|i: int|
                0 <= i < leaves_of(n, prefix).len() implies {
                &&& (#[trigger] leaves_of(n, prefix)[i]).pos.len() >= prefix.len()
                &&& leaves_of(n, prefix)[i].pos.take(pl) == prefix
            } by {
                let q = leaves_of(n, prefix)[i].pos;
                assert(q.len() >= pl + 1);
                assert(q.take(pl + 1).take(pl) =~= q.take(pl));
                assert(prefix.push(0).take(pl) =~= prefix);
                assert(prefix.push(1).take(pl) =~= prefix);
                assert(prefix.push(2).take(pl) =~= prefix);
                assert(prefix.push(3).take(pl) =~= prefix);
            }
        },
        _ => {
            assert forall|i: int|
                0 <= i < leaves_of(n, prefix).len() implies {
                &&& (#[trigger] leaves_of(n, prefix)[i]).pos.len() >= prefix.len()
                &&& leaves_of(n, prefix)[i].pos.take(prefix.len() as int) == prefix
            } by {
                assert(leaves_of(n, prefix)[i].pos =~= prefix);
                assert(prefix.take(prefix.len() as int) =~= prefix);
            }
        },
    }
}

/// Law: two different leaves of one tree sit at positions neither of
/// which is a prefix of the other; their regions therefore never overlap.
pub proof fn lemma_leaves_nonprefix(n: Node, prefix: Seq<u8>)
    ensures
        forall|i: int, j: int|
            0 <= i < j < leaves_of(n, prefix).len() ==> !pos_prefix_of(
                (#[trigger] leaves_of(n, prefix)[i]).pos,
                (#[trigger] leaves_of(n, prefix)[j]).pos,
            ) && !pos_prefix_of(leaves_of(n, prefix)[j].pos, leaves_of(n, prefix)[i].pos),
    decreases n,
{
    match n {
        Node::Branch(c0, c1, c2, c3) => {
            lemma_leaves_nonprefix(*c0, prefix.push(0));
            lemma_leaves_nonprefix(*c1, prefix.push(1));
            lemma_leaves_nonprefix(*c2, prefix.push(2));
            lemma_leaves_nonprefix(*c3, prefix.push(3));
            lemma_leaves_extend(*c0, prefix.push(0));
            lemma_leaves_extend(*c1, prefix.push(1));
            lemma_leaves_extend(*c2, prefix.push(2));
            lemma_leaves_extend(*c3, prefix.push(3));
            let L = leaves_of(n, prefix);
            let l0 = leaves_of(*c0, prefix.push(0));
            let l1 = leaves_of(*c1, prefix.push(1));
            let l2 = leaves_of(*c2, prefix.push(2));
            let l3 = leaves_of(*c3, prefix.push(3));
            let e0 = l0.len() as int;
            let e1 = e0 + l1.len();
            let e2 = e1 + l2.len();
            let pl = prefix.len() as int;
            assert forall|m: int|
                0 <= m < L.len() implies L[m].pos.len() > pl && #[trigger] L[m].pos[pl] == (if m
                < e0 {
                0u8
            } else if m < e1 {
                1u8
            } else if m < e2 {
                2u8
            } else {
                3u8
            }) by {
                if m < e0 {
                    assert(L[m] == l0[m]);
                    assert(L[m].pos.take(pl + 1) == prefix.push(0));
                    assert(L[m].pos.take(pl + 1)[pl] == L[m].pos[pl]);
                } else if m < e1 {
                    assert(L[m] == l1[m - e0]);
                    assert(L[m].pos.take(pl + 1) == prefix.push(1));
                    assert(L[m].pos.take(pl + 1)[pl] == L[m].pos[pl]);
                } else if m < e2 {
                    assert(L[m] == l2[m - e1]);
                    assert(L[m].pos.take(pl + 1) == prefix.push(2));
                    assert(L[m].pos.take(pl + 1)[pl] == L[m].pos[pl]);
                } else {
                    assert(L[m] == l3[m - e2]);
                    assert(L[m].pos.take(pl + 1) == prefix.push(3));
                    assert(L[m].pos.take(pl + 1)[pl] == L[m].pos[pl]);
                }
            }
            assert forall|i: int, j: int|
                0 <= i < j < L.len() implies !pos_prefix_of(
                (#[trigger] L[i]).pos,
                (#[trigger] L[j]).pos,
            ) && !pos_prefix_of(L[j].pos, L[i].pos) by {
                let a = L[i].pos;
                let b = L[j].pos;
                if j < e0 {
                    assert(L[i] == l0[i] && L[j] == l0[j]);
                } else if e0 <= i && j < e1 {
                    assert(L[i] == l1[i - e0] && L[j] == l1[j - e0]);
                } else if e1 <= i && j < e2 {
                    assert(L[i] == l2[i - e1] && L[j] == l2[j - e1]);
                } else if e2 <= i {
                    assert(L[i] == l3[i - e2] && L[j] == l3[j - e2]);
                } else {
                    // the two leaves come from different children and differ
                    // right after the shared prefix
                    assert(a[pl] != b[pl]);
                    if pos_prefix_of(a, b) {
                        assert(b.take(a.len() as int)[pl] == b[pl]);
                        assert(false);
                    }
                    if pos_prefix_of(b, a) {
                        assert(a.take(b.len() as int)[pl] == a[pl]);
                        assert(false);
                    }
                }
            }
        },
        _ => {},
    }
}

} // verus!
