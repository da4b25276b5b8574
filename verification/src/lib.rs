//! A codec for 128x64 monochrome framebuffers.
//!
//! A frame is linearised along a Z-order curve, decomposed into a quadtree,
//! and serialised in one of two bit-exact wire formats: V1 packs one packet
//! per leaf behind a one-byte header, V2 writes the tree as a pre-order
//! two-bits-per-node stream.  Frames can be self-contained (I-frames) or
//! expressed as a structural diff against the previous frame (P-frames).
use vstd::prelude::*;

pub mod bits;
pub mod dec;
pub mod dec_video;
pub mod enc;
pub mod enc_video;
pub mod pos;
pub mod raster;

verus! {

use crate::dec::ParseError;
use crate::pos::{Position, pos_seq, pos_len, pos_get, pos_clone};

/// The one-byte header of a V1 payload.
#[derive(Debug, PartialEq, Eq, Structural, Clone, Copy)]
pub struct FrameMeta {
    /// Which colour the listed leaves carry; the background is the opposite.
    pub active_feature: bool,
    /// Tells the decoder not to clear the framebuffer before painting.
    pub partial: bool,
    /// Tells the decoder to present the framebuffer after this payload.
    pub display: bool,
}

/// The byte a header packs to: `active_feature`, `partial` and `display`
/// occupy the three lowest bits, from the least significant up.
pub open spec fn meta_byte(m: FrameMeta) -> u8 {
    ((if m.active_feature {
        1u8
    } else {
        0u8
    }) + (if m.partial {
        2u8
    } else {
        0u8
    }) + (if m.display {
        4u8
    } else {
        0u8
    })) as u8
}

/// The header a byte at most 7 parses to.
pub open spec fn meta_of_byte(v: u8) -> FrameMeta {
    FrameMeta {
        active_feature: v % 2 == 1,
        partial: (v / 2) % 2 == 1,
        display: (v / 4) % 2 == 1,
    }
}

impl FrameMeta {
    pub fn new(active_feature: bool, partial: bool, display: bool) -> (r: Self)
        ensures
            r == (FrameMeta { active_feature, partial, display }),
    {
        Self { active_feature, partial, display }
    }

    /// Packs the header into its wire byte.
    pub fn to_byte(self) -> (r: u8)
        ensures
            r == meta_byte(self),
            r <= 7,
    {
        (if self.active_feature {
            1u8
        } else {
            0u8
        }) + (if self.partial {
            2u8
        } else {
            0u8
        }) + (if self.display {
            4u8
        } else {
            0u8
        })
    }

    /// Parses a wire byte; bytes above 7 are rejected as an invalid header.
    pub fn try_from_byte(value: u8) -> (r: Result<Self, ParseError>)
        ensures
            value <= 7 ==> r == Ok::<FrameMeta, ParseError>(meta_of_byte(value)),
            value > 7 ==> r == Err::<FrameMeta, ParseError>(ParseError::InvalidHeader),
    {
        if value <= 7 {
            Ok(Self {
                active_feature: value % 2 == 1,
                partial: (value / 2) % 2 == 1,
                display: (value / 4) % 2 == 1,
            })
        } else {
            Err(ParseError::InvalidHeader)
        }
    }
}

/// Law: packing a header to its byte and parsing the byte back returns the
/// original header, for every combination of the three flags.
pub proof fn lemma_meta_roundtrip(m: FrameMeta)
    ensures
        meta_byte(m) <= 7,
        meta_of_byte(meta_byte(m)) == m,
{
}

/// Law: parsing a valid header byte and packing the result returns the
/// original byte.
pub proof fn lemma_meta_byte_roundtrip(v: u8)
    requires
        v <= 7,
    ensures
        meta_byte(meta_of_byte(v)) == v,
{
}

/// The payload of a quadtree leaf: either a solid colour covering the
/// leaf's whole region, or an explicit 4x4 tile of pixels.
#[derive(Debug, PartialEq, Eq, Clone, Copy)]
pub enum LeafData {
    Feature(bool),
    Bitmap([u8; 2]),
}

impl LeafData {
    /// Structural equality, usable from executable code.
    pub fn matches(&self, other: &LeafData) -> (r: bool)
        ensures
            r == (*self == *other),
    {
        match (self, other) {
            (LeafData::Feature(a), LeafData::Feature(b)) => *a == *b,
            (LeafData::Bitmap(a), LeafData::Bitmap(b)) => {
                let r = a[0] == b[0] && a[1] == b[1];
                proof {
                    if r {
                        assert(*a =~= *b);
                    }
                }
                r
            },
            _ => false,
        }
    }
}

/// A leaf of the quadtree together with the position it sits at.
#[derive(Debug, PartialEq)]
pub struct Leaf {
    pub data: LeafData,
    pub pos: Position,
}

impl Leaf {
    /// The position elements of this leaf, root-most first.
    pub open spec fn pos_view(&self) -> Seq<u8> {
        pos_seq(self.pos)
    }

    pub fn new(data: LeafData, pos: Position) -> (r: Self)
        ensures
            r.data == data,
            r.pos_view() == pos_seq(pos),
    {
        Self { data, pos }
    }

    /// How deep in the tree the leaf sits; the root is at depth 0.
    pub fn depth(&self) -> (r: usize)
        ensures
            r == self.pos_view().len(),
            r <= 7,
    {
        pos_len(&self.pos)
    }

    /// Whether this leaf's region contains the other leaf's region: this
    /// leaf's position must be a prefix of the other's.
    pub fn contains(&self, other: &Self) -> (r: bool)
        ensures
            r == (self.pos_view().len() <= other.pos_view().len() && other.pos_view().take(
                self.pos_view().len() as int,
            ) == self.pos_view()),
    {
        let n = pos_len(&self.pos);
        if n > pos_len(&other.pos) {
            return false;
        }
        let mut i: usize = 0;
        while i < n
            invariant
                0 <= i <= n,
                n == self.pos_view().len(),
                n <= other.pos_view().len(),
                forall|j: int| 0 <= j < i ==> self.pos_view()[j] == other.pos_view()[j],
            decreases n - i,
        {
            if pos_get(&other.pos, i) != pos_get(&self.pos, i) {
                return false;
            }
            i += 1;
        }
        proof {
            assert(other.pos_view().take(n as int) =~= self.pos_view());
        }
        true
    }

    /// Whether the leaf is listed in a payload whose active colour is
    /// `feat`: tiles are always listed, a solid leaf only when its colour
    /// is the active one.
    pub fn feat_or_data(&self, feat: bool) -> (r: bool)
        ensures
            r == leaf_listed(self.data, feat),
    {
        match self.data {
            LeafData::Bitmap(_) => true,
            LeafData::Feature(f) => f == feat,
        }
    }

}

impl Clone for Leaf {
    /// A copy of the leaf: same payload, same position.
    fn clone(&self) -> (r: Self)
        ensures
            r.data == self.data,
            r.pos_view() == self.pos_view(),
    {
        Leaf { data: self.data, pos: pos_clone(&self.pos) }
    }
}

/// Whether a leaf with payload `data` belongs to the list of a payload
/// whose active colour is `feat`.
pub open spec fn leaf_listed(data: LeafData, feat: bool) -> bool {
    match data {
        LeafData::Bitmap(_) => true,
        LeafData::Feature(f) => f == feat,
    }
}

/// The mathematical view of a leaf: its position elements and its payload.
pub ghost struct LeafModel {
    pub pos: Seq<u8>,
    pub data: LeafData,
}

impl Leaf {
    /// The view of this leaf.
    pub open spec fn model(&self) -> LeafModel {
        LeafModel { pos: self.pos_view(), data: self.data }
    }
}

/// The views of a run of leaves.
pub open spec fn models(v: Seq<Leaf>) -> Seq<LeafModel> {
    v.map_values(|l: Leaf| l.model())
}

} // verus!
