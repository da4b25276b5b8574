//! Quadtree positions: the path from the root of the tree to a node, one
//! child index (0 = top-left, 1 = top-right, 2 = bottom-left, 3 =
//! bottom-right) per level, at most 7 levels deep.
//!
//! A position is held in a fixed-capacity heapless vector; the spec function
//! `pos_seq` names the elements it holds.
use vstd::prelude::*;

verus! {

/// A node position: child indices from the root, at most 7 deep.
pub type Position = heapless::Vec<u8, 7>;

#[verifier::external_type_specification]
#[verifier::external_body]
#[verifier::reject_recursive_types(T)]
pub struct ExHeaplessVec<T, const N: usize>(heapless::Vec<T, N>);

/// The elements a position vector holds, root-most first.
pub uninterp spec fn pos_seq(p: Position) -> Seq<u8>;

/// A well-formed position: at most 7 deep, each element a quadrant index.
pub open spec fn pos_wf(s: Seq<u8>) -> bool {
    &&& s.len() <= 7
    &&& forall|i: int| 0 <= i < s.len() ==> s[i] <= 3
}

/// Relies on heapless::Vec::new: a fresh vector is empty.
#[verifier::external_body]
pub fn pos_new() -> (r: Position)
    ensures
        pos_seq(r) == Seq::<u8>::empty(),
{
    heapless::Vec::new()
}

/// Relies on heapless::Vec::push: appends the item while below the capacity
/// of 7 and returns it back once the vector is full.
#[verifier::external_body]
pub fn pos_push(p: &mut Position, v: u8) -> (r: Result<(), u8>)
    ensures
        pos_seq(*final(p)) == (if pos_seq(*old(p)).len() < 7 {
            pos_seq(*old(p)).push(v)
        } else {
            pos_seq(*old(p))
        }),
        r == (if pos_seq(*old(p)).len() < 7 {
            Ok::<(), u8>(())
        } else {
            Err::<(), u8>(v)
        }),
{
    p.push(v)
}

/// Relies on heapless::Vec::pop: removes and returns the last element.
#[verifier::external_body]
pub fn pos_pop(p: &mut Position) -> (r: Option<u8>)
    ensures
        pos_seq(*final(p)) == (if pos_seq(*old(p)).len() == 0 {
            pos_seq(*old(p))
        } else {
            pos_seq(*old(p)).drop_last()
        }),
        r == (if pos_seq(*old(p)).len() == 0 {
            None::<u8>
        } else {
            Some(pos_seq(*old(p)).last())
        }),
{
    p.pop()
}

/// Relies on heapless::Vec::len, and on the capacity bound of the type:
/// a vector with capacity 7 never holds more than 7 elements.
#[verifier::external_body]
pub fn pos_len(p: &Position) -> (r: usize)
    ensures
        r == pos_seq(*p).len(),
        r <= 7,
{
    p.len()
}

/// Relies on the slice view of heapless::Vec (its Deref impl) for indexing.
#[verifier::external_body]
pub fn pos_get(p: &Position, i: usize) -> (r: u8)
    requires
        i < pos_seq(*p).len(),
    ensures
        r == pos_seq(*p)[i as int],
{
    p[i]
}

/// Relies on heapless::Vec::truncate: keeps the first `len` elements and
/// leaves a shorter vector unchanged.
#[verifier::external_body]
pub fn pos_truncate(p: &mut Position, len: usize)
    ensures
        len >= pos_seq(*old(p)).len() ==> pos_seq(*final(p)) == pos_seq(*old(p)),
        len < pos_seq(*old(p)).len() ==> pos_seq(*final(p)) == pos_seq(*old(p)).take(len as int),
{
    p.truncate(len)
}

/// Relies on heapless::Vec's Clone impl: the copy holds the same elements.
#[verifier::external_body]
pub fn pos_clone(p: &Position) -> (r: Position)
    ensures
        pos_seq(r) == pos_seq(*p),
{
    p.clone()
}

/// The position counter after one advance: trailing quadrant indices of 3
/// are popped, then the new last index is incremented; advancing past the
/// last sibling of the root leaves the empty position.
pub open spec fn advance(s: Seq<u8>) -> Seq<u8>
    decreases s.len(),
{
    if s.len() == 0 {
        s
    } else if s.last() < 3 {
        s.update(s.len() - 1, (s.last() + 1) as u8)
    } else {
        advance(s.drop_last())
    }
}

/// Advances a position counter to the next sibling, carrying into the
/// parent when the last quadrant of a branch has been visited.
pub fn next_pos(pos: &mut Position) -> (r: Option<()>)
    requires
        pos_seq(*old(pos)).len() <= 7,
    ensures
        pos_seq(*final(pos)) == advance(pos_seq(*old(pos))),
        r == Some::<()>(()),
{
    let ghost orig = pos_seq(*pos);
    loop
        invariant
            orig == pos_seq(*old(pos)),
            pos_seq(*pos).len() <= 7,
            advance(pos_seq(*pos)) == advance(orig),
        decreases pos_seq(*pos).len(),
    {
        let ghost cur = pos_seq(*pos);
        match pos_pop(pos) {
            None => {
                return Some(());
            },
            Some(x) => {
                if x < 3 {
                    let res = pos_push(pos, x + 1);
                    proof {
                        assert(pos_seq(*pos) =~= advance(cur));
                    }
                    return Some(());
                }
            },
        }
    }
}

/// Advancing never lengthens a position counter.
pub proof fn lemma_advance_len(s: Seq<u8>)
    ensures
        advance(s).len() <= s.len(),
    decreases s.len(),
{
    if s.len() > 0 && s.last() >= 3 {
        lemma_advance_len(s.drop_last());
    }
}

} // verus!
