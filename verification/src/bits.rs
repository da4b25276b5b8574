//! Bit-level primitives: MSB-first bit access over byte buffers, and the
//! growable bit buffer that holds a frame's Z-order-curve linearisation.
//!
//! The bit buffer is a bitvec bit-vector; the spec function `zbits` names
//! the bits it holds.
use vstd::prelude::*;

verus! {

/// The MSB-first bit at index `i` of a byte.
pub open spec fn byte_bit(b: u8, i: int) -> bool {
    (b >> ((7 - i) as u8)) & 1 == 1
}

/// The MSB-first bit stream of a byte sequence: bit `i` lives in byte
/// `i / 8` at in-byte index `i % 8`.
pub open spec fn bytes_bit(bytes: Seq<u8>, i: int) -> bool {
    byte_bit(bytes[i / 8], i % 8)
}

/// The pixel at column `x` of row `y` of a 128-pixel-wide raster packed
/// MSB-first row-major.
pub open spec fn raster_pixel(r: Seq<u8>, x: int, y: int) -> bool {
    bytes_bit(r, y * 128 + x)
}

/// Reads one bit of an MSB-first byte buffer.
pub fn get_bit(bytes: &[u8], i: usize) -> (r: bool)
    requires
        i < bytes@.len() * 8,
    ensures
        r == bytes_bit(bytes@, i as int),
{
    proof {
        assert(i / 8 < bytes@.len());
    }
    let b = bytes[i / 8];
    let k: u8 = 7 - (i % 8) as u8;
    (b >> k) & 1 == 1
}

/// The bit buffer a Z-order linearisation is pushed into.  The bits live
/// in an MSB-first bitvec bit-vector, which Verus does not look into; the
/// spec function `zbits` names the bits it holds.
#[verifier::external_body]
pub struct ZBits {
    bits: bitvec::vec::BitVec<u8, bitvec::order::Msb0>,
}

/// The bits a bit buffer holds, in order.
pub uninterp spec fn zbits(z: ZBits) -> Seq<bool>;

/// Relies on bitvec::vec::BitVec::new: a fresh bit-vector is empty.
#[verifier::external_body]
pub fn zb_new() -> (r: ZBits)
    ensures
        zbits(r) == Seq::<bool>::empty(),
{
    ZBits { bits: bitvec::vec::BitVec::new() }
}

/// Relies on bitvec::vec::BitVec::push: appends one bit.  The push panics
/// only when the length would exceed the encodable maximum, which the
/// length bound keeps far away.
#[verifier::external_body]
pub fn zb_push(z: &mut ZBits, b: bool)
    requires
        zbits(*old(z)).len() < 0x1000_0000,
    ensures
        zbits(*final(z)) == zbits(*old(z)).push(b),
{
    z.bits.push(b)
}

/// Relies on the Index impl of bitvec::slice::BitSlice: reads one bit.
#[verifier::external_body]
pub fn zb_get(z: &ZBits, i: usize) -> (r: bool)
    requires
        i < zbits(*z).len(),
    ensures
        r == zbits(*z)[i as int],
{
    z.bits[i]
}

} // verus!
