//! A concrete raster sink for the decoder: a 128x64 monochrome
//! framebuffer, pixels packed MSB-first row-major, with clear, rectangle
//! fill and 4x4 tile drawing.
use vstd::prelude::*;

verus! {

use crate::bits::{byte_bit, bytes_bit};

/// An axis-aligned square region of the canvas, as reconstructed from a
/// leaf position.  It may stick out of the canvas; painting clips it.
#[derive(Debug, PartialEq, Eq, Structural, Clone, Copy)]
pub struct Rect {
    pub x: usize,
    pub y: usize,
    pub w: usize,
    pub h: usize,
}

/// The pixel grid after filling a rectangle with a colour: pixel `i` lies
/// in row `i / 128` and column `i % 128`.
pub open spec fn paint_rect(v: Seq<bool>, x: int, y: int, w: int, h: int, c: bool) -> Seq<bool> {
    Seq::new(
        8192,
        |i: int|
            if x <= i % 128 < x + w && y <= i / 128 < y + h {
                c
            } else {
                v[i]
            },
    )
}

/// The pixel of a 4x4 tile: rows of four bits, high bit leftmost, two rows
/// per byte.
pub open spec fn tile_pixel(t: [u8; 2], dx: int, dy: int) -> bool {
    byte_bit(t[dy / 2], (dy % 2) * 4 + dx)
}

/// The pixel grid after drawing a 4x4 tile with its top-left corner at
/// `(x, y)`.
pub open spec fn paint_tile(v: Seq<bool>, t: [u8; 2], x: int, y: int) -> Seq<bool> {
    Seq::new(
        8192,
        |i: int|
            if x <= i % 128 < x + 4 && y <= i / 128 < y + 4 {
                tile_pixel(t, i % 128 - x, i / 128 - y)
            } else {
                v[i]
            },
    )
}

/// A 128x64 monochrome framebuffer.
#[derive(Debug, PartialEq, Clone, Copy)]
pub struct Framebuffer {
    pub bytes: [u8; 1024],
}

impl Framebuffer {
    /// The 8192 pixels of the framebuffer, row-major.
    pub open spec fn view(&self) -> Seq<bool> {
        Seq::new(8192, |i: int| bytes_bit(self.bytes@, i))
    }

    /// A framebuffer with every pixel off.
    pub fn new() -> (r: Self)
        ensures
            r.view() == Seq::new(8192, |i: int| false),
    {
        let mut fb = Framebuffer { bytes: [0u8; 1024] };
        fb.clear(false);
        fb
    }

    /// Sets one pixel.
    pub fn set_pixel(&mut self, x: usize, y: usize, c: bool)
        requires
            x < 128,
            y < 64,
        ensures
            final(self).view() == old(self).view().update(y * 128 + x, c),
    {
        let idx = y * 16 + x / 8;
        let k: u8 = (x % 8) as u8;
        let b = self.bytes[idx];
        let nb: u8 = if c {
            b | (128u8 >> k)
        } else {
            b & !(128u8 >> k)
        };
        self.bytes[idx] = nb;
        proof {
            lemma_byte_update(b, nb, k, c);
            assert forall|i: int| 0 <= i < 8192 implies self.view()[i] == old(self).view().update(
                y * 128 + x,
                c,
            )[i] by {
                let bi = i / 8;
                let j = i % 8;
                assert(i == bi * 8 + j);
                assert(self.view()[i] == byte_bit(self.bytes@[bi], j));
                if bi == idx as int {
                    assert(self.bytes@[bi] == nb);
                    if j == k as int {
                        assert(i == (y * 16 + x / 8) * 8 + (x % 8));
                        assert(i == y * 128 + (x / 8) * 8 + (x % 8));
                        assert(i == y * 128 + x);
                    } else {
                        assert(byte_bit(nb, j) == byte_bit(b, j));
                        assert(i != y * 128 + x);
                    }
                } else {
                    assert(self.bytes@[bi] == old(self).bytes@[bi]);
                    assert(i != y * 128 + x) by {
                        assert((y * 128 + x) / 8 == y * 16 + x / 8);
                    }
                }
            }
            assert(self.view() =~= old(self).view().update(y * 128 + x, c));
        }
    }

    /// Fills one run of a row.
    fn fill_row(&mut self, x: usize, y: usize, w: usize, c: bool)
        requires
            x + w <= 128,
            y < 64,
        ensures
            final(self).view() == paint_rect(
                old(self).view(),
                x as int,
                y as int,
                w as int,
                1,
                c,
            ),
    {
        let mut k: usize = 0;
        while k < w
            invariant
                0 <= k <= w,
                x + w <= 128,
                y < 64,
                self.view() == paint_rect(old(self).view(), x as int, y as int, k as int, 1, c),
            decreases w - k,
        {
            self.set_pixel(x + k, y, c);
            proof {
                assert forall|i: int|
                    0 <= i < 8192 implies self.view()[i] == paint_rect(
                    old(self).view(),
                    x as int,
                    y as int,
                    k + 1,
                    1,
                    c,
                )[i] by {
                    assert(i == (i / 128) * 128 + (i % 128));
                    if i == y * 128 + x + k {
                        assert(i % 128 == x + k && i / 128 == y as int) by {
                            assert((y * 128 + (x + k)) / 128 == y as int);
                            assert((y * 128 + (x + k)) % 128 == x + k);
                        }
                    } else {
                        assert(!(i % 128 == x + k && i / 128 == y as int));
                    }
                }
                assert(self.view() =~= paint_rect(
                    old(self).view(),
                    x as int,
                    y as int,
                    k + 1,
                    1,
                    c,
                ));
            }
            k += 1;
        }
        proof {
            assert(self.view() =~= paint_rect(
                old(self).view(),
                x as int,
                y as int,
                w as int,
                1,
                c,
            ));
        }
    }

    /// Fills a rectangle that lies inside the canvas.
    pub fn fill_rect(&mut self, x: usize, y: usize, w: usize, h: usize, c: bool)
        requires
            x + w <= 128,
            y + h <= 64,
        ensures
            final(self).view() == paint_rect(
                old(self).view(),
                x as int,
                y as int,
                w as int,
                h as int,
                c,
            ),
    {
        let mut r: usize = 0;
        while r < h
            invariant
                0 <= r <= h,
                x + w <= 128,
                y + h <= 64,
                self.view() == paint_rect(
                    old(self).view(),
                    x as int,
                    y as int,
                    w as int,
                    r as int,
                    c,
                ),
            decreases h - r,
        {
            self.fill_row(x, y + r, w, c);
            proof {
                assert(self.view() =~= paint_rect(
                    old(self).view(),
                    x as int,
                    y as int,
                    w as int,
                    r + 1,
                    c,
                ));
            }
            r += 1;
        }
    }

    /// Clears the whole canvas to one colour.
    pub fn clear(&mut self, c: bool)
        ensures
            final(self).view() == Seq::new(8192, |i: int| c),
    {
        self.fill_rect(0, 0, 128, 64, c);
        proof {
            assert forall|i: int| 0 <= i < 8192 implies 0 <= #[trigger] (i % 128) < 128 && 0 <= i
                / 128 < 64 by {
                assert(i == (i / 128) * 128 + (i % 128));
            }
            assert(self.view() =~= Seq::new(8192, |i: int| c));
        }
    }

    /// Draws a 4x4 tile with its top-left corner at `(x, y)`, clipped by
    /// the canvas.
    pub fn draw_tile(&mut self, t: [u8; 2], x: usize, y: usize)
        requires
            x < 128,
            y < 128,
        ensures
            final(self).view() == paint_tile(old(self).view(), t, x as int, y as int),
    {
        let mut dy: usize = 0;
        while dy < 4
            invariant
                0 <= dy <= 4,
                x < 128,
                y < 128,
                forall|i: int|
                    0 <= i < 8192 ==> #[trigger] self.view()[i] == (if x <= i % 128 < x + 4 && y
                        <= i / 128 < y + dy {
                        tile_pixel(t, i % 128 - x, i / 128 - y)
                    } else {
                        old(self).view()[i]
                    }),
            decreases 4 - dy,
        {
            let mut dx: usize = 0;
            while dx < 4
                invariant
                    0 <= dx <= 4,
                    0 <= dy < 4,
                    x < 128,
                    y < 128,
                    forall|i: int|
                        0 <= i < 8192 ==> #[trigger] self.view()[i] == (if x <= i % 128 < x + 4 && y
                            <= i / 128 < y + dy {
                            tile_pixel(t, i % 128 - x, i / 128 - y)
                        } else if i / 128 == y + dy && x <= i % 128 < x + dx {
                            tile_pixel(t, i % 128 - x, i / 128 - y)
                        } else {
                            old(self).view()[i]
                        }),
                decreases 4 - dx,
            {
                let ghost prev = self.view();
                if x + dx < 128 && y + dy < 64 {
                    let byte = t[dy / 2];
                    let sh: u8 = (7 - ((dy % 2) * 4 + dx)) as u8;
                    let px = ((byte >> sh) & 1) == 1;
                    self.set_pixel(x + dx, y + dy, px);
                    proof {
                        assert(px == tile_pixel(t, dx as int, dy as int));
                    }
                }
                proof {
                    assert forall|i: int|
                        0 <= i < 8192 implies self.view()[i] == (if x <= i % 128 < x + 4 && y <= i
                        / 128 < y + dy {
                        tile_pixel(t, i % 128 - x, i / 128 - y)
                    } else if i / 128 == y + dy && x <= i % 128 < x + dx + 1 {
                        tile_pixel(t, i % 128 - x, i / 128 - y)
                    } else {
                        old(self).view()[i]
                    }) by {
                        assert(i == (i / 128) * 128 + (i % 128));
                        assert(0 <= i % 128 < 128 && 0 <= i / 128 < 64);
                        if x + dx < 128 && y + dy < 64 {
                            if i == (y + dy) * 128 + (x + dx) {
                                assert(i % 128 == x + dx && i / 128 == y + dy) by {
                                    assert(((y + dy) * 128 + (x + dx)) / 128 == y + dy);
                                    assert(((y + dy) * 128 + (x + dx)) % 128 == x + dx);
                                }
                            } else {
                                assert(!(i % 128 == x + dx && i / 128 == y + dy));
                                assert(self.view()[i] == prev[i]);
                            }
                        } else {
                            assert(!(i % 128 == x + dx && i / 128 == y + dy));
                        }
                    }
                }
                dx += 1;
            }
            dy += 1;
        }
        proof {
            assert(self.view() =~= paint_tile(old(self).view(), t, x as int, y as int));
        }
    }
}

/// Setting one bit of a byte leaves the other bits alone.
proof fn lemma_byte_update(b: u8, nb: u8, k: u8, c: bool)
    requires
        k < 8,
        nb == (if c {
            b | (128u8 >> k)
        } else {
            b & !(128u8 >> k)
        }),
    ensures
        forall|j: int|
            0 <= j < 8 && j != k ==> #[trigger] byte_bit(nb, j) == byte_bit(b, j),
        byte_bit(nb, k as int) == c,
{
    assert forall|j: int| 0 <= j < 8 && j != k implies #[trigger] byte_bit(nb, j) == byte_bit(
        b,
        j,
    ) by {
        let ju = j as u8;
        assert(ju < 8 && ju != k);
        assert((7 - j) as u8 == 7 - ju);
        assert(((if c {
            b | (128u8 >> k)
        } else {
            b & !(128u8 >> k)
        }) >> ((7 - ju) as u8)) & 1 == (b >> ((7 - ju) as u8)) & 1) by (bit_vector)
            requires
                ju < 8,
                k < 8,
                ju != k,
        ;
    }
    assert((7 - k as int) as u8 == 7 - k);
    assert(((if c {
        b | (128u8 >> k)
    } else {
        b & !(128u8 >> k)
    }) >> ((7 - k) as u8)) & 1 == (if c {
        1u8
    } else {
        0u8
    })) by (bit_vector)
        requires
            k < 8,
    ;
}

} // verus!
