//! Canonical rasters: top-to-bottom, 8-bit-per-channel RGBA images, and the
//! vertical flip between canonical order and the bottom-to-top row order the
//! container stores on disk.

use vstd::arithmetic::div_mod::{
    lemma_fundamental_div_mod, lemma_fundamental_div_mod_converse, lemma_mod_bound,
    lemma_mod_multiples_vanish, lemma_multiply_divide_lt,
};
use vstd::arithmetic::mul::lemma_mul_nonnegative;
use vstd::prelude::*;

verus! {

/// A canonical raster: `width * height` RGBA pixels, four bytes each, rows
/// stored top to bottom.
pub struct Raster {
    pub width: u32,
    pub height: u32,
    pub pixels: Vec<u8>,
}

/// The mathematical image of a `Raster`.
pub struct RasterView {
    pub width: u32,
    pub height: u32,
    pub pixels: Seq<u8>,
}

impl View for Raster {
    type V = RasterView;

    open spec fn view(&self) -> RasterView {
        RasterView { width: self.width, height: self.height, pixels: self.pixels@ }
    }
}

impl RasterView {
    /// The raster holds exactly four bytes per declared pixel.
    pub open spec fn wf(self) -> bool {
        self.pixels.len() == 4 * self.width * self.height
    }
}

/// Where byte `i` of a vertically flipped raster comes from: the same column
/// of the mirrored row.
pub open spec fn flip_idx(width: u32, height: u32, i: int) -> int {
    let rl = 4 * (width as int);
    let row = i / rl;
    let col = i % rl;
    (height - 1 - row) * rl + col
}

/// The vertically flipped raster contents: row `r` of the result is row
/// `height - 1 - r` of `s`.
pub open spec fn flip_vert(width: u32, height: u32, s: Seq<u8>) -> Seq<u8> {
    Seq::new(s.len(), |i: int| s[flip_idx(width, height, i)])
}

/// Flipping moves every byte to a valid place, is its own inverse on
/// indices, and keeps the channel (the index modulo 4).
pub proof fn lemma_flip_idx(width: u32, height: u32, i: int)
    requires
        0 < width,
        0 < height,
        0 <= i < 4 * width * height,
    ensures
        0 <= flip_idx(width, height, i) < 4 * width * height,
        flip_idx(width, height, flip_idx(width, height, i)) == i,
        flip_idx(width, height, i) % 4 == i % 4,
{
    let rl = 4 * (width as int);
    let h = height as int;
    let row = i / rl;
    let col = i % rl;
    lemma_fundamental_div_mod(i, rl);
    lemma_mod_bound(i, rl);
    assert(4 * width * height == rl * h) by {
        vstd::arithmetic::mul::lemma_mul_is_associative(4, width as int, height as int);
    }
    lemma_multiply_divide_lt(i, rl, h);
    assert(0 <= row < h);
    let j = (h - 1 - row) * rl + col;
    lemma_mul_nonnegative(h - 1 - row, rl);
    assert(j < rl * h) by (nonlinear_arith)
        requires
            j == (h - 1 - row) * rl + col,
            0 <= row < h,
            0 <= col < rl,
    ;
    lemma_fundamental_div_mod_converse(j, rl, h - 1 - row, col);
    assert(j / rl == h - 1 - row && j % rl == col);
    assert(flip_idx(width, height, j) == (h - 1 - (h - 1 - row)) * rl + col);
    assert(row * rl + col == i) by {
        vstd::arithmetic::mul::lemma_mul_is_commutative(row, rl);
    }
    assert(j % 4 == col % 4) by {
        let q = h - 1 - row;
        assert(q * rl == 4 * (q * (width as int))) by {
            vstd::arithmetic::mul::lemma_mul_is_associative(q, 4, width as int);
            vstd::arithmetic::mul::lemma_mul_is_commutative(q, 4);
            vstd::arithmetic::mul::lemma_mul_is_associative(4, q, width as int);
        }
        lemma_mod_multiples_vanish(q * (width as int), col, 4);
    }
    assert(i % 4 == col % 4) by {
        assert(row * rl == 4 * (row * (width as int))) by {
            vstd::arithmetic::mul::lemma_mul_is_associative(row, 4, width as int);
            vstd::arithmetic::mul::lemma_mul_is_commutative(row, 4);
            vstd::arithmetic::mul::lemma_mul_is_associative(4, row, width as int);
        }
        lemma_mod_multiples_vanish(row * (width as int), col, 4);
    }
}

/// Vertical flip is involutive: flipping twice gives the raster back.
pub proof fn lemma_flip_involutive(width: u32, height: u32, s: Seq<u8>)
    requires
        s.len() == 4 * width * height,
    ensures
        flip_vert(width, height, flip_vert(width, height, s)) == s,
{
    let once = flip_vert(width, height, s);
    let twice = flip_vert(width, height, once);
    assert forall|i: int| 0 <= i < s.len() implies twice[i] == s[i] by {
        assert(width > 0 && height > 0) by (nonlinear_arith)
            requires
                0 <= i < 4 * width * height,
        ;
        lemma_flip_idx(width, height, i);
        lemma_flip_idx(width, height, flip_idx(width, height, i));
    }
    assert(twice =~= s);
}

impl Raster {
    /// Flip the raster vertically: the canonical top-to-bottom image of the
    /// bottom-to-top on-disk payload, and the other way round.
    pub fn flip_vertical(&self) -> (out: Raster)
        requires
            self@.wf(),
        ensures
            out@.wf(),
            out@.width == self@.width,
            out@.height == self@.height,
            out@.pixels == flip_vert(self.width, self.height, self@.pixels),
    {
        let ghost flipped = flip_vert(self.width, self.height, self@.pixels);
        if self.height == 0 {
            proof {
                assert(self@.pixels.len() == 0) by (nonlinear_arith)
                    requires
                        self@.pixels.len() == 4 * self.width * self.height,
                        self.height == 0,
                ;
                assert(flipped =~= Seq::<u8>::empty());
            }
            return Raster { width: self.width, height: self.height, pixels: Vec::new() };
        }
        let total: usize = self.pixels.len();
        proof {
            assert(4 * self.width as int <= 4 * self.width * self.height) by (nonlinear_arith)
                requires
                    self.height >= 1,
            ;
        }
        let rl: usize = 4 * (self.width as usize);
        proof {
            assert(rl * self.height as int == total) by (nonlinear_arith)
                requires
                    rl == 4 * self.width as int,
                    total == 4 * self.width * self.height,
            ;
        }
        let mut out: Vec<u8> = Vec::new();
        let mut y: u32 = 0;
        while y < self.height
            invariant
                self@.wf(),
                rl == 4 * self.width as int,
                self.pixels@.len() == rl * self.height as int,
                self.pixels@.len() <= usize::MAX,
                flipped == flip_vert(self.width, self.height, self@.pixels),
                flipped.len() == self.pixels@.len(),
                y <= self.height,
                out@.len() == y * rl,
                forall|i: int| 0 <= i < out@.len() ==> out@[i] == flipped[i],
            decreases self.height - y,
        {
            let src_row: u32 = self.height - 1 - y;
            let mut k: usize = 0;
            proof {
                lemma_mul_nonnegative(src_row as int, rl as int);
                lemma_mul_nonnegative(y as int, rl as int);
                assert(src_row as int * rl + rl <= rl * self.height as int && (y + 1) * rl == y
                    * rl + rl && (y + 1) * rl <= rl * self.height as int) by (nonlinear_arith)
                    requires
                        src_row == self.height - 1 - y,
                        0 <= y < self.height,
                        rl >= 0,
                ;
            }
            let base: usize = (src_row as usize) * rl;
            while k < rl
                invariant
                    self@.wf(),
                    rl == 4 * self.width as int,
                    self.pixels@.len() == rl * self.height as int,
                    self.pixels@.len() <= usize::MAX,
                    flipped == flip_vert(self.width, self.height, self@.pixels),
                    flipped.len() == self.pixels@.len(),
                    y < self.height,
                    src_row == self.height - 1 - y,
                    base == src_row * rl,
                    base + rl <= self.pixels@.len(),
                    y * rl + rl <= self.pixels@.len(),
                    k <= rl,
                    out@.len() == y * rl + k,
                    forall|i: int| 0 <= i < out@.len() ==> out@[i] == flipped[i],
                decreases rl - k,
            {
                let ghost di = y as int * rl as int + k as int;
                proof {
                    assert(0 <= di < flipped.len());
                    assert(flipped[di] == self.pixels@[flip_idx(self.width, self.height, di)]);
                    assert(flip_idx(self.width, self.height, di) == base + k) by {
                        lemma_fundamental_div_mod_converse(di, rl as int, y as int, k as int);
                    }
                }
                out.push(self.pixels[base + k]);
                k = k + 1;
            }
            y = y + 1;
        }
        proof {
            assert(out@.len() == flipped.len()) by (nonlinear_arith)
                requires
                    out@.len() == y * rl,
                    y == self.height,
                    flipped.len() == rl * self.height as int,
            ;
            assert(out@ =~= flipped);
        }
        Raster { width: self.width, height: self.height, pixels: out }
    }
}

} // verus!
