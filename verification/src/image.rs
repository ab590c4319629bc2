//! The pixel sink: a width-by-height grid of 8-bit RGB triples, row-major
//! with the top row first. Encoding the grid to a file is left to callers.

use vstd::prelude::*;
use crate::fixed::{Fx, SCALE, fdiv, tdiv, lemma_tdiv_bounds, lemma_tdiv_mono};

verus! {

/// The height an aspect ratio and width determine: the truncated quotient,
/// raised to at least one row.
pub open spec fn height_spec(width: int, aspect_ratio: int) -> int {
    let q = tdiv(tdiv(width * (SCALE as int) * (SCALE as int), aspect_ratio), SCALE as int);
    if q < 1 {
        1
    } else {
        q
    }
}

/// An 8-bit RGB pixel grid.
pub struct Image {
    pub aspect_ratio: Fx,
    pub width: u32,
    pub height: u32,
    pub pixels: Vec<u8>,
}

impl Image {
    /// The buffer holds exactly three bytes per pixel.
    pub open spec fn wf(&self) -> bool {
        self.pixels@.len() == 3 * (self.width as int) * (self.height as int)
    }

    /// An empty image.
    pub fn new() -> (r: Image)
        ensures
            r.wf(),
            r.width == 0,
            r.height == 0,
            r.aspect_ratio@ == 0,
    {
        Image { aspect_ratio: Fx { raw: 0 }, width: 0, height: 0, pixels: Vec::new() }
    }

    /// An all-black image of the given width, with the height derived from
    /// the aspect ratio and clamped to at least one row.
    pub fn from(aspect_ratio: Fx, width: u32) -> (r: Image)
        requires
            1 <= width <= 16384,
            16384 <= aspect_ratio@,
        ensures
            r.wf(),
            r.aspect_ratio == aspect_ratio,
            r.width == width,
            r.height as int == height_spec(width as int, aspect_ratio@),
            forall|k: int| 0 <= k < r.pixels@.len() ==> r.pixels@[k] == 0,
    {
        proof {
            lemma_height_bounds(width as int, aspect_ratio@);
        }
        let wfx = Fx { raw: (width as i64) * SCALE };
        let q = wfx.div(aspect_ratio);
        let h64: u64 = if q.raw < SCALE {
            1
        } else {
            (q.raw as u64) / (SCALE as u64)
        };
        proof {
            if q@ >= SCALE as int {
                assert(q@ / (SCALE as int) == tdiv(q@, SCALE as int));
                vstd::arithmetic::div_mod::lemma_div_is_ordered(q@, 4294967296, SCALE as int);
            }
        }
        let height: u32 = h64 as u32;
        proof {
            assert(3 * (width as int) * (height as int) <= 3221225472) by (nonlinear_arith)
                requires
                    1 <= width as int <= 16384,
                    1 <= height as int <= 65536,
            ;
        }
        let n: usize = 3 * (width as usize) * (height as usize);
        let mut pixels: Vec<u8> = Vec::new();
        while pixels.len() < n
            invariant
                pixels@.len() <= n,
                forall|k: int| 0 <= k < pixels@.len() ==> pixels@[k] == 0,
            decreases n - pixels.len(),
        {
            pixels.push(0);
        }
        proof {
            assert(3 * (width as int) * (height as int) == n as int) by (nonlinear_arith)
                requires
                    n as int == 3 * (width as usize as int) * (height as usize as int),
                    width as usize as int == width as int,
                    height as usize as int == height as int,
            ;
        }
        Image { aspect_ratio, width, height, pixels }
    }
}

/// For the accepted widths and aspect ratios the derived height lies between
/// one row and 65536 rows, and the intermediate quotients stay in range.
proof fn lemma_height_bounds(width: int, ar: int)
    requires
        1 <= width <= 16384,
        16384 <= ar,
    ensures
        1 <= height_spec(width, ar) <= 65536,
        -0x7fffffffffffffff <= tdiv(width * (SCALE as int) * (SCALE as int), ar)
            <= 0x7fffffffffffffff,
        0 <= tdiv(width * (SCALE as int) * (SCALE as int), ar) <= 4294967296,
{
    let num = width * (SCALE as int) * (SCALE as int);
    assert(num == width * 4294967296);
    assert(0 <= num <= 16384 * 4294967296);
    assert(num <= 4294967296 * ar) by (nonlinear_arith)
        requires
            num <= 16384 * 4294967296,
            ar >= 16384,
    ;
    lemma_tdiv_bounds(num, ar, 4294967296);
    assert(tdiv(num, ar) >= 0) by {
        if num > 0 {
            vstd::arithmetic::div_mod::lemma_div_pos_is_pos(num, ar);
        }
    }
    let q = tdiv(num, ar);
    lemma_tdiv_mono(q, 4294967296, SCALE as int);
    assert(tdiv(4294967296, SCALE as int) == 65536);
    assert(tdiv(q, SCALE as int) >= 0) by {
        if q > 0 {
            vstd::arithmetic::div_mod::lemma_div_pos_is_pos(q, SCALE as int);
        }
    }
}

} // verus!
