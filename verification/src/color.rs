//! Colors and the gamma-corrected 8-bit quantization of linear samples.

use vstd::prelude::*;
use vstd::pervasive::VecAdditionalExecFns;
use crate::fixed::{Fx, SCALE, sqrt_floor, tdiv, sabs, lemma_sqrt_floor_bounds, lemma_tdiv_bounds};
use crate::vec3::{Vec3, V3};
use crate::image::Image;

verus! {

/// A color is a vector of RGB channels in linear `[0, 1]` space.
pub type Color = Vec3;

/// Largest linear intensity admitted before quantization: just under one, so
/// that a full channel maps to 255 and not past it.
pub const INTENSITY_MAX: i64 = 65470;

/// Gamma correction: the square root of the linear channel, with negative
/// inputs clamped to zero.
pub open spec fn gamma_spec(x: int) -> int {
    if x > 0 {
        sqrt_floor(x * (SCALE as int))
    } else {
        0
    }
}

/// Quantization to an 8-bit channel: clamp to `[0, INTENSITY_MAX]`, scale by
/// 256, and truncate.
pub open spec fn byte_spec(x: int) -> int {
    let cl = if x < 0 {
        0
    } else if x > INTENSITY_MAX as int {
        INTENSITY_MAX as int
    } else {
        x
    };
    cl / 256
}

/// The three bytes a linear color quantizes to.
pub open spec fn color_bytes(c: V3) -> (int, int, int) {
    (byte_spec(gamma_spec(c.x)), byte_spec(gamma_spec(c.y)), byte_spec(gamma_spec(c.z)))
}

/// Square-root gamma correction of one linear channel.
pub fn linear_to_gamma(linear_component: Fx) -> (r: Fx)
    ensures
        r@ == gamma_spec(linear_component@),
{
    if linear_component.raw > 0 {
        linear_component.sqrt()
    } else {
        Fx { raw: 0 }
    }
}

/// One channel to a byte.
pub fn component_to_byte(component: Fx) -> (r: u8)
    ensures
        r as int == byte_spec(component@),
{
    let cl: i64 = if component.raw < 0 {
        0
    } else if component.raw > INTENSITY_MAX {
        INTENSITY_MAX
    } else {
        component.raw
    };
    ((cl as u64) / 256) as u8
}

/// Writes the gamma-corrected, quantized color of one pixel into the image,
/// leaving every other byte unchanged.
pub fn write_color(image: &mut Image, x: u32, y: u32, color: Color)
    requires
        old(image).wf(),
        old(image).width <= 16384,
        old(image).height <= 65536,
        x < old(image).width,
        y < old(image).height,
    ensures
        final(image).wf(),
        final(image).width == old(image).width,
        final(image).height == old(image).height,
        final(image).aspect_ratio == old(image).aspect_ratio,
        ({
            let base = 3 * ((y as int) * (old(image).width as int) + (x as int));
            let (r, g, b) = color_bytes(color@);
            final(image).pixels@ == old(image).pixels@.update(base, r as u8).update(
                base + 1,
                g as u8,
            ).update(base + 2, b as u8)
        }),
{
    let r = component_to_byte(linear_to_gamma(color.x));
    let g = component_to_byte(linear_to_gamma(color.y));
    let b = component_to_byte(linear_to_gamma(color.z));
    proof {
        lemma_byte_in_range(gamma_spec(color@.x));
        lemma_byte_in_range(gamma_spec(color@.y));
        lemma_byte_in_range(gamma_spec(color@.z));
        let w = old(image).width as int;
        let hh = old(image).height as int;
        let xi = x as int;
        let yi = y as int;
        assert(yi * w + xi < hh * w) by (nonlinear_arith)
            requires
                xi < w,
                0 <= yi,
                yi < hh,
                0 <= xi,
        ;
        assert(hh * w == w * hh) by (nonlinear_arith);
        assert(yi * w <= 65535 * 16384) by (nonlinear_arith)
            requires
                0 <= yi <= 65535,
                0 <= w <= 16384,
        ;
        assert(3 * (yi * w + xi) + 2 < 3 * (w * hh)) by (nonlinear_arith)
            requires
                yi * w + xi < hh * w,
                hh * w == w * hh,
        ;
        assert(3 * w * hh == 3 * (w * hh)) by (nonlinear_arith);
    }
    let base: usize = 3 * ((y as usize) * (image.width as usize) + (x as usize));
    image.pixels.set(base, r);
    image.pixels.set(base + 1, g);
    image.pixels.set(base + 2, b);
}

/// Quantized bytes always fit in eight bits.
pub proof fn lemma_byte_in_range(x: int)
    ensures
        0 <= byte_spec(x) <= 255,
{
    let cl = if x < 0 {
        0
    } else if x > INTENSITY_MAX as int {
        INTENSITY_MAX as int
    } else {
        x
    };
    vstd::arithmetic::div_mod::lemma_div_pos_is_pos(cl, 256);
    vstd::arithmetic::div_mod::lemma_div_is_ordered(cl, 65470, 256);
}

} // verus!
