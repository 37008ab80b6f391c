//! Pixels, global brightness (dim) scaling, and per-channel color correction.

use vstd::prelude::*;

verus! {

/// One pixel: three 8-bit channels.
#[derive(Clone, Copy, PartialEq, Eq, Structural, Debug)]
pub struct Pixel {
    pub r: u8,
    pub g: u8,
    pub b: u8,
}

/// Value of one channel after the global dim factor: `c * dim / 255`.
pub open spec fn dimmed(c: u8, dim: u8) -> int {
    (c * dim) / 255
}

/// Scale one channel by `dim / 255` in integer arithmetic.
pub fn dim_channel(c: u8, dim: u8) -> (r: u8)
    ensures
        r == dimmed(c, dim),
{
    proof {
        assert(c * dim <= 255 * 255) by (nonlinear_arith)
            requires c <= 255 && dim <= 255;
        assert((c * dim) / 255 <= 255) by (nonlinear_arith)
            requires c * dim <= 255 * 255;
    }
    (((c as u16) * (dim as u16)) / 255) as u8
}

/// A pixel with the dim factor applied to every channel.
pub open spec fn dimmed_pixel(p: Pixel, dim: u8) -> Pixel {
    Pixel { r: dimmed(p.r, dim) as u8, g: dimmed(p.g, dim) as u8, b: dimmed(p.b, dim) as u8 }
}

/// Apply the global dim factor to all three channels of a pixel.
pub fn dim_pixel(p: Pixel, dim: u8) -> (q: Pixel)
    ensures
        q == dimmed_pixel(p, dim),
{
    let q = Pixel { r: dim_channel(p.r, dim), g: dim_channel(p.g, dim), b: dim_channel(p.b, dim) };
    proof {
        assert(dimmed(p.r, dim) <= 255 && dimmed(p.g, dim) <= 255 && dimmed(p.b, dim) <= 255)
            by (nonlinear_arith);
    }
    q
}

/// Dim scaling is monotonic in the dim factor and in the channel value.
pub proof fn lemma_dim_monotonic(c1: u8, c2: u8, d1: u8, d2: u8)
    requires
        c1 <= c2,
        d1 <= d2,
    ensures
        dimmed(c1, d1) <= dimmed(c2, d2),
{
    assert(c1 * d1 <= c2 * d2) by (nonlinear_arith)
        requires c1 <= c2 && d1 <= d2;
    assert((c1 * d1) / 255 <= (c2 * d2) / 255) by (nonlinear_arith)
        requires c1 * d1 <= c2 * d2;
}

/// Dim scaling is exact at the boundaries: factor 0 maps every channel to 0,
/// factor 255 leaves every channel unchanged.
pub proof fn lemma_dim_boundaries(c: u8)
    ensures
        dimmed(c, 0) == 0,
        dimmed(c, 255) == c,
{
    assert((c * 255) / 255 == c) by (nonlinear_arith);
}

/// The gamma-style brightness curve, scaled so that input 255 lands exactly on
/// the configured per-channel maximum: `x^2 * max / 255^2`. It is monotonic,
/// passes through (0, 0) and (255, max), and depends on the input byte alone.
pub open spec fn gamma(x: u8, max: u8) -> int {
    (x * x * max) / 65025
}

/// Evaluate the gamma curve for one channel.
pub fn gamma_channel(x: u8, max: u8) -> (r: u8)
    ensures
        r == gamma(x, max),
{
    proof {
        assert(x * x <= 255 * 255) by (nonlinear_arith)
            requires x <= 255;
        assert(x * x * max <= 255 * 255 * 255) by (nonlinear_arith)
            requires x <= 255 && max <= 255;
        assert((x * x * max) / 65025 <= 255) by (nonlinear_arith)
            requires x * x * max <= 255 * 255 * 255;
    }
    (((x as u32) * (x as u32) * (max as u32)) / 65025) as u8
}

/// The gamma curve is monotonic non-decreasing per channel and fixes
/// 0 to 0 and 255 to the configured maximum.
pub proof fn lemma_gamma_shape(x1: u8, x2: u8, max: u8)
    requires
        x1 <= x2,
    ensures
        gamma(x1, max) <= gamma(x2, max),
        gamma(0, max) == 0,
        gamma(255, max) == max,
{
    assert(x1 * x1 * max <= x2 * x2 * max) by (nonlinear_arith)
        requires x1 <= x2;
    assert((x1 * x1 * max) / 65025 <= (x2 * x2 * max) / 65025) by (nonlinear_arith)
        requires x1 * x1 * max <= x2 * x2 * max;
    assert(gamma(0, max) == 0) by (nonlinear_arith);
    assert(gamma(255, max) == max) by (nonlinear_arith);
}

/// Per-pixel color correction. The variant set is closed and fixed at
/// configuration time; a device supplies a default, which the operator may
/// replace (never compose).
#[derive(Clone, Copy, PartialEq, Eq, Structural, Debug)]
pub enum Correction {
    /// Leave every pixel unchanged.
    Identity,
    /// Gamma-style curve per channel, scaled to a per-channel maximum.
    Srgb { max_r: u8, max_g: u8, max_b: u8 },
}

impl Correction {
    /// What `correct` returns for a given input pixel.
    pub open spec fn correct_spec(self, p: Pixel) -> Pixel {
        match self {
            Correction::Identity => p,
            Correction::Srgb { max_r, max_g, max_b } => Pixel {
                r: gamma(p.r, max_r) as u8,
                g: gamma(p.g, max_g) as u8,
                b: gamma(p.b, max_b) as u8,
            },
        }
    }

    /// The identity correction.
    pub fn none() -> (c: Correction)
        ensures
            c == Correction::Identity,
    {
        Correction::Identity
    }

    /// The gamma-style correction with the given per-channel maxima.
    pub fn srgb(max_r: u8, max_g: u8, max_b: u8) -> (c: Correction)
        ensures
            c == (Correction::Srgb { max_r, max_g, max_b }),
    {
        Correction::Srgb { max_r, max_g, max_b }
    }

    /// Apply this correction to one pixel; pure, called once per pixel per frame.
    pub fn correct(&self, p: Pixel) -> (q: Pixel)
        ensures
            q == self.correct_spec(p),
    {
        match self {
            Correction::Identity => p,
            Correction::Srgb { max_r, max_g, max_b } => Pixel {
                r: gamma_channel(p.r, *max_r),
                g: gamma_channel(p.g, *max_g),
                b: gamma_channel(p.b, *max_b),
            },
        }
    }
}

/// The identity variant is the identity function on every possible pixel.
pub proof fn lemma_identity_correction(p: Pixel)
    ensures
        Correction::Identity.correct_spec(p) == p,
{
}

}
