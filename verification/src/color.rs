//! Pixel colors and the hue key that names a region.
//!
//! A mask pixel carries an RGBA color with 8-bit channels. Only fully opaque
//! pixels (alpha 255) take part in extraction, and the region a pixel belongs
//! to is decided by its hue alone. The hue is derived here with exact integer
//! arithmetic, in thousandths of a degree (millidegrees, `0 .. 360_000`),
//! using truncating division: two pixels name the same region exactly when
//! their millidegree hues agree.

use vstd::arithmetic::div_mod::{lemma_div_is_ordered, lemma_div_multiples_vanish};
use vstd::arithmetic::mul::lemma_mul_inequality;
use vstd::prelude::*;

verus! {

/// A pixel color with 8-bit red, green, blue and alpha channels.
#[derive(Clone, Copy, PartialEq, Eq, Structural, Debug)]
pub struct Rgba {
    pub r: u8,
    pub g: u8,
    pub b: u8,
    pub a: u8,
}

/// A pixel takes part in region extraction only when it is fully opaque.
pub open spec fn spec_opaque(c: Rgba) -> bool {
    c.a == 255
}

/// The largest of the three color channels, as an integer.
pub open spec fn spec_channel_max(c: Rgba) -> int {
    let r = c.r as int;
    let g = c.g as int;
    let b = c.b as int;
    if r >= g && r >= b {
        r
    } else if g >= b {
        g
    } else {
        b
    }
}

/// The smallest of the three color channels, as an integer.
pub open spec fn spec_channel_min(c: Rgba) -> int {
    let r = c.r as int;
    let g = c.g as int;
    let b = c.b as int;
    if r <= g && r <= b {
        r
    } else if g <= b {
        g
    } else {
        b
    }
}

/// The hue of a color in millidegrees (`0 .. 360_000`).
///
/// This is the usual hexagonal hue of the RGB color model, scaled by 1000 and
/// rounded toward zero in each sector. A gray color (all channels equal) has
/// hue 0 by convention. Ties between channels are broken in the order red,
/// green, blue when picking the dominant sector.
pub open spec fn spec_hue_key(c: Rgba) -> int {
    let r = c.r as int;
    let g = c.g as int;
    let b = c.b as int;
    let mx = spec_channel_max(c);
    let mn = spec_channel_min(c);
    let d = mx - mn;
    if d == 0 {
        0
    } else if mx == r {
        if g >= b {
            60000 * (g - b) / d
        } else {
            360000 - 60000 * (b - g) / d
        }
    } else if mx == g {
        if b >= r {
            120000 + 60000 * (b - r) / d
        } else {
            120000 - 60000 * (r - b) / d
        }
    } else {
        if r >= g {
            240000 + 60000 * (r - g) / d
        } else {
            240000 - 60000 * (g - r) / d
        }
    }
}

/// A scaled channel ratio `60000 * x / d` stays between 0 and 60000 when
/// `0 <= x <= d`, and is at least 1 when additionally `x >= 1`.
proof fn lemma_sector_ratio_bounds(x: int, d: int)
    requires
        0 <= x <= d,
        0 < d <= 255,
    ensures
        0 <= 60000 * x / d <= 60000,
        x >= 1 ==> 60000 * x / d >= 1,
{
    lemma_mul_inequality(x, d, 60000);
    assert(x * 60000 == 60000 * x) by (nonlinear_arith);
    assert(d * 60000 == 60000 * d) by (nonlinear_arith);
    lemma_div_is_ordered(0, 60000 * x, d);
    lemma_div_is_ordered(60000 * x, 60000 * d, d);
    lemma_div_multiples_vanish(60000, d);
    if x >= 1 {
        lemma_mul_inequality(1, x, 60000);
        lemma_div_is_ordered(d, 60000 * x, d);
        lemma_div_multiples_vanish(1, d);
    }
}

/// The millidegree hue always lies in `0 .. 360_000`.
pub proof fn lemma_hue_key_range(c: Rgba)
    ensures
        0 <= spec_hue_key(c) < 360000,
{
    let r = c.r as int;
    let g = c.g as int;
    let b = c.b as int;
    let mx = spec_channel_max(c);
    let mn = spec_channel_min(c);
    let d = mx - mn;
    if d != 0 {
        if mx == r {
            if g >= b {
                lemma_sector_ratio_bounds(g - b, d);
            } else {
                lemma_sector_ratio_bounds(b - g, d);
            }
        } else if mx == g {
            if b >= r {
                lemma_sector_ratio_bounds(b - r, d);
            } else {
                lemma_sector_ratio_bounds(r - b, d);
            }
        } else {
            if r >= g {
                lemma_sector_ratio_bounds(r - g, d);
            } else {
                lemma_sector_ratio_bounds(g - r, d);
            }
        }
    }
}

/// Computes the millidegree hue of a color; the region identifier is derived
/// from this key alone.
pub fn hue_key(c: Rgba) -> (h: u32)
    ensures
        h == spec_hue_key(c),
        h < 360000,
{
    proof {
        lemma_hue_key_range(c);
    }
    let r: u32 = c.r as u32;
    let g: u32 = c.g as u32;
    let b: u32 = c.b as u32;
    let mx: u32 = if r >= g && r >= b {
        r
    } else if g >= b {
        g
    } else {
        b
    };
    let mn: u32 = if r <= g && r <= b {
        r
    } else if g <= b {
        g
    } else {
        b
    };
    let d: u32 = mx - mn;
    if d == 0 {
        0
    } else if mx == r {
        if g >= b {
            60000 * (g - b) / d
        } else {
            proof {
                lemma_sector_ratio_bounds(b as int - g as int, d as int);
            }
            360000 - 60000 * (b - g) / d
        }
    } else if mx == g {
        if b >= r {
            60000 * (b - r) / d + 120000
        } else {
            proof {
                lemma_sector_ratio_bounds(r as int - b as int, d as int);
            }
            120000 - 60000 * (r - b) / d
        }
    } else {
        if r >= g {
            60000 * (r - g) / d + 240000
        } else {
            proof {
                lemma_sector_ratio_bounds(g as int - r as int, d as int);
            }
            240000 - 60000 * (g - r) / d
        }
    }
}

} // verus!
