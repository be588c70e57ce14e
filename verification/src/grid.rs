//! The sampling grid.
//!
//! Instead of reading every pixel, a scan visits a coarse grid: columns
//! `0, step, 2*step, ...` up to `width / step` columns and likewise for rows.
//! When the side length is not divisible by the step, the trailing partial
//! cells are not sampled; this truncation is part of the contract, not a
//! defect. The grid is enumerated row-major: all columns of a row before the
//! next row.

use crate::mask::lemma_row_major_index;
use vstd::arithmetic::div_mod::{
    lemma_fundamental_div_mod, lemma_fundamental_div_mod_converse, lemma_mod_division_less_than_divisor,
    lemma_multiply_divide_lt,
};
use vstd::arithmetic::mul::lemma_mul_inequality;
use vstd::prelude::*;

verus! {

/// The default sampling step for a `width` by `height` image: roughly one
/// hundred grid lines along the narrow side, and never less than one.
pub open spec fn spec_default_step(width: int, height: int) -> int {
    let side = if width <= height { width } else { height };
    if side / 100 >= 1 {
        side / 100
    } else {
        1
    }
}

/// Computes the default sampling step, `max(1, min(width, height) / 100)`.
pub fn default_step(width: u32, height: u32) -> (s: u32)
    ensures
        s == spec_default_step(width as int, height as int),
        s >= 1,
{
    let side: u32 = if width <= height {
        width
    } else {
        height
    };
    let s: u32 = side / 100;
    if s >= 1 {
        s
    } else {
        1
    }
}

/// The sampled pixel coordinates of one scan, row-major: entry `t` is column
/// `(t % x_steps) * step` of row `(t / x_steps) * step`.
pub open spec fn grid(x_steps: int, y_steps: int, step: int) -> Seq<(int, int)> {
    Seq::new(
        (y_steps * x_steps) as nat,
        |t: int| ((t % x_steps) * step, (t / x_steps) * step),
    )
}

/// Walking the grid row-major, the cell visited after `yi` full rows and
/// `xi` further columns is grid entry `yi * x_steps + xi`, the coordinate
/// `(xi * step, yi * step)`.
pub proof fn lemma_grid_entry(x_steps: int, y_steps: int, step: int, xi: int, yi: int)
    requires
        0 <= xi < x_steps,
        0 <= yi < y_steps,
    ensures
        0 <= yi * x_steps + xi < y_steps * x_steps,
        grid(x_steps, y_steps, step)[yi * x_steps + xi] == (xi * step, yi * step),
{
    lemma_row_major_index(xi, yi, x_steps, y_steps);
    lemma_fundamental_div_mod_converse(yi * x_steps + xi, x_steps, yi, xi);
}

/// Every sampled coordinate lies on a `width` by `height` image when the
/// steps are derived by truncating division: the loop bounds never generate
/// an out-of-range read. In particular the last in-bounds column
/// `(x_steps - 1) * step` is included, and column `x_steps * step`, which
/// may fall outside, is never generated.
pub proof fn lemma_grid_in_bounds(width: int, height: int, step: int)
    requires
        width >= 1,
        height >= 1,
        step >= 1,
    ensures
        forall|t: int|
            0 <= t < grid(width / step, height / step, step).len() ==> {
                let c = #[trigger] grid(width / step, height / step, step)[t];
                &&& 0 <= c.0 < width
                &&& 0 <= c.1 < height
            },
{
    let x_steps = width / step;
    let y_steps = height / step;
    let g = grid(x_steps, y_steps, step);
    assert forall|t: int| 0 <= t < g.len() implies {
        &&& 0 <= #[trigger] g[t].0 < width
        &&& 0 <= g[t].1 < height
    } by {
        let xi = t % x_steps;
        let yi = t / x_steps;
        assert(x_steps >= 1);
        lemma_mod_division_less_than_divisor(t, x_steps);
        lemma_multiply_divide_lt(t, x_steps, y_steps);
        assert(yi >= 0) by (nonlinear_arith)
            requires
                t >= 0,
                x_steps > 0,
                yi == t / x_steps,
        ;
        lemma_step_position_in_bounds(width, step, xi);
        lemma_step_position_in_bounds(height, step, yi);
    }
}

/// A column index below `width / step` lands, scaled by the step, strictly
/// inside the width.
proof fn lemma_step_position_in_bounds(width: int, step: int, i: int)
    requires
        width >= 1,
        step >= 1,
        0 <= i < width / step,
    ensures
        0 <= i * step < width,
{
    let steps = width / step;
    lemma_mul_inequality(i, steps - 1, step);
    lemma_fundamental_div_mod(width, step);
    assert((steps - 1) * step == steps * step - step) by (nonlinear_arith);
    assert(steps * step == step * steps) by (nonlinear_arith);
    assert(i * step >= 0) by (nonlinear_arith)
        requires
            i >= 0,
            step >= 1,
    ;
}

} // verus!
