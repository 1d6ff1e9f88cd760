//! Deterministic fixed-point value noise: bilinear interpolation of lattice
//! hashes. Used to warp the corridor network, vary corridor thickness and
//! carve obstruction blobs out of rooms.

use vstd::prelude::*;
use crate::fixed::{SCALE, floor_div};
use crate::rng::{spec_krand2, krand2};

verus! {

/// Noise inputs are kept within this bound so that every intermediate
/// product fits comfortably in an i64.
pub const NOISE_COORD_MAX: i64 = 0x40_0000_0000;

/// NOISE_COORD_MAX expressed in whole lattice cells.
pub const COORD_MAX_CELLS: i64 = 0x40_0000;

/// Fixed-point interpolation between `a` and `b` by fraction `t` of SCALE;
/// division is folded toward `a` so that both branches divide non-negative
/// values.
pub closed spec fn spec_lerp(a: int, b: int, t: int) -> int {
    if b >= a {
        a + (b - a) * t / (SCALE as int)
    } else {
        a - (a - b) * t / (SCALE as int)
    }
}

/// The interpolated value stays between the endpoints.
pub proof fn lemma_lerp_bounds(a: int, b: int, t: int)
    requires
        0 <= t <= SCALE,
    ensures
        if b >= a {
            a <= spec_lerp(a, b, t) <= b
        } else {
            b <= spec_lerp(a, b, t) <= a
        },
{
    if b >= a {
        let d = b - a;
        assert(0 <= d * t <= d * SCALE) by (nonlinear_arith)
            requires
                0 <= t <= SCALE,
                0 <= d,
        ;
        assert(0 <= d * t / (SCALE as int) <= d) by (nonlinear_arith)
            requires
                0 <= d * t <= d * SCALE,
                SCALE > 0,
        ;
    } else {
        let d = a - b;
        assert(0 <= d * t <= d * SCALE) by (nonlinear_arith)
            requires
                0 <= t <= SCALE,
                0 < d,
        ;
        assert(0 <= d * t / (SCALE as int) <= d) by (nonlinear_arith)
            requires
                0 <= d * t <= d * SCALE,
                SCALE > 0,
        ;
    }
}

/// Fixed-point linear interpolation.
pub fn lerp(a: i64, b: i64, t: i64) -> (r: i64)
    requires
        0 <= t <= SCALE,
        -NOISE_COORD_MAX <= a <= NOISE_COORD_MAX,
        -NOISE_COORD_MAX <= b <= NOISE_COORD_MAX,
    ensures
        r == spec_lerp(a as int, b as int, t as int),
{
    proof {
        lemma_lerp_bounds(a as int, b as int, t as int);
    }
    if b >= a {
        assert((b - a) * t <= 2 * NOISE_COORD_MAX * SCALE) by (nonlinear_arith)
            requires
                0 <= t <= SCALE,
                0 <= b - a <= 2 * NOISE_COORD_MAX,
        ;
        a + (b - a) * t / SCALE
    } else {
        assert((a - b) * t <= 2 * NOISE_COORD_MAX * SCALE) by (nonlinear_arith)
            requires
                0 <= t <= SCALE,
                0 <= a - b <= 2 * NOISE_COORD_MAX,
        ;
        a - (a - b) * t / SCALE
    }
}

/// Value noise at a fixed-point position: the bilinear blend of the four
/// surrounding lattice hashes.
pub closed spec fn spec_noise2d(x: int, y: int, seed: int) -> int {
    let s = SCALE as int;
    let cx = x / s;
    let cy = y / s;
    let fx = x - cx * s;
    let fy = y - cy * s;
    let h00 = spec_krand2(cx, cy, seed);
    let h10 = spec_krand2(cx + 1, cy, seed);
    let h01 = spec_krand2(cx, cy + 1, seed);
    let h11 = spec_krand2(cx + 1, cy + 1, seed);
    spec_lerp(spec_lerp(h00, h10, fx), spec_lerp(h01, h11, fx), fy)
}

/// Deterministic smooth noise in [0, SCALE).
pub fn noise2d(x: i64, y: i64, seed: u64) -> (r: i64)
    requires
        -NOISE_COORD_MAX <= x <= NOISE_COORD_MAX,
        -NOISE_COORD_MAX <= y <= NOISE_COORD_MAX,
    ensures
        r == spec_noise2d(x as int, y as int, seed as int),
        0 <= r < SCALE,
{
    let cx: i64 = floor_div(x, SCALE);
    let cy: i64 = floor_div(y, SCALE);
    proof {
        vstd::arithmetic::div_mod::lemma_fundamental_div_mod(x as int, SCALE as int);
        vstd::arithmetic::div_mod::lemma_fundamental_div_mod(y as int, SCALE as int);
        assert(-(COORD_MAX_CELLS as int) <= cx as int <= COORD_MAX_CELLS as int)
            by (nonlinear_arith)
            requires
                -NOISE_COORD_MAX <= x <= NOISE_COORD_MAX,
                cx == x as int / SCALE as int,
                SCALE * COORD_MAX_CELLS == NOISE_COORD_MAX,
                SCALE > 0,
        ;
        assert(-(COORD_MAX_CELLS as int) <= cy as int <= COORD_MAX_CELLS as int)
            by (nonlinear_arith)
            requires
                -NOISE_COORD_MAX <= y <= NOISE_COORD_MAX,
                cy == y as int / SCALE as int,
                SCALE * COORD_MAX_CELLS == NOISE_COORD_MAX,
                SCALE > 0,
        ;
    }
    let fx: i64 = x - cx * SCALE;
    let fy: i64 = y - cy * SCALE;
    let h00: i64 = krand2(cx, cy, seed);
    let h10: i64 = krand2(cx + 1, cy, seed);
    let h01: i64 = krand2(cx, cy + 1, seed);
    let h11: i64 = krand2(cx + 1, cy + 1, seed);
    let nx0: i64 = lerp(h00, h10, fx);
    let nx1: i64 = lerp(h01, h11, fx);
    proof {
        lemma_lerp_bounds(h00 as int, h10 as int, fx as int);
        lemma_lerp_bounds(h01 as int, h11 as int, fx as int);
    }
    let r: i64 = lerp(nx0, nx1, fy);
    proof {
        lemma_lerp_bounds(nx0 as int, nx1 as int, fy as int);
    }
    r
}

} // verus!
