//! Deterministic integer hashing. All procedural content in the crate is a
//! pure function of a seed and integer coordinates through these hashes: no
//! random-number state is carried anywhere.

use vstd::prelude::*;
use crate::fixed::SCALE;

verus! {

/// One past the largest 32-bit value; hashes are computed modulo this.
pub const MOD32: u64 = 0x1_0000_0000;

/// Scrambling multipliers for the hash rounds.
pub const HASH_MUL_A: u64 = 2654435761;
pub const HASH_MUL_B: u64 = 40503;
pub const HASH_MUL_C: u64 = 2246822519;

/// Lattice-mixing multipliers for two-coordinate hashing.
pub const HASH_MUL_X: u64 = 668265263;
pub const HASH_MUL_Y: u64 = 374761393;

/// The hash as a spec-level function: three multiply-fold rounds modulo 2^32.
pub closed spec fn spec_khash(x: int) -> int {
    let m = MOD32 as int;
    let h0 = x % m;
    let h1 = (h0 * HASH_MUL_A) % m;
    let h2 = (h1 / 65536 + h1 * HASH_MUL_B) % m;
    (h2 / 1024 + h2 * HASH_MUL_C) % m
}

/// Scrambles an integer into a well-mixed 32-bit value.
pub fn khash(x: u64) -> (r: u64)
    ensures
        r == spec_khash(x as int),
        r < MOD32,
{
    let h0: u64 = x % MOD32;
    let h1: u64 = (h0 * HASH_MUL_A) % MOD32;
    let h2: u64 = (h1 / 65536 + h1 * HASH_MUL_B) % MOD32;
    (h2 / 1024 + h2 * HASH_MUL_C) % MOD32
}

/// A hash folded to a fixed-point fraction in [0, SCALE).
pub closed spec fn spec_krand(x: int) -> int {
    spec_khash(x) % (SCALE as int)
}

/// Deterministic fixed-point fraction in [0, SCALE) drawn from `x`.
pub fn krand(x: u64) -> (r: i64)
    ensures
        r == spec_krand(x as int),
        0 <= r < SCALE,
{
    (khash(x) % (SCALE as u64)) as i64
}

/// Offset that shifts a bounded signed lattice coordinate into the
/// non-negative range before hashing.
pub const COORD_OFFSET: i64 = 0x8000_0000;

/// Two lattice coordinates and a seed mixed into one hash.
pub closed spec fn spec_khash2(cx: int, cy: int, seed: int) -> int {
    let m = MOD32 as int;
    let ux = cx + COORD_OFFSET;
    let uy = cy + COORD_OFFSET;
    spec_khash((seed % m + (ux * HASH_MUL_X) % m + (uy * HASH_MUL_Y) % m) % m)
}

/// Hash of a 2D lattice point under a seed.
pub fn khash2(cx: i64, cy: i64, seed: u64) -> (r: u64)
    requires
        -COORD_OFFSET <= cx < COORD_OFFSET,
        -COORD_OFFSET <= cy < COORD_OFFSET,
    ensures
        r == spec_khash2(cx as int, cy as int, seed as int),
        r < MOD32,
{
    let ux: u64 = (cx + COORD_OFFSET) as u64;
    let uy: u64 = (cy + COORD_OFFSET) as u64;
    khash((seed % MOD32 + (ux * HASH_MUL_X) % MOD32 + (uy * HASH_MUL_Y) % MOD32) % MOD32)
}

/// Lattice hash folded to a fixed-point fraction in [0, SCALE).
pub closed spec fn spec_krand2(cx: int, cy: int, seed: int) -> int {
    spec_khash2(cx, cy, seed) % (SCALE as int)
}

/// Deterministic fixed-point fraction in [0, SCALE) for a lattice point.
pub fn krand2(cx: i64, cy: i64, seed: u64) -> (r: i64)
    requires
        -COORD_OFFSET <= cx < COORD_OFFSET,
        -COORD_OFFSET <= cy < COORD_OFFSET,
    ensures
        r == spec_krand2(cx as int, cy as int, seed as int),
        0 <= r < SCALE,
{
    (khash2(cx, cy, seed) % (SCALE as u64)) as i64
}

} // verus!
