//! Distance-field builders: rasterized walkability in, per-cell distance to
//! the nearest non-walkable cell out. Three interchangeable algorithms are
//! offered — priority-queue propagation, naive flood relaxation and a
//! separable multi-pass sweep — sharing one boundary rule: a cell's distance
//! is zero exactly when the cell itself is non-walkable.

use vstd::prelude::*;
use crate::fixed::{SCALE, floor_div, isqrt, spec_isqrt, is_isqrt,
    lemma_isqrt_exists, lemma_isqrt_witness};
use crate::level::Vec2;
use crate::priority_queue::PriorityQueue;
use std::collections::VecDeque;

verus! {

/// Marker for a cell the build has not resolved yet; a successful build
/// leaves no cell carrying it.
pub const D_UNSET: i64 = 0x7fff_ffff_ffff_ffff;

/// Largest accepted field side; keeps every cell centre coordinate distinct.
pub const FIELD_MAX: usize = 32768;

/// Why a build failed.
#[derive(Clone, Copy, PartialEq, Eq, Structural, Debug)]
pub enum BuildError {
    /// Some cell was still unresolved when the algorithm finished: the
    /// geometry is disconnected (or has no non-walkable cell at all).
    Unresolved,
    /// The defensive bound on relaxation operations was exhausted.
    CapExceeded,
}

/// Centre coordinate of cell `i` on an axis of `n` cells: (i + 0.5) / n
/// in fixed point.
pub open spec fn spec_center(i: int, n: int) -> int {
    ((2 * i + 1) * SCALE) / (2 * n)
}

/// Centre coordinate of a field cell.
pub fn center(i: usize, n: usize) -> (r: i64)
    requires
        i < n,
        n <= FIELD_MAX,
    ensures
        r == spec_center(i as int, n as int),
        0 <= r < SCALE,
{
    let r: i64 = ((2 * i as i64 + 1) * SCALE) / (2 * n as i64);
    proof {
        lemma_center_in_range(i as int, n as int);
    }
    r
}

/// Cell centres lie inside the unit interval.
pub proof fn lemma_center_in_range(i: int, n: int)
    requires
        0 <= i < n,
        n <= FIELD_MAX,
    ensures
        0 <= spec_center(i, n) < SCALE,
{
    assert(0 <= (2 * i + 1) * SCALE < (2 * n) * SCALE) by (nonlinear_arith)
        requires
            0 <= i < n,
    ;
    assert(0 <= ((2 * i + 1) * SCALE) / (2 * n) < SCALE) by (nonlinear_arith)
        requires
            0 <= (2 * i + 1) * SCALE < (2 * n) * SCALE,
            n >= 1,
    ;
}

/// Distinct cells on one axis have distinct centres (the axis has at most
/// FIELD_MAX cells, so truncation cannot merge neighbours).
pub proof fn lemma_center_strict_mono(i: int, i2: int, n: int)
    requires
        0 <= i < i2 < n,
        n <= FIELD_MAX,
    ensures
        spec_center(i, n) < spec_center(i2, n),
{
    let m = 2 * n;
    let a = (2 * i + 1) * SCALE;
    let b = (2 * i2 + 1) * SCALE;
    vstd::arithmetic::div_mod::lemma_fundamental_div_mod(a, m);
    vstd::arithmetic::div_mod::lemma_fundamental_div_mod(b, m);
    vstd::arithmetic::div_mod::lemma_mod_division_less_than_divisor(a, m);
    vstd::arithmetic::div_mod::lemma_mod_division_less_than_divisor(b, m);
    assert(a / m < b / m) by (nonlinear_arith)
        requires
            a == m * (a / m) + a % m,
            b == m * (b / m) + b % m,
            0 <= a % m < m,
            0 <= b % m < m,
            b - a >= 2 * SCALE,
            0 < m <= 2 * FIELD_MAX,
            2 * FIELD_MAX <= 2 * SCALE,
            a >= 0,
    ;
}

/// Exact fixed-point distance between the centres of two field cells.
pub open spec fn spec_cell_dist(i: int, j: int, i2: int, j2: int, w: int, h: int) -> int {
    let dx = spec_center(i, w) - spec_center(i2, w);
    let dy = spec_center(j, h) - spec_center(j2, h);
    spec_isqrt(dx * dx + dy * dy)
}

/// The centre distance of two distinct cells is at least one unit; of a cell
/// to itself, zero. Both are bounded by the grid diagonal.
pub proof fn lemma_cell_dist_bounds(i: int, j: int, i2: int, j2: int, w: int, h: int)
    requires
        0 <= i < w,
        0 <= i2 < w,
        0 <= j < h,
        0 <= j2 < h,
        w <= FIELD_MAX,
        h <= FIELD_MAX,
    ensures
        (i == i2 && j == j2) ==> spec_cell_dist(i, j, i2, j2, w, h) == 0,
        (i != i2 || j != j2) ==> 1 <= spec_cell_dist(i, j, i2, j2, w, h),
        0 <= spec_cell_dist(i, j, i2, j2, w, h) < 2 * SCALE,
{
    let dx = spec_center(i, w) - spec_center(i2, w);
    let dy = spec_center(j, h) - spec_center(j2, h);
    let sq = dx * dx + dy * dy;
    lemma_center_in_range(i, w);
    lemma_center_in_range(i2, w);
    lemma_center_in_range(j, h);
    lemma_center_in_range(j2, h);
    if i < i2 {
        lemma_center_strict_mono(i, i2, w);
    }
    if i2 < i {
        lemma_center_strict_mono(i2, i, w);
    }
    if j < j2 {
        lemma_center_strict_mono(j, j2, h);
    }
    if j2 < j {
        lemma_center_strict_mono(j2, j, h);
    }
    assert(0 <= sq < 4 * SCALE * SCALE) by (nonlinear_arith)
        requires
            -SCALE < dx < SCALE,
            -SCALE < dy < SCALE,
            sq == dx * dx + dy * dy,
    ;
    lemma_isqrt_exists(sq);
    let r = spec_isqrt(sq);
    if i == i2 && j == j2 {
        assert(is_isqrt(0, 0)) by (nonlinear_arith);
        lemma_isqrt_witness(0, 0);
    } else {
        assert(sq >= 1) by (nonlinear_arith)
            requires
                sq == dx * dx + dy * dy,
                dx != 0 || dy != 0,
        ;
        assert(r >= 1) by (nonlinear_arith)
            requires
                is_isqrt(sq, r),
                sq >= 1,
        ;
    }
    assert(r < 2 * SCALE) by (nonlinear_arith)
        requires
            is_isqrt(sq, r),
            sq < 4 * SCALE * SCALE,
    ;
}

/// Exact centre distance between two field cells.
pub fn cell_dist(i: usize, j: usize, i2: usize, j2: usize, w: usize, h: usize) -> (r: i64)
    requires
        i < w,
        i2 < w,
        j < h,
        j2 < h,
        w <= FIELD_MAX,
        h <= FIELD_MAX,
    ensures
        r == spec_cell_dist(i as int, j as int, i2 as int, j2 as int, w as int, h as int),
        0 <= r < 2 * SCALE,
        (i == i2 && j == j2) ==> r == 0,
        (i != i2 || j != j2) ==> r >= 1,
{
    let dx: i64 = center(i, w) - center(i2, w);
    let dy: i64 = center(j, h) - center(j2, h);
    proof {
        lemma_cell_dist_bounds(i as int, j as int, i2 as int, j2 as int, w as int, h as int);
        assert(0 <= dx * dx <= SCALE * SCALE && 0 <= dy * dy <= SCALE * SCALE)
            by (nonlinear_arith)
            requires
                -SCALE < dx < SCALE,
                -SCALE < dy < SCALE,
        ;
    }
    isqrt(dx * dx + dy * dy)
}




/// Build state of the separable sweep: for each cell, the remembered nearest
/// obstruction cell (-1 when unset) and its stored distance.
pub struct SepState {
    pub ni: Seq<i64>,
    pub nj: Seq<i64>,
    pub dist: Seq<i64>,
}

/// Assembles a state from the three working arrays.
pub open spec fn sep_st(ni: Seq<i64>, nj: Seq<i64>, dist: Seq<i64>) -> SepState {
    SepState { ni: ni, nj: nj, dist: dist }
}

/// Initial state: every non-walkable cell remembers itself at distance 0,
/// every walkable cell is unset.
pub open spec fn sep_init(walk: Seq<bool>, w: int, h: int) -> SepState {
    SepState {
        ni: Seq::new((w * h) as nat, |idx: int| if !walk[idx] { (idx % w) as i64 } else { -1i64 }),
        nj: Seq::new((w * h) as nat, |idx: int| if !walk[idx] { (idx / w) as i64 } else { -1i64 }),
        dist: Seq::new((w * h) as nat, |idx: int| if !walk[idx] { 0i64 } else { D_UNSET }),
    }
}

/// One propagation step: cell `src` offers its remembered obstruction to
/// cell `dst`, which takes it if that strictly reduces its exact centre
/// distance to an obstruction.
pub open spec fn sep_apply(s: SepState, w: int, h: int, src: int, dst: int) -> SepState {
    if s.ni[src] == -1 || (s.ni[dst] == s.ni[src] && s.nj[dst] == s.nj[src]) {
        s
    } else {
        let d2m = spec_cell_dist(dst % w, dst / w, s.ni[src] as int, s.nj[src] as int, w, h);
        if d2m < s.dist[dst] {
            SepState {
                ni: s.ni.update(dst, s.ni[src]),
                nj: s.nj.update(dst, s.nj[src]),
                dist: s.dist.update(dst, d2m as i64),
            }
        } else {
            s
        }
    }
}

/// Folds the propagation step over a sequence of (src, dst) pairs.
pub open spec fn sep_fold(s: SepState, w: int, h: int, prs: Seq<(int, int)>) -> SepState
    decreases prs.len(),
{
    if prs.len() == 0 {
        s
    } else {
        sep_apply(sep_fold(s, w, h, prs.drop_last()), w, h, prs.last().0, prs.last().1)
    }
}

/// The downward sweep: rows in increasing order, each cell offering to the
/// cell below it.
pub open spec fn pairs_down(w: int, h: int) -> Seq<(int, int)> {
    Seq::new(((h - 1) * w) as nat, |k: int| (k, k + w))
}

/// The upward sweep: rows in decreasing order, each cell offering upward.
pub open spec fn pairs_up(w: int, h: int) -> Seq<(int, int)> {
    Seq::new(
        ((h - 1) * w) as nat,
        |k: int| ((h - 1 - k / w) * w + k % w, (h - 1 - k / w) * w + k % w - w),
    )
}

/// The rightward sweep: within each row, cells offering to the right.
pub open spec fn pairs_right(w: int, h: int) -> Seq<(int, int)> {
    Seq::new(
        (h * (w - 1)) as nat,
        |k: int| ((k / (w - 1)) * w + k % (w - 1), (k / (w - 1)) * w + k % (w - 1) + 1),
    )
}

/// The leftward sweep: within each row, cells offering to the left.
pub open spec fn pairs_left(w: int, h: int) -> Seq<(int, int)> {
    Seq::new(
        (h * (w - 1)) as nat,
        |k: int| ((k / (w - 1)) * w + (w - 1 - k % (w - 1)),
            (k / (w - 1)) * w + (w - 1 - k % (w - 1)) - 1),
    )
}

/// One full pass: down, up, right, left.
pub open spec fn sep_pass(s: SepState, w: int, h: int) -> SepState {
    sep_fold(
        sep_fold(sep_fold(sep_fold(s, w, h, pairs_down(w, h)), w, h, pairs_up(w, h)), w, h,
            pairs_right(w, h)),
        w,
        h,
        pairs_left(w, h),
    )
}

/// `n` full passes.
pub open spec fn sep_passes(s: SepState, w: int, h: int, n: int) -> SepState
    decreases n,
{
    if n <= 0 {
        s
    } else {
        sep_pass(sep_passes(s, w, h, n - 1), w, h)
    }
}

/// Number of full passes the separable builder makes.
pub const SEP_PASSES: usize = 4;

/// The state the separable builder ends in.
pub open spec fn sep_final(walk: Seq<bool>, w: int, h: int) -> SepState {
    sep_passes(sep_init(walk, w, h), w, h, SEP_PASSES as int)
}

/// Accepted field dimensions.
pub open spec fn dims_ok(w: int, h: int) -> bool {
    2 <= w <= FIELD_MAX && 2 <= h <= FIELD_MAX
}

/// Per-cell invariant of the sweep state: a non-walkable cell remembers
/// itself at distance zero; a walkable cell is unset, or remembers an
/// in-range non-walkable cell at its exact (hence positive) centre distance.
pub open spec fn sep_cell_inv(s: SepState, walk: Seq<bool>, w: int, h: int, idx: int) -> bool {
    if !walk[idx] {
        s.ni[idx] == idx % w && s.nj[idx] == idx / w && s.dist[idx] == 0
    } else {
        (s.ni[idx] == -1 && s.nj[idx] == -1 && s.dist[idx] == D_UNSET) || {
            &&& 0 <= s.ni[idx] < w
            &&& 0 <= s.nj[idx] < h
            &&& !walk[s.nj[idx] * w + s.ni[idx]]
            &&& s.dist[idx] == spec_cell_dist(idx % w, idx / w, s.ni[idx] as int,
                s.nj[idx] as int, w, h)
            &&& 1 <= s.dist[idx] < 2 * SCALE
        }
    }
}

/// The sweep-state invariant.
pub open spec fn sep_inv(s: SepState, walk: Seq<bool>, w: int, h: int) -> bool {
    &&& walk.len() == w * h
    &&& s.ni.len() == w * h
    &&& s.nj.len() == w * h
    &&& s.dist.len() == w * h
    &&& forall|idx: int| 0 <= idx < w * h ==> #[trigger] sep_cell_inv(s, walk, w, h, idx)
}

/// Row and column of a flat index.
pub proof fn lemma_idx_bounds(idx: int, w: int, h: int) by (nonlinear_arith)
    requires
        0 <= idx < w * h,
        1 <= w,
        1 <= h,
    ensures
        0 <= idx % w < w,
        0 <= idx / w < h,
        idx == (idx / w) * w + idx % w,
{
}

/// A flat index built from a row and column takes them back apart.
pub proof fn lemma_rowcol(idx: int, i: int, j: int, w: int)
    requires
        idx == j * w + i,
        0 <= i < w,
        0 <= j,
    ensures
        idx % w == i,
        idx / w == j,
{
    vstd::arithmetic::div_mod::lemma_fundamental_div_mod_converse_div(idx, w, j, i);
    vstd::arithmetic::div_mod::lemma_fundamental_div_mod_converse_mod(idx, w, j, i);
}

/// The propagation step preserves the invariant.
pub proof fn lemma_sep_apply_inv(s: SepState, walk: Seq<bool>, w: int, h: int, src: int,
    dst: int)
    requires
        sep_inv(s, walk, w, h),
        dims_ok(w, h),
        0 <= src < w * h,
        0 <= dst < w * h,
    ensures
        sep_inv(sep_apply(s, w, h, src, dst), walk, w, h),
{
    let s2 = sep_apply(s, w, h, src, dst);
    lemma_idx_bounds(src, w, h);
    lemma_idx_bounds(dst, w, h);
    assert(sep_cell_inv(s, walk, w, h, src));
    assert(sep_cell_inv(s, walk, w, h, dst));
    if !(s.ni[src] == -1 || (s.ni[dst] == s.ni[src] && s.nj[dst] == s.nj[src])) {
        let ni = s.ni[src] as int;
        let nj = s.nj[src] as int;
        assert(0 <= ni < w && 0 <= nj < h && !walk[nj * w + ni]);
        let d2m = spec_cell_dist(dst % w, dst / w, ni, nj, w, h);
        lemma_cell_dist_bounds(dst % w, dst / w, ni, nj, w, h);
        if d2m < s.dist[dst] {
            if !walk[dst] {
                assert(s.dist[dst] == 0);
                assert(false);
            }
            assert(walk[dst]);
            if dst % w == ni && dst / w == nj {
                lemma_rowcol(dst, dst % w, dst / w, w);
                assert(dst == nj * w + ni);
                assert(false);
            }
            assert(1 <= d2m < 2 * SCALE);
            assert forall|idx: int| 0 <= idx < w * h implies #[trigger] sep_cell_inv(s2, walk,
                w, h, idx) by {
                assert(sep_cell_inv(s, walk, w, h, idx));
            }
        }
    }
}

/// Every pair of the sequence indexes a cell of the grid.
pub open spec fn pairs_valid(prs: Seq<(int, int)>, w: int, h: int) -> bool {
    forall|k: int| 0 <= k < prs.len() ==> {
        &&& 0 <= (#[trigger] prs[k]).0 < w * h
        &&& 0 <= prs[k].1 < w * h
    }
}

/// The fold preserves the invariant over valid pairs.
pub proof fn lemma_sep_fold_inv(s: SepState, walk: Seq<bool>, w: int, h: int,
    prs: Seq<(int, int)>)
    requires
        sep_inv(s, walk, w, h),
        dims_ok(w, h),
        pairs_valid(prs, w, h),
    ensures
        sep_inv(sep_fold(s, w, h, prs), walk, w, h),
    decreases prs.len(),
{
    if prs.len() > 0 {
        lemma_sep_fold_inv(s, walk, w, h, prs.drop_last());
        assert(0 <= prs[prs.len() - 1].0 < w * h);
        lemma_sep_apply_inv(sep_fold(s, w, h, prs.drop_last()), walk, w, h, prs.last().0,
            prs.last().1);
    }
}

/// Quotient bound used by the sweep orderings.
proof fn lemma_div_bound(k: int, w: int, m: int) by (nonlinear_arith)
    requires
        0 <= k < m * w,
        1 <= w,
        1 <= m,
    ensures
        0 <= k / w < m,
        0 <= k % w < w,
{
}

/// The four sweep orderings only index cells of the grid.
pub proof fn lemma_pairs_all_valid(w: int, h: int)
    requires
        dims_ok(w, h),
    ensures
        pairs_valid(pairs_down(w, h), w, h),
        pairs_valid(pairs_up(w, h), w, h),
        pairs_valid(pairs_right(w, h), w, h),
        pairs_valid(pairs_left(w, h), w, h),
{
    assert forall|k: int| 0 <= k < ((h - 1) * w) implies {
        &&& 0 <= (#[trigger] pairs_down(w, h)[k]).0 < w * h
        &&& 0 <= pairs_down(w, h)[k].1 < w * h
    } by {
        lemma_div_bound(k, w, h - 1);
        assert(k + w < w * h) by (nonlinear_arith)
            requires
                0 <= k < (h - 1) * w,
                1 <= w,
                2 <= h,
        ;
    }
    assert forall|k: int| 0 <= k < ((h - 1) * w) implies {
        &&& 0 <= (#[trigger] pairs_up(w, h)[k]).0 < w * h
        &&& 0 <= pairs_up(w, h)[k].1 < w * h
    } by {
        lemma_div_bound(k, w, h - 1);
        let j = h - 1 - k / w;
        let i = k % w;
        assert(1 <= j <= h - 1);
        assert(j * w + i < w * h && 0 <= j * w + i - w) by (nonlinear_arith)
            requires
                0 <= i < w,
                1 <= j <= h - 1,
                1 <= w,
                2 <= h,
        ;
    }
    assert forall|k: int| 0 <= k < (h * (w - 1)) implies {
        &&& 0 <= (#[trigger] pairs_right(w, h)[k]).0 < w * h
        &&& 0 <= pairs_right(w, h)[k].1 < w * h
    } by {
        lemma_div_bound(k, w - 1, h);
        let j = k / (w - 1);
        let i = k % (w - 1);
        assert(j * w + i + 1 < w * h) by (nonlinear_arith)
            requires
                0 <= j < h,
                0 <= i < w - 1,
                2 <= w,
                1 <= h,
        ;
    }
    assert forall|k: int| 0 <= k < (h * (w - 1)) implies {
        &&& 0 <= (#[trigger] pairs_left(w, h)[k]).0 < w * h
        &&& 0 <= pairs_left(w, h)[k].1 < w * h
    } by {
        lemma_div_bound(k, w - 1, h);
        let j = k / (w - 1);
        let i = k % (w - 1);
        assert(0 <= j * w + (w - 1 - i) - 1 && j * w + (w - 1 - i) < w * h)
            by (nonlinear_arith)
            requires
                0 <= j < h,
                0 <= i < w - 1,
                2 <= w,
                1 <= h,
        ;
    }
}

/// The initial state satisfies the invariant.
pub proof fn lemma_sep_init_inv(walk: Seq<bool>, w: int, h: int)
    requires
        dims_ok(w, h),
        walk.len() == w * h,
    ensures
        sep_inv(sep_init(walk, w, h), walk, w, h),
{
    let s = sep_init(walk, w, h);
    assert forall|idx: int| 0 <= idx < w * h implies #[trigger] sep_cell_inv(s, walk, w, h,
        idx) by {
        lemma_idx_bounds(idx, w, h);
    }
}

/// One full pass preserves the invariant.
pub proof fn lemma_sep_pass_inv(s: SepState, walk: Seq<bool>, w: int, h: int)
    requires
        dims_ok(w, h),
        sep_inv(s, walk, w, h),
    ensures
        sep_inv(sep_pass(s, w, h), walk, w, h),
{
    lemma_pairs_all_valid(w, h);
    lemma_sep_fold_inv(s, walk, w, h, pairs_down(w, h));
    lemma_sep_fold_inv(sep_fold(s, w, h, pairs_down(w, h)), walk, w, h, pairs_up(w, h));
    lemma_sep_fold_inv(sep_fold(sep_fold(s, w, h, pairs_down(w, h)), w, h, pairs_up(w, h)),
        walk, w, h, pairs_right(w, h));
    lemma_sep_fold_inv(sep_fold(sep_fold(sep_fold(s, w, h, pairs_down(w, h)), w, h, pairs_up(w,
        h)), w, h, pairs_right(w, h)), walk, w, h, pairs_left(w, h));
}

/// The final state of the separable build satisfies the invariant.
pub proof fn lemma_sep_final_inv(walk: Seq<bool>, w: int, h: int)
    requires
        dims_ok(w, h),
        walk.len() == w * h,
    ensures
        sep_inv(sep_final(walk, w, h), walk, w, h),
{
    let s0 = sep_init(walk, w, h);
    lemma_sep_init_inv(walk, w, h);
    assert(sep_passes(s0, w, h, 0) == s0);
    lemma_sep_pass_inv(sep_passes(s0, w, h, 0), walk, w, h);
    assert(sep_passes(s0, w, h, 1) == sep_pass(sep_passes(s0, w, h, 0), w, h));
    lemma_sep_pass_inv(sep_passes(s0, w, h, 1), walk, w, h);
    assert(sep_passes(s0, w, h, 2) == sep_pass(sep_passes(s0, w, h, 1), w, h));
    lemma_sep_pass_inv(sep_passes(s0, w, h, 2), walk, w, h);
    assert(sep_passes(s0, w, h, 3) == sep_pass(sep_passes(s0, w, h, 2), w, h));
    lemma_sep_pass_inv(sep_passes(s0, w, h, 3), walk, w, h);
    assert(sep_passes(s0, w, h, 4) == sep_pass(sep_passes(s0, w, h, 3), w, h));
}

/// Splitting one step off a fold over a prefix.
pub proof fn lemma_sep_fold_snoc(s: SepState, w: int, h: int, prs: Seq<(int, int)>, k: int)
    requires
        0 <= k < prs.len(),
    ensures
        sep_fold(s, w, h, prs.take(k + 1)) == sep_apply(sep_fold(s, w, h, prs.take(k)), w, h,
            prs[k].0, prs[k].1),
{
    assert(prs.take(k + 1).drop_last() =~= prs.take(k));
    assert(prs.take(k + 1).last() == prs[k]);
}


/// Direction away from a cell's remembered obstruction, scaled so that a
/// full unit has length SCALE; zero for a cell that is its own obstruction.
pub open spec fn spec_dir(s: SepState, w: int, h: int, idx: int) -> Vec2 {
    let dx = spec_center(idx % w, w) - spec_center(s.ni[idx] as int, w);
    let dy = spec_center(idx / w, h) - spec_center(s.nj[idx] as int, h);
    let len = spec_isqrt(dx * dx + dy * dy);
    if len == 0 {
        Vec2 { x: 0, y: 0 }
    } else {
        Vec2 { x: (dx * SCALE / len) as i64, y: (dy * SCALE / len) as i64 }
    }
}

/// A sweep direction of the separable builder.
#[derive(Clone, Copy, PartialEq, Eq, Structural, Debug)]
pub enum SweepDir {
    Down,
    Up,
    Rightward,
    Leftward,
}

/// The (src, dst) ordering a direction sweeps.
pub open spec fn pairs_of(dir: SweepDir, w: int, h: int) -> Seq<(int, int)> {
    match dir {
        SweepDir::Down => pairs_down(w, h),
        SweepDir::Up => pairs_up(w, h),
        SweepDir::Rightward => pairs_right(w, h),
        SweepDir::Leftward => pairs_left(w, h),
    }
}

/// One propagation step of the separable builder, on the working arrays.
fn sep_step(
    nis: &mut Vec<i64>,
    njs: &mut Vec<i64>,
    dist: &mut Vec<i64>,
    w: usize,
    h: usize,
    src: usize,
    dsti: usize,
    dstj: usize,
    dst: usize,
    walk: Ghost<Seq<bool>>,
)
    requires
        sep_inv(sep_st(old(nis)@, old(njs)@, old(dist)@), walk@, w as int, h as int),
        dims_ok(w as int, h as int),
        src < w * h,
        dst == dstj * w + dsti,
        dsti < w,
        dstj < h,
    ensures
        sep_st(final(nis)@, final(njs)@, final(dist)@) == sep_apply(
            sep_st(old(nis)@, old(njs)@, old(dist)@),
            w as int,
            h as int,
            src as int,
            dst as int,
        ),
        sep_inv(sep_st(final(nis)@, final(njs)@, final(dist)@), walk@, w as int, h as int),
{
    proof {
        assert(dst < w * h) by (nonlinear_arith)
            requires
                dst == dstj * w + dsti,
                dsti < w,
                dstj < h,
        ;
        lemma_rowcol(dst as int, dsti as int, dstj as int, w as int);
        lemma_idx_bounds(src as int, w as int, h as int);
        lemma_sep_apply_inv(sep_st(nis@, njs@, dist@), walk@, w as int, h as int, src as int,
            dst as int);
        assert(sep_cell_inv(sep_st(nis@, njs@, dist@), walk@, w as int, h as int, src as int));
    }
    let a: i64 = nis[src];
    let b: i64 = njs[src];
    if a != -1 && !(nis[dst] == a && njs[dst] == b) {
        let d2m: i64 = cell_dist(dsti, dstj, a as usize, b as usize, w, h);
        if d2m < dist[dst] {
            nis.set(dst, a);
            njs.set(dst, b);
            dist.set(dst, d2m);
        }
    }
}

/// One directional sweep over the whole grid.
fn sweep(
    nis: &mut Vec<i64>,
    njs: &mut Vec<i64>,
    dist: &mut Vec<i64>,
    w: usize,
    h: usize,
    dir: SweepDir,
    walk: Ghost<Seq<bool>>,
)
    requires
        sep_inv(sep_st(old(nis)@, old(njs)@, old(dist)@), walk@, w as int, h as int),
        dims_ok(w as int, h as int),
    ensures
        sep_st(final(nis)@, final(njs)@, final(dist)@) == sep_fold(
            sep_st(old(nis)@, old(njs)@, old(dist)@),
            w as int,
            h as int,
            pairs_of(dir, w as int, h as int),
        ),
        sep_inv(sep_st(final(nis)@, final(njs)@, final(dist)@), walk@, w as int, h as int),
{
    let ghost s0 = sep_st(nis@, njs@, dist@);
    let ghost prs = pairs_of(dir, w as int, h as int);
    proof {
        assert((h - 1) * w <= w * h && h * (w - 1) <= w * h && w * h
            <= FIELD_MAX * FIELD_MAX) by (nonlinear_arith)
            requires
                2 <= w <= FIELD_MAX,
                2 <= h <= FIELD_MAX,
        ;
    }
    let npairs: usize = match dir {
        SweepDir::Down => (h - 1) * w,
        SweepDir::Up => (h - 1) * w,
        SweepDir::Rightward => h * (w - 1),
        SweepDir::Leftward => h * (w - 1),
    };
    proof {
        assert(prs.len() == npairs);
    }
    let mut k: usize = 0;
    while k < npairs
        invariant
            k <= npairs,
            npairs <= w * h,
            w * h <= FIELD_MAX * FIELD_MAX,
            dims_ok(w as int, h as int),
            prs == pairs_of(dir, w as int, h as int),
            prs.len() == npairs,
            sep_st(nis@, njs@, dist@) == sep_fold(s0, w as int, h as int, prs.take(k as int)),
            sep_inv(sep_st(nis@, njs@, dist@), walk@, w as int, h as int),
        decreases npairs - k,
    {
        let (src, dsti, dstj, dst): (usize, usize, usize, usize) = match dir {
            SweepDir::Down => {
                let i: usize = k % w;
                let j: usize = k / w;
                proof {
                    lemma_idx_bounds(k as int, w as int, h as int - 1);
                    assert(k + w <= w * h) by (nonlinear_arith)
                        requires
                            k < (h - 1) * w,
                            1 <= w,
                            1 <= h,
                    ;
                }
                (k, i, j + 1, k + w)
            },
            SweepDir::Up => {
                let i: usize = k % w;
                let jj: usize = k / w;
                proof {
                    lemma_idx_bounds(k as int, w as int, h as int - 1);
                    assert((h - 1 - jj) * w + i == (h as int - 1 - (k as int) / (w as int))
                        * w + (k as int) % (w as int) && (h - 1 - jj) * w + i < w * h && w
                        <= (h - 1 - jj) * w + i && (h - 1 - jj) * w <= w * h)
                        by (nonlinear_arith)
                        requires
                            jj == k as int / w as int,
                            i == k as int % w as int,
                            0 <= jj < h - 1,
                            0 <= i < w,
                            2 <= h,
                            1 <= w,
                    ;
                }
                let j: usize = h - 1 - jj;
                let src: usize = j * w + i;
                (src, i, j - 1, src - w)
            },
            SweepDir::Rightward => {
                let i: usize = k % (w - 1);
                let j: usize = k / (w - 1);
                proof {
                    lemma_idx_bounds(k as int, w as int - 1, h as int);
                    assert(j * w + i + 1 < w * h) by (nonlinear_arith)
                        requires
                            0 <= j < h,
                            0 <= i < w - 1,
                            2 <= w,
                    ;
                }
                let src: usize = j * w + i;
                (src, i + 1, j, src + 1)
            },
            SweepDir::Leftward => {
                let ii: usize = k % (w - 1);
                let j: usize = k / (w - 1);
                proof {
                    lemma_idx_bounds(k as int, w as int - 1, h as int);
                    assert(j * w + (w - 1 - ii) < w * h && 1 <= w - 1 - ii)
                        by (nonlinear_arith)
                        requires
                            0 <= j < h,
                            0 <= ii < w - 1,
                            2 <= w,
                    ;
                }
                let i: usize = w - 1 - ii;
                let src: usize = j * w + i;
                (src, i - 1, j, src - 1)
            },
        };
        proof {
            lemma_sep_fold_snoc(s0, w as int, h as int, prs, k as int);
            assert(dst == dstj * w + dsti && dsti < w && dstj < h && src < w * h
                && prs[k as int] == (src as int, dst as int)) by (nonlinear_arith)
                requires
                    prs[k as int] == pairs_of(dir, w as int, h as int)[k as int],
                    prs == pairs_of(dir, w as int, h as int),
                    0 <= k < prs.len(),
                    prs.len() == npairs,
                    npairs == if dir is Down || dir is Up { (h - 1) * w } else { h * (w - 1) },
                    ({
                        let ks = k as int;
                        let ww = w as int;
                        let hh = h as int;
                        match dir {
                            SweepDir::Down => src == ks && dst == ks + ww && dsti == ks % ww
                                && dstj == ks / ww + 1,
                            SweepDir::Up => src == (hh - 1 - ks / ww) * ww + ks % ww && dst
                                == src - ww && dsti == ks % ww && dstj == hh - 2 - ks / ww,
                            SweepDir::Rightward => src == (ks / (ww - 1)) * ww + ks % (ww - 1)
                                && dst == src + 1 && dsti == ks % (ww - 1) + 1 && dstj == ks
                                / (ww - 1),
                            SweepDir::Leftward => src == (ks / (ww - 1)) * ww + (ww - 1 - ks
                                % (ww - 1)) && dst == src - 1 && dsti == ww - 2 - ks % (ww - 1)
                                && dstj == ks / (ww - 1),
                        }
                    }),
                    2 <= w <= FIELD_MAX,
                    2 <= h <= FIELD_MAX,
            ;
        }
        sep_step(nis, njs, dist, w, h, src, dsti, dstj, dst, walk);
        k = k + 1;
    }
    proof {
        assert(prs.take(npairs as int) =~= prs);
    }
}


/// Separable multi-pass builder: rasterized walkability in, exact distances
/// to each cell's remembered nearest obstruction and the direction away from
/// it out. A cell still unset after all passes means disconnected geometry
/// (or a field with no obstruction at all) and fails the build.
pub fn gen_distance_field_sep(walk: &Vec<bool>, w: usize, h: usize) -> (r: Result<
    (Vec<i64>, Vec<Vec2>),
    BuildError,
>)
    requires
        walk@.len() == w * h,
        dims_ok(w as int, h as int),
    ensures
        match r {
            Ok(p) => {
                let fs = sep_final(walk@, w as int, h as int);
                &&& p.0@ == fs.dist
                &&& p.0@.len() == w * h
                &&& p.1@.len() == w * h
                &&& p.1@ == Seq::new((w * h) as nat, |idx: int| spec_dir(fs, w as int,
                    h as int, idx))
                &&& forall|idx: int| 0 <= idx < w * h ==> 0 <= #[trigger] p.0@[idx] < D_UNSET
                &&& forall|idx: int| 0 <= idx < w * h ==> ((p.0@[idx] == 0) <==> !walk@[idx])
                &&& forall|idx: int| 0 <= idx < w * h ==> #[trigger] fs.ni[idx] != -1
            },
            Err(e) => {
                &&& e == BuildError::Unresolved
                &&& exists|idx: int| 0 <= idx < w * h && #[trigger] sep_final(walk@, w as int,
                    h as int).ni[idx] == -1
            },
        },
{
    proof {
        assert(w * h <= FIELD_MAX * FIELD_MAX) by (nonlinear_arith)
            requires
                w <= FIELD_MAX,
                h <= FIELD_MAX,
        ;
    }
    let wh: usize = w * h;
    let ghost s0 = sep_init(walk@, w as int, h as int);
    let mut nis: Vec<i64> = Vec::new();
    let mut njs: Vec<i64> = Vec::new();
    let mut dist: Vec<i64> = Vec::new();
    let mut idx: usize = 0;
    while idx < wh
        invariant
            idx <= wh,
            wh == w * h,
            w * h <= FIELD_MAX * FIELD_MAX,
            dims_ok(w as int, h as int),
            walk@.len() == w * h,
            s0 == sep_init(walk@, w as int, h as int),
            nis@.len() == idx,
            njs@.len() == idx,
            dist@.len() == idx,
            forall|m: int| 0 <= m < idx ==> #[trigger] nis@[m] == s0.ni[m],
            forall|m: int| 0 <= m < idx ==> #[trigger] njs@[m] == s0.nj[m],
            forall|m: int| 0 <= m < idx ==> #[trigger] dist@[m] == s0.dist[m],
        decreases wh - idx,
    {
        proof {
            lemma_idx_bounds(idx as int, w as int, h as int);
        }
        let i: usize = idx % w;
        let j: usize = idx / w;
        if !walk[idx] {
            nis.push(i as i64);
            njs.push(j as i64);
            dist.push(0);
        } else {
            nis.push(-1);
            njs.push(-1);
            dist.push(D_UNSET);
        }
        idx = idx + 1;
    }
    proof {
        assert(nis@ =~= s0.ni);
        assert(njs@ =~= s0.nj);
        assert(dist@ =~= s0.dist);
        assert(sep_st(nis@, njs@, dist@) == s0);
        lemma_sep_init_inv(walk@, w as int, h as int);
    }
    let ghost gwalk = walk@;
    let mut p: usize = 0;
    while p < SEP_PASSES
        invariant
            p <= SEP_PASSES,
            wh == w * h,
            dims_ok(w as int, h as int),
            gwalk == walk@,
            gwalk.len() == w * h,
            s0 == sep_init(walk@, w as int, h as int),
            sep_st(nis@, njs@, dist@) == sep_passes(s0, w as int, h as int, p as int),
            sep_inv(sep_st(nis@, njs@, dist@), gwalk, w as int, h as int),
        decreases SEP_PASSES - p,
    {
        let ghost sp = sep_st(nis@, njs@, dist@);
        sweep(&mut nis, &mut njs, &mut dist, w, h, SweepDir::Down, Ghost(gwalk));
        sweep(&mut nis, &mut njs, &mut dist, w, h, SweepDir::Up, Ghost(gwalk));
        sweep(&mut nis, &mut njs, &mut dist, w, h, SweepDir::Rightward, Ghost(gwalk));
        sweep(&mut nis, &mut njs, &mut dist, w, h, SweepDir::Leftward, Ghost(gwalk));
        proof {
            assert(sep_st(nis@, njs@, dist@) == sep_pass(sp, w as int, h as int));
            assert(sep_passes(s0, w as int, h as int, p as int + 1) == sep_pass(sep_passes(s0,
                w as int, h as int, p as int), w as int, h as int));
        }
        p = p + 1;
    }
    let ghost fs = sep_final(walk@, w as int, h as int);
    proof {
        assert(sep_st(nis@, njs@, dist@) == fs);
    }
    let mut idx2: usize = 0;
    while idx2 < wh
        invariant
            idx2 <= wh,
            wh == w * h,
            nis@.len() == w * h,
            fs == sep_final(gwalk, w as int, h as int),
            gwalk == walk@,
            nis@ == fs.ni,
            forall|m: int| 0 <= m < idx2 ==> #[trigger] fs.ni[m] != -1,
        decreases wh - idx2,
    {
        if nis[idx2] == -1 {
            return Err(BuildError::Unresolved);
        }
        idx2 = idx2 + 1;
    }
    let mut dirs: Vec<Vec2> = Vec::new();
    let mut idx3: usize = 0;
    while idx3 < wh
        invariant
            idx3 <= wh,
            wh == w * h,
            w * h <= FIELD_MAX * FIELD_MAX,
            dims_ok(w as int, h as int),
            gwalk == walk@,
            gwalk.len() == w * h,
            fs == sep_final(gwalk, w as int, h as int),
            sep_st(nis@, njs@, dist@) == fs,
            sep_inv(fs, gwalk, w as int, h as int),
            forall|m: int| 0 <= m < w * h ==> #[trigger] fs.ni[m] != -1,
            dirs@.len() == idx3,
            forall|m: int| 0 <= m < idx3 ==> #[trigger] dirs@[m] == spec_dir(fs, w as int,
                h as int, m),
        decreases wh - idx3,
    {
        proof {
            lemma_idx_bounds(idx3 as int, w as int, h as int);
            assert(sep_cell_inv(fs, gwalk, w as int, h as int, idx3 as int));
        }
        let i: usize = idx3 % w;
        let j: usize = idx3 / w;
        let a: i64 = nis[idx3];
        let b: i64 = njs[idx3];
        let dx: i64 = center(i, w) - center(a as usize, w);
        let dy: i64 = center(j, h) - center(b as usize, h);
        proof {
            assert(0 <= dx * dx <= SCALE * SCALE && 0 <= dy * dy <= SCALE * SCALE)
                by (nonlinear_arith)
                requires
                    -SCALE < dx < SCALE,
                    -SCALE < dy < SCALE,
            ;
        }
        let len: i64 = isqrt(dx * dx + dy * dy);
        let v: Vec2 = if len == 0 {
            Vec2 { x: 0, y: 0 }
        } else {
            Vec2 { x: floor_div(dx * SCALE, len), y: floor_div(dy * SCALE, len) }
        };
        dirs.push(v);
        idx3 = idx3 + 1;
    }
    proof {
        assert(dirs@ =~= Seq::new((w * h) as nat, |m: int| spec_dir(fs, w as int, h as int,
            m)));
        assert forall|m: int| 0 <= m < w * h implies 0 <= #[trigger] dist@[m] < D_UNSET
            && ((dist@[m] == 0) <==> !gwalk[m]) by {
            assert(sep_cell_inv(fs, gwalk, w as int, h as int, m));
        }
    }
    Ok((dist, dirs))
}


/// Per-cell shape of a distance array during and after a build: non-walkable
/// cells hold zero; walkable cells hold the unset marker or a positive value.
pub open spec fn dist_cell_inv(d: Seq<i64>, walk: Seq<bool>, idx: int) -> bool {
    if !walk[idx] {
        d[idx] == 0
    } else {
        d[idx] == D_UNSET || 1 <= d[idx] < D_UNSET
    }
}

/// The whole distance array keeps that shape.
pub open spec fn dist_inv(d: Seq<i64>, walk: Seq<bool>, w: int, h: int) -> bool {
    &&& d.len() == w * h
    &&& forall|idx: int| 0 <= idx < w * h ==> #[trigger] dist_cell_inv(d, walk, idx)
}

/// The distance array every builder starts from: zero on non-walkable
/// cells, unset elsewhere.
fn init_dist(walk: &Vec<bool>, w: usize, h: usize) -> (d: Vec<i64>)
    requires
        walk@.len() == w * h,
        dims_ok(w as int, h as int),
    ensures
        dist_inv(d@, walk@, w as int, h as int),
        forall|idx: int| 0 <= idx < w * h ==> #[trigger] d@[idx] == (if !walk@[idx] { 0i64 } else {
            D_UNSET
        }),
{
    proof {
        assert(w * h <= FIELD_MAX * FIELD_MAX) by (nonlinear_arith)
            requires
                w <= FIELD_MAX,
                h <= FIELD_MAX,
        ;
    }
    let wh: usize = w * h;
    let mut d: Vec<i64> = Vec::new();
    let mut idx: usize = 0;
    while idx < wh
        invariant
            idx <= wh,
            wh == w * h,
            walk@.len() == w * h,
            d@.len() == idx,
            forall|m: int| 0 <= m < idx ==> #[trigger] d@[m] == (if !walk@[m] { 0i64 } else {
                D_UNSET
            }),
        decreases wh - idx,
    {
        if !walk[idx] {
            d.push(0);
        } else {
            d.push(D_UNSET);
        }
        idx = idx + 1;
    }
    d
}

/// Spec-level state of the priority-queue propagation: the distance array
/// and the (key, cell) queue in insertion order.
pub struct DijState {
    pub dist: Seq<i64>,
    pub queue: Seq<(i64, usize)>,
}

/// The 8-connected neighbour offsets in scan order; the flag marks the
/// diagonal ones.
pub open spec fn spec_offset(n: int) -> (i64, i64, bool) {
    if n == 0 {
        (-1i64, 0i64, false)
    } else if n == 1 {
        (0i64, -1i64, false)
    } else if n == 2 {
        (1i64, 0i64, false)
    } else if n == 3 {
        (0i64, 1i64, false)
    } else if n == 4 {
        (-1i64, -1i64, true)
    } else if n == 5 {
        (-1i64, 1i64, true)
    } else if n == 6 {
        (1i64, -1i64, true)
    } else {
        (1i64, 1i64, true)
    }
}

/// One relaxation offer: a tentative distance for the neighbour at `nidx`,
/// taken on strict improvement and queued for further relaxation.
pub open spec fn dij_offer(s: DijState, nd: int, nidx: int) -> DijState {
    if nd < s.dist[nidx] {
        DijState {
            dist: s.dist.update(nidx, nd as i64),
            queue: s.queue.push((nd as i64, nidx as usize)),
        }
    } else {
        s
    }
}

/// The first n of the eight neighbour offers of cell (i, j) popped at
/// key d.
pub open spec fn dij_relax(s: DijState, w: int, h: int, ms: int, dg: int, i: int, j: int,
    d: int, n: int) -> DijState
    decreases n,
{
    if n <= 0 {
        s
    } else {
        let p = dij_relax(s, w, h, ms, dg, i, j, d, n - 1);
        let o = spec_offset(n - 1);
        let ni = i + o.0;
        let nj = j + o.1;
        let edge = if o.2 {
            dg
        } else {
            ms
        };
        if 0 <= ni < w && 0 <= nj < h {
            dij_offer(p, d + edge, nj * w + ni)
        } else {
            p
        }
    }
}

/// One step: extract the earliest minimal-key entry and relax its eight
/// neighbours (keys beyond the defensive bound are discarded unrelaxed).
pub open spec fn dij_step(s: DijState, w: int, h: int, ms: int, dg: int) -> DijState {
    let f = crate::priority_queue::first_min_idx(s.queue);
    let kv = s.queue[f];
    let s1 = DijState { dist: s.dist, queue: s.queue.remove(f) };
    if kv.0 <= 8 * SCALE {
        dij_relax(s1, w, h, ms, dg, kv.1 as int % w, kv.1 as int / w, kv.0 as int, 8)
    } else {
        s1
    }
}

/// The propagation run to completion: steps until the queue drains or the
/// operation budget is spent.
pub open spec fn dij_run(s: DijState, w: int, h: int, ms: int, dg: int, fuel: nat) -> DijState
    decreases fuel,
{
    if fuel == 0 || s.queue.len() == 0 {
        s
    } else {
        dij_run(dij_step(s, w, h, ms, dg), w, h, ms, dg, (fuel - 1) as nat)
    }
}

/// Whether cell (i, j) has a walkable neighbour among the first n offsets.
pub open spec fn open_nb(walk: Seq<bool>, w: int, h: int, i: int, j: int, n: int) -> bool
    decreases n,
{
    if n <= 0 {
        false
    } else {
        open_nb(walk, w, h, i, j, n - 1) || ({
            let o = spec_offset(n - 1);
            let ni = i + o.0;
            let nj = j + o.1;
            0 <= ni < w && 0 <= nj < h && walk[nj * w + ni]
        })
    }
}

/// The initial queue: every non-walkable cell with a walkable 8-neighbour,
/// seeded at key zero in index order.
pub open spec fn dij_seeds(walk: Seq<bool>, w: int, h: int, n: int) -> Seq<(i64, usize)>
    decreases n,
{
    if n <= 0 {
        Seq::empty()
    } else {
        let p = dij_seeds(walk, w, h, n - 1);
        if !walk[n - 1] && open_nb(walk, w, h, (n - 1) % w, (n - 1) / w, 8) {
            p.push((0i64, (n - 1) as usize))
        } else {
            p
        }
    }
}

/// The state the priority-queue builder ends in: the full run from the
/// zeroed obstruction cells and the seeded boundary.
pub open spec fn dij_final(walk: Seq<bool>, w: int, h: int) -> DijState {
    let ms = (SCALE as int) / w;
    dij_run(
        DijState {
            dist: Seq::new((w * h) as nat, |c: int| if !walk[c] {
                0i64
            } else {
                D_UNSET
            }),
            queue: dij_seeds(walk, w, h, w * h),
        },
        w,
        h,
        ms,
        spec_isqrt(2 * ms * ms),
        relax_budget(w, h) as nat,
    )
}

/// The neighbour offsets of the 8-connected relaxation, in scan order;
/// the flag marks the diagonal ones.
fn neighbor_offset(n: usize) -> (r: (i64, i64, bool))
    requires
        n < 8,
    ensures
        r == spec_offset(n as int),
        -1 <= r.0 <= 1,
        -1 <= r.1 <= 1,
        (r.0, r.1) != (0i64, 0i64),
{
    if n == 0 {
        (-1, 0, false)
    } else if n == 1 {
        (0, -1, false)
    } else if n == 2 {
        (1, 0, false)
    } else if n == 3 {
        (0, 1, false)
    } else if n == 4 {
        (-1, -1, true)
    } else if n == 5 {
        (-1, 1, true)
    } else if n == 6 {
        (1, -1, true)
    } else {
        (1, 1, true)
    }
}

/// Defensive bound on relaxation keys (ten units); far above any distance
/// the unit square can hold, so it never bites on real geometry.
pub const KEY_CAP: i64 = 655360;

/// Priority-queue propagation: seeds the boundary of the non-walkable
/// region at distance zero and relaxes outward over the 8-connected grid
/// with orthogonal steps of one cell and diagonal steps of one diagonal.
/// The contract pins the whole outcome to the spec-level run `dij_final`:
/// success exactly when the run drains its queue leaving no cell unset,
/// the budget error exactly when the run's operation budget is exhausted
/// with work left, and the unresolved error exactly when the drained run
/// left a cell unset (disconnected geometry, or no obstruction at all).
pub fn gen_distance_field_djikstra(walk: &Vec<bool>, w: usize, h: usize) -> (r: Result<
    Vec<i64>,
    BuildError,
>)
    requires
        walk@.len() == w * h,
        dims_ok(w as int, h as int),
    ensures
        ({
            let fs = dij_final(walk@, w as int, h as int);
            &&& ((r is Ok) <==> (fs.queue.len() == 0 && (forall|c: int| 0 <= c < w * h
                ==> #[trigger] fs.dist[c] != D_UNSET)))
            &&& ((r == Err::<Vec<i64>, BuildError>(BuildError::CapExceeded)) <==> fs.queue.len()
                > 0)
            &&& ((r == Err::<Vec<i64>, BuildError>(BuildError::Unresolved)) <==> (fs.queue.len()
                == 0 && (exists|c: int| 0 <= c < w * h && #[trigger] fs.dist[c] == D_UNSET)))
            &&& (r matches Ok(d) ==> {
                &&& d@ == fs.dist
                &&& d@.len() == w * h
                &&& forall|idx: int| 0 <= idx < w * h ==> 0 <= #[trigger] d@[idx] < D_UNSET
                &&& forall|idx: int| 0 <= idx < w * h ==> ((d@[idx] == 0) <==> !walk@[idx])
            })
        }),
{
    proof {
        assert(w * h <= FIELD_MAX * FIELD_MAX && SCALE as int / w as int >= 2
            && SCALE as int / w as int <= SCALE) by (nonlinear_arith)
            requires
                2 <= w <= FIELD_MAX,
                2 <= h <= FIELD_MAX,
                FIELD_MAX == 32768,
                SCALE == 65536,
        ;
    }
    let wh: usize = w * h;
    let ms: i64 = SCALE / w as i64;
    proof {
        assert(0 <= 2 * ms * ms <= 2 * SCALE * SCALE) by (nonlinear_arith)
            requires
                2 <= ms <= SCALE,
        ;
    }
    let dg: i64 = isqrt(2 * ms * ms);
    proof {
        assert(1 <= dg <= 2 * SCALE) by (nonlinear_arith)
            requires
                is_isqrt(2 * ms * ms, dg as int),
                2 <= ms <= SCALE,
        ;
    }
    let mut dist: Vec<i64> = init_dist(walk, w, h);
    let mut pq: PriorityQueue = PriorityQueue::new();
    let mut idx: usize = 0;
    while idx < wh
        invariant
            idx <= wh,
            wh == w * h,
            w * h <= FIELD_MAX * FIELD_MAX,
            dims_ok(w as int, h as int),
            walk@.len() == w * h,
            dist_inv(dist@, walk@, w as int, h as int),
            forall|m: int| 0 <= m < pq@.len() ==> {
                &&& 0 <= (#[trigger] pq@[m]).0 <= KEY_CAP
                &&& pq@[m].1 < w * h
            },
            pq@ == dij_seeds(walk@, w as int, h as int, idx as int),
        decreases wh - idx,
    {
        proof {
            lemma_idx_bounds(idx as int, w as int, h as int);
        }
        if !walk[idx] {
            let i: usize = idx % w;
            let j: usize = idx / w;
            let mut any_open: bool = false;
            let mut n: usize = 0;
            while n < 8
                invariant
                    n <= 8,
                    wh == w * h,
                    w * h <= FIELD_MAX * FIELD_MAX,
                    dims_ok(w as int, h as int),
                    walk@.len() == w * h,
                    i < w,
                    j < h,
                    any_open == open_nb(walk@, w as int, h as int, i as int, j as int,
                        n as int),
                decreases 8 - n,
            {
                let (di, dj, _diag): (i64, i64, bool) = neighbor_offset(n);
                let ni: i64 = i as i64 + di;
                let nj: i64 = j as i64 + dj;
                if ni >= 0 && nj >= 0 && ni < w as i64 && nj < h as i64 {
                    proof {
                        assert((nj as usize) * w + (ni as usize) < w * h)
                            by (nonlinear_arith)
                            requires
                                0 <= ni < w,
                                0 <= nj < h,
                        ;
                    }
                    if walk[(nj as usize) * w + (ni as usize)] {
                        any_open = true;
                    }
                }
                n = n + 1;
            }
            if any_open {
                pq.push(0, idx);
            }
        }
        idx = idx + 1;
    }
    let ghost s0 = DijState { dist: dist@, queue: pq@ };
    let ghost tgt = dij_final(walk@, w as int, h as int);
    let cap: u64 = 64 * (wh as u64);
    proof {
        assert(s0.dist =~= Seq::new((w * h) as nat, |c: int| if !walk@[c] {
            0i64
        } else {
            D_UNSET
        }));
        assert(s0 == DijState {
            dist: Seq::new((w * h) as nat, |c: int| if !walk@[c] {
                0i64
            } else {
                D_UNSET
            }),
            queue: dij_seeds(walk@, w as int, h as int, w * h),
        });
        assert(cap == relax_budget(w as int, h as int));
        assert(dg as int == spec_isqrt(2 * (ms as int) * (ms as int)));
        assert(tgt == dij_run(s0, w as int, h as int, ms as int, dg as int, cap as nat));
    }
    let mut ops: u64 = 0;
    let mut exhausted: bool = false;
    while ops < cap && !exhausted
        invariant
            ops <= cap,
            wh == w * h,
            w * h <= FIELD_MAX * FIELD_MAX,
            dims_ok(w as int, h as int),
            walk@.len() == w * h,
            1 <= ms,
            1 <= dg <= 2 * SCALE,
            ms <= SCALE,
            dist_inv(dist@, walk@, w as int, h as int),
            forall|m: int| 0 <= m < pq@.len() ==> {
                &&& 0 <= (#[trigger] pq@[m]).0 <= KEY_CAP
                &&& pq@[m].1 < w * h
            },
            tgt == dij_final(walk@, w as int, h as int),
            !exhausted ==> dij_run(DijState { dist: dist@, queue: pq@ }, w as int, h as int,
                ms as int, dg as int, (cap - ops) as nat) == tgt,
            exhausted ==> (DijState { dist: dist@, queue: pq@ }) == tgt,
            exhausted ==> pq@.len() == 0,
        decreases cap - ops,
    {
        let ghost rem = (cap - ops) as nat;
        let ghost d_pre = dist@;
        ops = ops + 1;
        let ghost q0 = pq@;
        let popped: Option<(i64, usize)> = pq.pop();
        match popped {
            Option::None => {
                exhausted = true;
                proof {
                    assert(dij_run(DijState { dist: d_pre, queue: q0 }, w as int, h as int,
                        ms as int, dg as int, rem) == DijState { dist: d_pre, queue: q0 });
                }
            },
            Option::Some(kv) => {
                proof {
                    let f = crate::priority_queue::first_min_idx(q0);
                    crate::priority_queue::lemma_first_min_idx(q0);
                    q0.remove_ensures(f);
                    assert forall|m: int| 0 <= m < pq@.len() implies {
                        &&& 0 <= (#[trigger] pq@[m]).0 <= KEY_CAP
                        &&& pq@[m].1 < w * h
                    } by {
                        if m < f {
                            assert(pq@[m] == q0[m]);
                        } else {
                            assert(pq@[m] == q0[m + 1]);
                        }
                    }
                    assert(0 <= kv.0 <= KEY_CAP && kv.1 < w * h);
                }
                let d: i64 = kv.0;
                let cidx: usize = kv.1;
                let ghost s1 = DijState { dist: dist@, queue: pq@ };
                if d <= 8 * SCALE {
                    proof {
                        lemma_idx_bounds(cidx as int, w as int, h as int);
                    }
                    let i: usize = cidx % w;
                    let j: usize = cidx / w;
                    let mut n: usize = 0;
                    while n < 8
                        invariant
                            n <= 8,
                            wh == w * h,
                            w * h <= FIELD_MAX * FIELD_MAX,
                            dims_ok(w as int, h as int),
                            walk@.len() == w * h,
                            i < w,
                            j < h,
                            1 <= ms,
                            1 <= dg <= 2 * SCALE,
                            ms <= SCALE,
                            0 <= d <= 8 * SCALE,
                            dist_inv(dist@, walk@, w as int, h as int),
                            forall|m: int| 0 <= m < pq@.len() ==> {
                                &&& 0 <= (#[trigger] pq@[m]).0 <= KEY_CAP
                                &&& pq@[m].1 < w * h
                            },
                            (DijState { dist: dist@, queue: pq@ }) == dij_relax(s1, w as int,
                                h as int, ms as int, dg as int, i as int, j as int, d as int,
                                n as int),
                        decreases 8 - n,
                    {
                        let (di, dj, diag): (i64, i64, bool) = neighbor_offset(n);
                        let edge: i64 = if diag {
                            dg
                        } else {
                            ms
                        };
                        let ni: i64 = i as i64 + di;
                        let nj: i64 = j as i64 + dj;
                        if ni >= 0 && nj >= 0 && ni < w as i64 && nj < h as i64 {
                            proof {
                                assert((nj as usize) * w + (ni as usize) < w * h)
                                    by (nonlinear_arith)
                                    requires
                                        0 <= ni < w,
                                        0 <= nj < h,
                                ;
                            }
                            let nidx: usize = (nj as usize) * w + (ni as usize);
                            let nd: i64 = d + edge;
                            if nd < dist[nidx] {
                                let ghost dprev = dist@;
                                proof {
                                    assert(dist_cell_inv(dprev, walk@, nidx as int));
                                    assert(1 <= nd);
                                    assert(walk@[nidx as int]);
                                }
                                dist.set(nidx, nd);
                                pq.push(nd, nidx);
                                proof {
                                    assert forall|m: int| 0 <= m < w * h
                                        implies #[trigger] dist_cell_inv(dist@, walk@, m) by {
                                        if m != nidx {
                                            assert(dist_cell_inv(dprev, walk@, m));
                                            assert(dist@[m] == dprev[m]);
                                        }
                                    }
                                }
                            }
                        }
                        proof {
                            assert((DijState { dist: dist@, queue: pq@ }) == dij_relax(s1,
                                w as int, h as int, ms as int, dg as int, i as int, j as int,
                                d as int, n as int + 1));
                        }
                        n = n + 1;
                    }
                }
                proof {
                    let pre = DijState { dist: d_pre, queue: q0 };
                    assert((DijState { dist: dist@, queue: pq@ }) == dij_step(pre, w as int,
                        h as int, ms as int, dg as int));
                    assert(rem > 0);
                    assert(dij_run(pre, w as int, h as int, ms as int, dg as int, rem)
                        == dij_run(dij_step(pre, w as int, h as int, ms as int, dg as int),
                        w as int, h as int, ms as int, dg as int, (rem - 1) as nat));
                    assert((cap - ops) as nat == (rem - 1) as nat);
                }
            },
        }
    }
    proof {
        if !exhausted {
            assert((cap - ops) as nat == 0);
            assert(dij_run(DijState { dist: dist@, queue: pq@ }, w as int, h as int,
                ms as int, dg as int, 0) == DijState { dist: dist@, queue: pq@ });
        }
        assert((DijState { dist: dist@, queue: pq@ }) == tgt);
    }
    if pq.len() > 0 {
        return Err(BuildError::CapExceeded);
    }
    let mut idx2: usize = 0;
    while idx2 < wh
        invariant
            idx2 <= wh,
            wh == w * h,
            walk@.len() == w * h,
            dist@.len() == w * h,
            dist_inv(dist@, walk@, w as int, h as int),
            dist@ == dij_final(walk@, w as int, h as int).dist,
            dij_final(walk@, w as int, h as int).queue.len() == 0,
            forall|m: int| 0 <= m < idx2 ==> #[trigger] dist@[m] != D_UNSET,
        decreases wh - idx2,
    {
        if dist[idx2] == D_UNSET {
            return Err(BuildError::Unresolved);
        }
        idx2 = idx2 + 1;
    }
    proof {
        assert forall|m: int| 0 <= m < w * h implies 0 <= #[trigger] dist@[m] < D_UNSET
            && ((dist@[m] == 0) <==> !walk@[m]) by {
            assert(dist_cell_inv(dist@, walk@, m));
            assert(dist@[m] != D_UNSET);
        }
    }
    Ok(dist)
}


/// The self-seeded queue entry of a cell: the cell's own coordinates as
/// both position and origin.
pub open spec fn seed_entry(idx: int, w: int) -> (usize, usize, usize, usize) {
    ((idx % w) as usize, (idx / w) as usize, (idx % w) as usize, (idx / w) as usize)
}

/// Whether a cell's self-seed is still waiting in the queue.
pub open spec fn has_seed(q: Seq<(usize, usize, usize, usize)>, idx: int, w: int) -> bool {
    exists|m: int| 0 <= m < q.len() && #[trigger] q[m] == seed_entry(idx, w)
}

/// A flood-queue entry is a grid cell remembering a non-walkable origin.
pub open spec fn q_entry_ok(e: (usize, usize, usize, usize), walk: Seq<bool>, w: int,
    h: int) -> bool {
    e.0 < w && e.1 < h && e.2 < w && e.3 < h && !walk[e.3 * w + e.2]
}

/// Per-cell invariant of the flood relaxation: a non-walkable cell is
/// already at zero or its self-seed is still queued; a walkable cell never
/// holds zero.
pub open spec fn flood_cell_inv(d: Seq<i64>, q: Seq<(usize, usize, usize, usize)>,
    walk: Seq<bool>, w: int, idx: int) -> bool {
    &&& 0 <= d[idx] <= D_UNSET
    &&& (!walk[idx] ==> (d[idx] == 0 || has_seed(q, idx, w)))
    &&& (walk[idx] ==> (d[idx] == D_UNSET || 1 <= d[idx] < D_UNSET))
}

/// The flood-relaxation invariant.
pub open spec fn flood_inv(d: Seq<i64>, q: Seq<(usize, usize, usize, usize)>,
    walk: Seq<bool>, w: int, h: int) -> bool {
    &&& d.len() == w * h
    &&& walk.len() == w * h
    &&& forall|m: int| 0 <= m < q.len() ==> q_entry_ok(#[trigger] q[m], walk, w, h)
    &&& forall|idx: int| 0 <= idx < w * h ==> #[trigger] flood_cell_inv(d, q, walk, w, idx)
}

/// A queued self-seed survives any queue growth at the back.
proof fn lemma_seed_extend(q1: Seq<(usize, usize, usize, usize)>,
    q2: Seq<(usize, usize, usize, usize)>, idx: int, w: int)
    requires
        has_seed(q1, idx, w),
        q1.is_prefix_of(q2),
    ensures
        has_seed(q2, idx, w),
{
    let m = choose|m: int| 0 <= m < q1.len() && q1[m] == seed_entry(idx, w);
    assert(q2[m] == seed_entry(idx, w));
}

/// Spec-level state of the flood relaxation: the distance array and the
/// FIFO queue of (cell x, cell y, origin x, origin y) entries.
pub struct FloodState {
    pub dist: Seq<i64>,
    pub queue: Seq<(usize, usize, usize, usize)>,
}

/// One conditional offer within a step: the popped cell's exact origin
/// distance, plus one conservative cell step along the crossed axis and one
/// quantum, offered to the neighbour at `nidx`.
pub open spec fn flood_offer(s: FloodState, d: int, inc: int, ni: usize, nj: usize, nidx: int,
    oi: usize, oj: usize) -> FloodState {
    if d < s.dist[nidx] {
        FloodState {
            dist: s.dist.update(nidx, (d + inc + 1) as i64),
            queue: s.queue.push((ni, nj, oi, oj)),
        }
    } else {
        s
    }
}

/// One full step of the flood relaxation: pop the front entry, recompute
/// the exact centre distance to its remembered origin and, on improvement,
/// store it and offer it to the orthogonal neighbours in scan order.
pub open spec fn flood_step(s: FloodState, w: int, h: int, msx: int, msy: int) -> FloodState {
    let e = s.queue[0];
    let q = s.queue.subrange(1, s.queue.len() as int);
    let idx = e.1 * w + e.0;
    let d = spec_cell_dist(e.0 as int, e.1 as int, e.2 as int, e.3 as int, w, h);
    let s1 = FloodState { dist: s.dist, queue: q };
    if d < s.dist[idx] {
        let s2 = FloodState { dist: s1.dist.update(idx, d as i64), queue: s1.queue };
        let s3 = if e.0 > 0 {
            flood_offer(s2, d, msx, (e.0 - 1) as usize, e.1, idx - 1, e.2, e.3)
        } else {
            s2
        };
        let s4 = if e.1 > 0 {
            flood_offer(s3, d, msy, e.0, (e.1 - 1) as usize, idx - w, e.2, e.3)
        } else {
            s3
        };
        let s5 = if e.0 + 1 < w {
            flood_offer(s4, d, msx, (e.0 + 1) as usize, e.1, idx + 1, e.2, e.3)
        } else {
            s4
        };
        if e.1 + 1 < h {
            flood_offer(s5, d, msy, e.0, (e.1 + 1) as usize, idx + w, e.2, e.3)
        } else {
            s5
        }
    } else {
        s1
    }
}

/// The flood relaxation run to completion: steps until the queue drains or
/// the operation budget is spent.
pub open spec fn flood_run(s: FloodState, w: int, h: int, msx: int, msy: int, fuel: nat)
    -> FloodState
    decreases fuel,
{
    if fuel == 0 || s.queue.len() == 0 {
        s
    } else {
        flood_run(flood_step(s, w, h, msx, msy), w, h, msx, msy, (fuel - 1) as nat)
    }
}

/// The initial queue: the self-seed of every non-walkable cell, in index
/// order.
pub open spec fn flood_seeds(walk: Seq<bool>, w: int, n: int) -> Seq<(usize, usize, usize,
    usize)>
    decreases n,
{
    if n <= 0 {
        Seq::empty()
    } else {
        let p = flood_seeds(walk, w, n - 1);
        if !walk[n - 1] {
            p.push(seed_entry(n - 1, w))
        } else {
            p
        }
    }
}

/// The operation budget of the two propagation builders.
pub open spec fn relax_budget(w: int, h: int) -> int {
    64 * (w * h)
}

/// The state the flood builder ends in: the full run from an all-unset
/// field seeded with every non-walkable cell.
pub open spec fn flood_final(walk: Seq<bool>, w: int, h: int) -> FloodState {
    flood_run(
        FloodState {
            dist: Seq::new((w * h) as nat, |c: int| D_UNSET),
            queue: flood_seeds(walk, w, w * h),
        },
        w,
        h,
        (SCALE as int) / w,
        (SCALE as int) / h,
        relax_budget(w, h) as nat,
    )
}

/// One relaxation offer of the flood builder: the popped cell's improved
/// distance, plus one conservative step (and one quantum, so that an exact
/// integer distance still strictly improves it later), offered to a
/// neighbour.
fn flood_relax(
    dist: &mut Vec<i64>,
    queue: &mut VecDeque<(usize, usize, usize, usize)>,
    w: usize,
    h: usize,
    inc: i64,
    d: i64,
    ni: usize,
    nj: usize,
    nidx: usize,
    oi: usize,
    oj: usize,
    walk: Ghost<Seq<bool>>,
)
    requires
        flood_inv(old(dist)@, old(queue)@, walk@, w as int, h as int),
        dims_ok(w as int, h as int),
        nidx == nj * w + ni,
        ni < w,
        nj < h,
        0 <= d < 2 * SCALE,
        1 <= inc <= SCALE,
        oi < w,
        oj < h,
        !walk@[(oj * w + oi) as int],
    ensures
        flood_inv(final(dist)@, final(queue)@, walk@, w as int, h as int),
        old(queue)@.is_prefix_of(final(queue)@),
        ({
            let s2 = flood_offer(FloodState { dist: old(dist)@, queue: old(queue)@ },
                d as int, inc as int, ni, nj, nidx as int, oi, oj);
            final(dist)@ == s2.dist && final(queue)@ == s2.queue
        }),
{
    proof {
        assert(nidx < w * h) by (nonlinear_arith)
            requires
                nidx == nj * w + ni,
                ni < w,
                nj < h,
        ;
        assert(((oj * w + oi) as int) < w * h) by (nonlinear_arith)
            requires
                oi < w,
                oj < h,
        ;
    }
    if d < dist[nidx] {
        let ghost d0 = dist@;
        let ghost q0 = queue@;
        proof {
            assert(flood_cell_inv(d0, q0, walk@, w as int, nidx as int));
        }
        dist.set(nidx, d + inc + 1);
        queue.push_back((ni, nj, oi, oj));
        proof {
            assert(queue@ =~= q0.push((ni, nj, oi, oj)));
            assert(q0.is_prefix_of(queue@));
            assert forall|m: int| 0 <= m < queue@.len() implies q_entry_ok(
                #[trigger] queue@[m], walk@, w as int, h as int) by {
                if m < q0.len() {
                    assert(queue@[m] == q0[m]);
                }
            }
            assert forall|idx: int| 0 <= idx < w * h implies #[trigger] flood_cell_inv(dist@,
                queue@, walk@, w as int, idx) by {
                assert(flood_cell_inv(d0, q0, walk@, w as int, idx));
                if idx != nidx {
                    assert(dist@[idx] == d0[idx]);
                }
                if !walk@[idx] && d0[idx] != 0 {
                    lemma_seed_extend(q0, queue@, idx, w as int);
                }
            }
        }
    }
}

/// Flood relaxation: every non-walkable cell floods the grid with its own
/// coordinates; a visited cell recomputes the true centre distance to the
/// remembered origin and, on improvement, offers a conservatively
/// incremented bound — one cell step along the crossed axis, plus one
/// quantum — to its orthogonal neighbours, so that no resolved value ever
/// undercuts the exact centre distance to its origin. Most accurate of the
/// three, with the least predictable cost, so the operation budget is a
/// hard cap that fails the build rather than trusting convergence. The
/// contract pins the whole outcome to the spec-level run `flood_final`,
/// with the same three-way success and error characterization as the other
/// builders, and guarantees that no resolved value underestimates the
/// distance to the nearest obstruction.
pub fn gen_distance_field_shitty(walk: &Vec<bool>, w: usize, h: usize) -> (r: Result<
    Vec<i64>,
    BuildError,
>)
    requires
        walk@.len() == w * h,
        dims_ok(w as int, h as int),
    ensures
        ({
            let fs = flood_final(walk@, w as int, h as int);
            &&& ((r is Ok) <==> (fs.queue.len() == 0 && (forall|c: int| 0 <= c < w * h
                ==> #[trigger] fs.dist[c] != D_UNSET)))
            &&& ((r == Err::<Vec<i64>, BuildError>(BuildError::CapExceeded)) <==> fs.queue.len()
                > 0)
            &&& ((r == Err::<Vec<i64>, BuildError>(BuildError::Unresolved)) <==> (fs.queue.len()
                == 0 && (exists|c: int| 0 <= c < w * h && #[trigger] fs.dist[c] == D_UNSET)))
            &&& (r matches Ok(d) ==> {
                &&& d@ == fs.dist
                &&& d@.len() == w * h
                &&& forall|idx: int| 0 <= idx < w * h ==> 0 <= #[trigger] d@[idx] < D_UNSET
                &&& forall|idx: int| 0 <= idx < w * h ==> ((d@[idx] == 0) <==> !walk@[idx])
                &&& forall|c: int| 0 <= c < w * h ==> #[trigger] flood_lb_cell(d@, walk@,
                    w as int, h as int, c)
            })
        }),
{
    proof {
        assert(w * h <= FIELD_MAX * FIELD_MAX && SCALE as int / w as int >= 2
            && SCALE as int / w as int <= SCALE && SCALE as int / h as int >= 2
            && SCALE as int / h as int <= SCALE) by (nonlinear_arith)
            requires
                2 <= w <= FIELD_MAX,
                2 <= h <= FIELD_MAX,
                FIELD_MAX == 32768,
                SCALE == 65536,
        ;
    }
    let wh: usize = w * h;
    let msx: i64 = SCALE / w as i64;
    let msy: i64 = SCALE / h as i64;
    let mut dist: Vec<i64> = Vec::new();
    let mut idx0: usize = 0;
    while idx0 < wh
        invariant
            idx0 <= wh,
            dist@.len() == idx0,
            forall|m: int| 0 <= m < idx0 ==> #[trigger] dist@[m] == D_UNSET,
        decreases wh - idx0,
    {
        dist.push(D_UNSET);
        idx0 = idx0 + 1;
    }
    let mut queue: VecDeque<(usize, usize, usize, usize)> = VecDeque::new();
    let mut idx1: usize = 0;
    while idx1 < wh
        invariant
            idx1 <= wh,
            wh == w * h,
            w * h <= FIELD_MAX * FIELD_MAX,
            dims_ok(w as int, h as int),
            walk@.len() == w * h,
            dist@.len() == w * h,
            forall|m: int| 0 <= m < w * h ==> #[trigger] dist@[m] == D_UNSET,
            forall|m: int| 0 <= m < queue@.len() ==> q_entry_ok(#[trigger] queue@[m], walk@,
                w as int, h as int),
            forall|c: int| 0 <= c < idx1 && !walk@[c] ==> has_seed(queue@, c, w as int),
            queue@ == flood_seeds(walk@, w as int, idx1 as int),
        decreases wh - idx1,
    {
        proof {
            lemma_idx_bounds(idx1 as int, w as int, h as int);
        }
        if !walk[idx1] {
            let i: usize = idx1 % w;
            let j: usize = idx1 / w;
            let ghost q0 = queue@;
            queue.push_back((i, j, i, j));
            proof {
                assert(queue@[q0.len() as int] == seed_entry(idx1 as int, w as int));
                assert forall|c: int| 0 <= c < idx1 + 1 && !walk@[c] implies has_seed(queue@,
                    c, w as int) by {
                    if c < idx1 {
                        lemma_seed_extend(q0, queue@, c, w as int);
                    }
                }
                assert forall|m: int| 0 <= m < queue@.len() implies q_entry_ok(
                    #[trigger] queue@[m], walk@, w as int, h as int) by {
                    if m < q0.len() {
                        assert(queue@[m] == q0[m]);
                    }
                }
            }
        }
        idx1 = idx1 + 1;
    }
    proof {
        assert forall|c: int| 0 <= c < w * h implies #[trigger] flood_cell_inv(dist@, queue@,
            walk@, w as int, c) by {
        }
    }
    let ghost s0 = FloodState { dist: dist@, queue: queue@ };
    let ghost tgt = flood_final(walk@, w as int, h as int);
    let cap: u64 = 64 * (wh as u64);
    proof {
        assert(s0.dist =~= Seq::new((w * h) as nat, |c: int| D_UNSET));
        assert(s0 == FloodState {
            dist: Seq::new((w * h) as nat, |c: int| D_UNSET),
            queue: flood_seeds(walk@, w as int, w * h),
        });
        assert(cap == relax_budget(w as int, h as int));
        assert(tgt == flood_run(s0, w as int, h as int, msx as int, msy as int, cap as nat));
        assert forall|c: int| 0 <= c < w * h implies #[trigger] flood_lb_cell(s0.dist, walk@,
            w as int, h as int, c) by {
        }
        assert(flood_lb(s0, walk@, w as int, h as int));
        lemma_flood_run_lb(s0, walk@, w as int, h as int, msx as int, msy as int,
            cap as nat);
    }
    let mut ops: u64 = 0;
    let mut exhausted: bool = false;
    while ops < cap && !exhausted
        invariant
            ops <= cap,
            wh == w * h,
            w * h <= FIELD_MAX * FIELD_MAX,
            dims_ok(w as int, h as int),
            walk@.len() == w * h,
            1 <= msx <= SCALE,
            1 <= msy <= SCALE,
            flood_inv(dist@, queue@, walk@, w as int, h as int),
            tgt == flood_final(walk@, w as int, h as int),
            !exhausted ==> flood_run(FloodState { dist: dist@, queue: queue@ }, w as int,
                h as int, msx as int, msy as int, (cap - ops) as nat) == tgt,
            exhausted ==> (FloodState { dist: dist@, queue: queue@ }) == tgt,
            exhausted ==> queue@.len() == 0,
        decreases cap - ops,
    {
        let ghost rem = (cap - ops) as nat;
        let ghost d_pre = dist@;
        ops = ops + 1;
        let ghost q0 = queue@;
        let popped: Option<(usize, usize, usize, usize)> = queue.pop_front();
        match popped {
            Option::None => {
                exhausted = true;
                proof {
                    assert(flood_run(FloodState { dist: d_pre, queue: q0 }, w as int,
                        h as int, msx as int, msy as int, rem) == FloodState { dist: d_pre,
                        queue: q0 });
                }
            },
            Option::Some(e) => {
                let (i, j, oi, oj): (usize, usize, usize, usize) = e;
                proof {
                    assert(q_entry_ok(q0[0], walk@, w as int, h as int));
                    assert forall|m: int| 0 <= m < queue@.len() implies q_entry_ok(
                        #[trigger] queue@[m], walk@, w as int, h as int) by {
                        assert(queue@[m] == q0[m + 1]);
                    }
                    assert(i * 1 < w && j * 1 < h) by (nonlinear_arith)
                        requires
                            q_entry_ok((i, j, oi, oj), walk@, w as int, h as int),
                            (i, j, oi, oj) == q0[0],
                            q_entry_ok(q0[0], walk@, w as int, h as int),
                    ;
                    assert(j * w + i < w * h) by (nonlinear_arith)
                        requires
                            i < w,
                            j < h,
                    ;
                }
                let idx: usize = j * w + i;
                let d: i64 = cell_dist(i, j, oi, oj, w, h);
                proof {
                    lemma_rowcol(idx as int, i as int, j as int, w as int);
                    // a popped self-seed either already sits at zero or is
                    // about to be written to zero; other cells keep their
                    // queued seeds, which sat behind the popped entry
                    assert forall|c: int| 0 <= c < w * h implies #[trigger] flood_cell_inv(
                        dist@, queue@, walk@, w as int, c) || (c == idx && !walk@[c]
                        && (i, j) == (oi, oj)) by {
                        assert(flood_cell_inv(dist@, q0, walk@, w as int, c));
                        if !walk@[c] && dist@[c] != 0 {
                            let m = choose|m: int| 0 <= m < q0.len() && q0[m] == seed_entry(c,
                                w as int);
                            if m >= 1 {
                                assert(queue@[m - 1] == q0[m]);
                            } else {
                                assert(q0[0] == seed_entry(c, w as int));
                                assert(c % (w as int) == i && c / (w as int) == j
                                    && (i, j) == (oi, oj));
                                lemma_idx_bounds(c, w as int, h as int);
                                assert(c == (c / (w as int)) * (w as int) + c % (w as int));
                                assert(c == idx);
                            }
                        }
                    }
                }
                if d < dist[idx] {
                    let ghost d0 = dist@;
                    let ghost qn = queue@;
                    dist.set(idx, d);
                    proof {
                        assert forall|c: int| 0 <= c < w * h implies #[trigger] flood_cell_inv(
                            dist@, queue@, walk@, w as int, c) by {
                            assert(flood_cell_inv(d0, q0, walk@, w as int, c));
                            if c != idx {
                                assert(dist@[c] == d0[c]);
                                assert(flood_cell_inv(d0, qn, walk@, w as int, c) || (c
                                    == idx && !walk@[c] && (i, j) == (oi, oj)));
                            } else {
                                assert(0 <= d0[idx as int] <= D_UNSET);
                                if walk@[c] {
                                    assert(idx != oj * w + oi);
                                    assert(!(i == oi && j == oj)) by (nonlinear_arith)
                                        requires
                                            idx != oj * w + oi,
                                            idx == j * w + i,
                                    ;
                                    assert(d >= 1);
                                } else {
                                    if i == oi && j == oj {
                                        assert(d == 0);
                                        assert(dist@[c] == 0);
                                    } else {
                                        assert(d >= 1);
                                        assert(flood_cell_inv(d0, qn, walk@, w as int, c)
                                            || ((i, j) == (oi, oj)));
                                        assert(d0[c] > d);
                                        assert(has_seed(qn, c, w as int));
                                    }
                                }
                            }
                        }
                    }
                    if i > 0 {
                        flood_relax(&mut dist, &mut queue, w, h, msx, d, i - 1, j, idx - 1,
                            oi, oj, Ghost(walk@));
                    }
                    if j > 0 {
                        proof {
                            assert(idx - w == (j - 1) * w + i) by (nonlinear_arith)
                                requires
                                    idx == j * w + i,
                                    j >= 1,
                            ;
                        }
                        flood_relax(&mut dist, &mut queue, w, h, msy, d, i, j - 1, idx - w,
                            oi, oj, Ghost(walk@));
                    }
                    if i < w - 1 {
                        flood_relax(&mut dist, &mut queue, w, h, msx, d, i + 1, j, idx + 1,
                            oi, oj, Ghost(walk@));
                    }
                    if j < h - 1 {
                        proof {
                            assert(idx + w == (j + 1) * w + i && idx + w < w * h)
                                by (nonlinear_arith)
                                requires
                                    idx == j * w + i,
                                    i < w,
                                    j < h - 1,
                            ;
                        }
                        flood_relax(&mut dist, &mut queue, w, h, msy, d, i, j + 1, idx + w,
                            oi, oj, Ghost(walk@));
                    }
                } else {
                    proof {
                        assert forall|c: int| 0 <= c < w * h implies #[trigger] flood_cell_inv(
                            dist@, queue@, walk@, w as int, c) by {
                            assert(flood_cell_inv(dist@, q0, walk@, w as int, c));
                            if c == idx && !walk@[c] && (i, j) == (oi, oj) {
                                assert(d == 0);
                                assert(0 <= dist@[c]);
                                assert(dist@[c] == 0);
                            }
                        }
                    }
                }
                proof {
                    let pre = FloodState { dist: d_pre, queue: q0 };
                    assert(FloodState { dist: dist@, queue: queue@ } == flood_step(pre,
                        w as int, h as int, msx as int, msy as int));
                    assert(rem > 0);
                    assert(flood_run(pre, w as int, h as int, msx as int, msy as int, rem)
                        == flood_run(flood_step(pre, w as int, h as int, msx as int,
                        msy as int), w as int, h as int, msx as int, msy as int, (rem
                        - 1) as nat));
                    assert((cap - ops) as nat == (rem - 1) as nat);
                }
            },
        }
    }
    proof {
        if !exhausted {
            assert((cap - ops) as nat == 0);
            assert(flood_run(FloodState { dist: dist@, queue: queue@ }, w as int, h as int,
                msx as int, msy as int, 0) == FloodState { dist: dist@, queue: queue@ });
        }
        assert(FloodState { dist: dist@, queue: queue@ } == tgt);
    }
    if queue.len() > 0 {
        return Err(BuildError::CapExceeded);
    }
    let mut idx2: usize = 0;
    while idx2 < wh
        invariant
            idx2 <= wh,
            wh == w * h,
            walk@.len() == w * h,
            dist@.len() == w * h,
            flood_inv(dist@, queue@, walk@, w as int, h as int),
            queue@.len() == 0,
            dist@ == flood_final(walk@, w as int, h as int).dist,
            flood_final(walk@, w as int, h as int).queue.len() == 0,
            forall|m: int| 0 <= m < idx2 ==> #[trigger] dist@[m] != D_UNSET,
        decreases wh - idx2,
    {
        if dist[idx2] == D_UNSET {
            return Err(BuildError::Unresolved);
        }
        idx2 = idx2 + 1;
    }
    proof {
        assert forall|m: int| 0 <= m < w * h implies 0 <= #[trigger] dist@[m] < D_UNSET
            && ((dist@[m] == 0) <==> !walk@[m]) by {
            assert(flood_cell_inv(dist@, queue@, walk@, w as int, m));
            assert(dist@[m] != D_UNSET);
            if !walk@[m] && dist@[m] != 0 {
                assert(has_seed(queue@, m, w as int));
                assert(false);
            }
        }
    }
    Ok(dist)
}


/// The boundary seeding rule is shared by all builders, so any two
/// successful builds over the same walkability grid mark exactly the same
/// cells with distance zero: the non-walkable ones (interior values may
/// differ between variants by design).
pub proof fn lemma_builders_share_zero_set(walk: Seq<bool>, w: int, h: int, da: Seq<i64>,
    db: Seq<i64>)
    requires
        forall|idx: int| 0 <= idx < w * h ==> ((#[trigger] da[idx] == 0) <==> !walk[idx]),
        forall|idx: int| 0 <= idx < w * h ==> ((#[trigger] db[idx] == 0) <==> !walk[idx]),
    ensures
        forall|idx: int| 0 <= idx < w * h ==> ((#[trigger] da[idx] == 0) <==> (db[idx] == 0)),
{
}


/// Direction components are bounded by one unit: the offset to the
/// remembered obstruction can never exceed the distance it is divided by.
pub proof fn lemma_dir_bounds(s: SepState, walk: Seq<bool>, w: int, h: int, idx: int)
    requires
        sep_inv(s, walk, w, h),
        dims_ok(w, h),
        0 <= idx < w * h,
        s.ni[idx] != -1,
    ensures
        -SCALE <= spec_dir(s, w, h, idx).x <= SCALE,
        -SCALE <= spec_dir(s, w, h, idx).y <= SCALE,
{
    lemma_idx_bounds(idx, w, h);
    assert(sep_cell_inv(s, walk, w, h, idx));
    let ni = s.ni[idx] as int;
    let nj = s.nj[idx] as int;
    lemma_center_in_range(idx % w, w);
    lemma_center_in_range(idx / w, h);
    lemma_center_in_range(ni, w);
    lemma_center_in_range(nj, h);
    let dx = spec_center(idx % w, w) - spec_center(ni, w);
    let dy = spec_center(idx / w, h) - spec_center(nj, h);
    let sq = dx * dx + dy * dy;
    assert(0 <= sq <= 2 * SCALE * SCALE) by (nonlinear_arith)
        requires
            -SCALE < dx < SCALE,
            -SCALE < dy < SCALE,
            sq == dx * dx + dy * dy,
    ;
    lemma_isqrt_exists(sq);
    let len = spec_isqrt(sq);
    if len != 0 {
        assert(-len <= dx <= len && -len <= dy <= len) by (nonlinear_arith)
            requires
                is_isqrt(sq, len),
                sq == dx * dx + dy * dy,
                len >= 1,
        ;
        assert(-SCALE <= dx * SCALE / len <= SCALE && -SCALE <= dy * SCALE / len <= SCALE)
            by (nonlinear_arith)
            requires
                -len <= dx <= len,
                -len <= dy <= len,
                len >= 1,
                SCALE >= 1,
        ;
    }
}


/// Adjacent cell centres are at most one nominal cell step (plus one
/// quantum of truncation) apart.
pub proof fn lemma_center_step(i: int, n: int)
    requires
        0 <= i,
        i + 1 < n,
        n <= FIELD_MAX,
    ensures
        0 <= spec_center(i + 1, n) - spec_center(i, n) <= (SCALE as int) / n + 1,
{
    let m = 2 * n;
    let a = (2 * i + 1) * SCALE;
    let b = (2 * (i + 1) + 1) * SCALE;
    vstd::arithmetic::div_mod::lemma_fundamental_div_mod(a, m);
    vstd::arithmetic::div_mod::lemma_fundamental_div_mod(b, m);
    vstd::arithmetic::div_mod::lemma_mod_division_less_than_divisor(a, m);
    vstd::arithmetic::div_mod::lemma_mod_division_less_than_divisor(b, m);
    vstd::arithmetic::div_mod::lemma_fundamental_div_mod(SCALE as int, n);
    vstd::arithmetic::div_mod::lemma_mod_division_less_than_divisor(SCALE as int, n);
    let q = (SCALE as int) / n;
    assert(b == a + 2 * SCALE) by (nonlinear_arith)
        requires
            a == (2 * i + 1) * SCALE,
            b == (2 * (i + 1) + 1) * SCALE,
    ;
    assert(0 <= b / m - a / m <= q + 1) by (nonlinear_arith)
        requires
            a == m * (a / m) + a % m,
            0 <= a % m < m,
            b == m * (b / m) + b % m,
            0 <= b % m < m,
            b == a + 2 * SCALE,
            SCALE == n * q + (SCALE as int) % n,
            0 <= (SCALE as int) % n < n,
            m == 2 * n,
            1 <= n,
            0 <= a,
    ;
}

/// Moving one endpoint by at most s along one axis stretches the integer
/// distance by at most s.
pub proof fn lemma_isqrt_axis_step(dx: int, dy: int, dx2: int, s: int)
    requires
        0 <= s,
        dx - s <= dx2 <= dx + s,
    ensures
        spec_isqrt(dx2 * dx2 + dy * dy) <= spec_isqrt(dx * dx + dy * dy) + s,
{
    assert(dx * dx + dy * dy >= 0 && dx2 * dx2 + dy * dy >= 0) by (nonlinear_arith);
    lemma_isqrt_exists(dx * dx + dy * dy);
    lemma_isqrt_exists(dx2 * dx2 + dy * dy);
    let a = spec_isqrt(dx * dx + dy * dy);
    let b = spec_isqrt(dx2 * dx2 + dy * dy);
    assert(-a <= dx <= a) by (nonlinear_arith)
        requires
            is_isqrt(dx * dx + dy * dy, a),
            0 <= a,
    ;
    assert(dx2 * dx2 - dx * dx <= s * (2 * a + s)) by (nonlinear_arith)
        requires
            -a <= dx <= a,
            0 <= s,
            dx - s <= dx2 <= dx + s,
    ;
    assert(dx2 * dx2 + dy * dy < (a + s + 1) * (a + s + 1)) by (nonlinear_arith)
        requires
            is_isqrt(dx * dx + dy * dy, a),
            dx2 * dx2 - dx * dx <= s * (2 * a + s),
            0 <= a,
            0 <= s,
    ;
    assert(b <= a + s) by (nonlinear_arith)
        requires
            is_isqrt(dx2 * dx2 + dy * dy, b),
            dx2 * dx2 + dy * dy < (a + s + 1) * (a + s + 1),
            0 <= a,
            0 <= s,
            0 <= b,
    ;
}

/// One cell of the flood builder never underestimates: a resolved value is
/// at least the exact centre distance to some non-walkable cell (and so at
/// least the distance to the nearest one).
pub open spec fn flood_lb_cell(dist: Seq<i64>, walk: Seq<bool>, w: int, h: int,
    c: int) -> bool {
    dist[c] == D_UNSET || (exists|o: int| 0 <= o < w * h && !walk[o]
        && #[trigger] spec_cell_dist(c % w, c / w, o % w, o / w, w, h) <= dist[c])
}

/// The whole flood state never underestimates, and every queued entry
/// remembers a non-walkable origin.
pub open spec fn flood_lb(s: FloodState, walk: Seq<bool>, w: int, h: int) -> bool {
    &&& s.dist.len() == w * h
    &&& forall|c: int| 0 <= c < w * h ==> #[trigger] flood_lb_cell(s.dist, walk, w, h, c)
    &&& forall|m: int| 0 <= m < s.queue.len() ==> q_entry_ok(#[trigger] s.queue[m], walk, w,
        h)
}

/// One offer keeps the no-underestimate property, provided the offered
/// bound covers the exact distance to the offered origin.
proof fn lemma_flood_offer_lb(s: FloodState, walk: Seq<bool>, w: int, h: int, d: int,
    inc: int, ni: usize, nj: usize, nidx: int, oi: usize, oj: usize)
    requires
        dims_ok(w, h),
        walk.len() == w * h,
        flood_lb(s, walk, w, h),
        nidx == nj * w + ni,
        ni < w,
        nj < h,
        oi < w,
        oj < h,
        !walk[oj * w + oi],
        0 <= d < 2 * SCALE,
        1 <= inc <= SCALE,
        spec_cell_dist(ni as int, nj as int, oi as int, oj as int, w, h) <= d + inc + 1,
    ensures
        flood_lb(flood_offer(s, d, inc, ni, nj, nidx, oi, oj), walk, w, h),
{
    let s2 = flood_offer(s, d, inc, ni, nj, nidx, oi, oj);
    if d < s.dist[nidx] {
        lemma_rowcol(nidx, ni as int, nj as int, w);
        let o = (oj as int) * w + oi;
        assert(0 <= o < w * h) by (nonlinear_arith)
            requires
                o == (oj as int) * w + oi,
                oi < w,
                oj < h,
        ;
        lemma_rowcol(o, oi as int, oj as int, w);
        assert(nidx < w * h) by (nonlinear_arith)
            requires
                nidx == nj * w + ni,
                ni < w,
                nj < h,
        ;
        assert forall|c: int| 0 <= c < w * h implies #[trigger] flood_lb_cell(s2.dist, walk,
            w, h, c) by {
            assert(flood_lb_cell(s.dist, walk, w, h, c));
            if c == nidx {
                assert(s2.dist[c] == d + inc + 1);
                assert(spec_cell_dist(c % w, c / w, o % w, o / w, w, h) <= s2.dist[c]);
            } else {
                assert(s2.dist[c] == s.dist[c]);
            }
        }
        assert forall|m: int| 0 <= m < s2.queue.len() implies q_entry_ok(
            #[trigger] s2.queue[m], walk, w, h) by {
            if m < s.queue.len() {
                assert(s2.queue[m] == s.queue[m]);
            }
        }
    }
}

/// One step keeps the no-underestimate property: the popped cell gets its
/// exact origin distance, and each neighbour offer covers the origin
/// distance by one conservative axis step.
proof fn lemma_flood_step_lb(s: FloodState, walk: Seq<bool>, w: int, h: int, msx: int,
    msy: int)
    requires
        dims_ok(w, h),
        walk.len() == w * h,
        msx == (SCALE as int) / w,
        msy == (SCALE as int) / h,
        s.queue.len() > 0,
        flood_lb(s, walk, w, h),
    ensures
        flood_lb(flood_step(s, w, h, msx, msy), walk, w, h),
{
    let e = s.queue[0];
    assert(q_entry_ok(e, walk, w, h));
    let q = s.queue.subrange(1, s.queue.len() as int);
    assert forall|m: int| 0 <= m < q.len() implies q_entry_ok(#[trigger] q[m], walk, w,
        h) by {
        assert(q[m] == s.queue[m + 1]);
    }
    let i = e.0 as int;
    let j = e.1 as int;
    let idx = j * w + i;
    let o = (e.3 as int) * w + e.2;
    assert(0 <= idx < w * h && 0 <= o < w * h) by (nonlinear_arith)
        requires
            idx == j * w + i,
            o == (e.3 as int) * w + e.2,
            0 <= i < w,
            0 <= j < h,
            e.2 < w,
            e.3 < h,
    ;
    lemma_rowcol(idx, i, j, w);
    lemma_rowcol(o, e.2 as int, e.3 as int, w);
    let d = spec_cell_dist(i, j, e.2 as int, e.3 as int, w, h);
    lemma_cell_dist_bounds(i, j, e.2 as int, e.3 as int, w, h);
    assert(2 <= msx <= SCALE && 2 <= msy <= SCALE) by (nonlinear_arith)
        requires
            msx == (SCALE as int) / w,
            msy == (SCALE as int) / h,
            2 <= w <= FIELD_MAX,
            2 <= h <= FIELD_MAX,
            FIELD_MAX == 32768,
            SCALE == 65536,
    ;
    let s1 = FloodState { dist: s.dist, queue: q };
    assert(flood_lb(s1, walk, w, h));
    if d < s.dist[idx] {
        let s2 = FloodState { dist: s1.dist.update(idx, d as i64), queue: s1.queue };
        assert forall|c: int| 0 <= c < w * h implies #[trigger] flood_lb_cell(s2.dist, walk,
            w, h, c) by {
            assert(flood_lb_cell(s1.dist, walk, w, h, c));
            if c == idx {
                assert(spec_cell_dist(c % w, c / w, o % w, o / w, w, h) <= s2.dist[c]);
            } else {
                assert(s2.dist[c] == s1.dist[c]);
            }
        }
        assert(flood_lb(s2, walk, w, h));
        let dxx = spec_center(i, w) - spec_center(e.2 as int, w);
        let dyy = spec_center(j, h) - spec_center(e.3 as int, h);
        let s3 = if e.0 > 0 {
            lemma_center_step(i - 1, w);
            lemma_isqrt_axis_step(dxx, dyy, spec_center(i - 1, w) - spec_center(e.2 as int,
                w), msx + 1);
            lemma_flood_offer_lb(s2, walk, w, h, d, msx, (e.0 - 1) as usize, e.1, idx - 1,
                e.2, e.3);
            flood_offer(s2, d, msx, (e.0 - 1) as usize, e.1, idx - 1, e.2, e.3)
        } else {
            s2
        };
        let s4 = if e.1 > 0 {
            lemma_center_step(j - 1, h);
            lemma_isqrt_axis_step(dyy, dxx, spec_center(j - 1, h) - spec_center(e.3 as int,
                h), msy + 1);
            assert(idx - w == (j - 1) * w + i) by (nonlinear_arith)
                requires
                    idx == j * w + i,
            ;
            lemma_flood_offer_lb(s3, walk, w, h, d, msy, e.0, (e.1 - 1) as usize, idx - w,
                e.2, e.3);
            flood_offer(s3, d, msy, e.0, (e.1 - 1) as usize, idx - w, e.2, e.3)
        } else {
            s3
        };
        let s5 = if e.0 + 1 < w {
            lemma_center_step(i, w);
            lemma_isqrt_axis_step(dxx, dyy, spec_center(i + 1, w) - spec_center(e.2 as int,
                w), msx + 1);
            lemma_flood_offer_lb(s4, walk, w, h, d, msx, (e.0 + 1) as usize, e.1, idx + 1,
                e.2, e.3);
            flood_offer(s4, d, msx, (e.0 + 1) as usize, e.1, idx + 1, e.2, e.3)
        } else {
            s4
        };
        if e.1 + 1 < h {
            lemma_center_step(j, h);
            lemma_isqrt_axis_step(dyy, dxx, spec_center(j + 1, h) - spec_center(e.3 as int,
                h), msy + 1);
            assert(idx + w == (j + 1) * w + i) by (nonlinear_arith)
                requires
                    idx == j * w + i,
            ;
            lemma_flood_offer_lb(s5, walk, w, h, d, msy, e.0, (e.1 + 1) as usize, idx + w,
                e.2, e.3);
        }
    }
}

/// The whole flood run never underestimates.
pub proof fn lemma_flood_run_lb(s: FloodState, walk: Seq<bool>, w: int, h: int, msx: int,
    msy: int, fuel: nat)
    requires
        dims_ok(w, h),
        walk.len() == w * h,
        msx == (SCALE as int) / w,
        msy == (SCALE as int) / h,
        flood_lb(s, walk, w, h),
    ensures
        flood_lb(flood_run(s, w, h, msx, msy, fuel), walk, w, h),
    decreases fuel,
{
    if fuel > 0 && s.queue.len() > 0 {
        lemma_flood_step_lb(s, walk, w, h, msx, msy);
        lemma_flood_run_lb(flood_step(s, w, h, msx, msy), walk, w, h, msx, msy, (fuel
            - 1) as nat);
    }
}

} // verus!
