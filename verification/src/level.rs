//! A generated dungeon floor: the coarse site grid, the continuous point
//! classifier (jittered Voronoi with noise-warped corridors), and the cached
//! distance field with its continuous query layer.

use vstd::prelude::*;
use crate::fixed::{SCALE, floor_div, isqrt, spec_isqrt, is_isqrt};
use crate::rng::{MOD32, spec_krand, krand, spec_khash, khash};
use crate::noise::{spec_noise2d, noise2d, spec_lerp, lerp, lemma_lerp_bounds};
use crate::distance_field::{BuildError, dims_ok, spec_center, center, sep_final, spec_dir,
    gen_distance_field_sep};

verus! {

/// A fixed-point point or vector in the unit square (SCALE units = 1.0).
#[derive(Clone, Copy, PartialEq, Eq, Structural, Debug)]
pub struct Vec2 {
    pub x: i64,
    pub y: i64,
}

/// Coarse-cell tags.
pub const CLOSED: u32 = 0;
pub const ENEMY_SITE: u32 = 1;
pub const STAIRS_DOWN: u32 = 2;
pub const STAIRS_UP: u32 = 3;

/// Boundary distance reported for points outside the unit square.
pub const D_UNBOUNDED: i64 = 0x7fff_ffff_ffff_ffff;

/// Largest accepted coarse-grid side.
pub const COARSE_MAX: usize = 4096;

/// Multipliers deriving the independent noise channels from the floor seed.
pub const SEED_MUL_WARP_X: u64 = 12349417;
pub const SEED_MUL_WARP_Y: u64 = 98341247;
pub const SEED_MUL_THICKNESS: u64 = 141471747;
pub const SEED_MUL_OBSTRUCTION: u64 = 123412157;
pub const SEED_MUL_OBS_MASK: u64 = 10968547;
pub const SEED_MUL_JITTER_Y: u64 = 241231247;

/// Cell-seed mixing multipliers.
pub const CELL_SEED_MUL_X: u64 = 12312547;
pub const CELL_SEED_MUL_Y: u64 = 568812347;

/// Noise frequencies (in lattice cells per unit) of the noise channels.
pub const WARP_FREQ: i64 = 64;
pub const THICKNESS_FREQ: i64 = 4;
pub const OBSTRUCTION_FREQ: i64 = 32;
pub const OBS_MASK_FREQ: i64 = 8;

/// Domain-warp amplitude: 1/100 of a unit.
pub const WARP_DIV: i64 = 100;

/// Corridor thickness: noise * 3/100 plus this base (0.005 of a unit).
pub const THICKNESS_BASE: i64 = 327;

/// Threshold (0.8 of a unit) that both obstruction noises must exceed to
/// carve an obstruction out of a room.
pub const NOISE_HIGH: i64 = 52429;

/// What the classifier says about one continuous point.
pub struct PointProperties {
    /// Coarse cell owning the point.
    pub ni: usize,
    pub nj: usize,
    /// Distance from the (warped) point to the owning cell's site.
    pub d: i64,
    pub walkable: bool,
    /// Tag of the owning cell.
    pub gtype: u32,
}

/// One dungeon floor.
pub struct Level {
    pub seed: u32,
    pub floor: i32,
    /// Coarse grid dimensions.
    pub w: usize,
    pub h: usize,
    /// Coarse cell tags, row-major, length w * h.
    pub grid_type: Vec<u32>,
    pub stairs_up: Vec2,
    pub stairs_down: Vec2,
    /// Cached distance field, row-major, length dw * dh.
    pub distances: Vec<i64>,
    /// Direction away from the nearest obstruction, one per field cell.
    pub walldirs: Vec<Vec2>,
    /// Distance field dimensions.
    pub dw: usize,
    pub dh: usize,
}

/// The spec-level model of a floor's procedural inputs: the seed and the
/// coarse grid. Everything the classifier computes is a pure function of it.
pub struct GridModel {
    pub seed: int,
    pub w: int,
    pub h: int,
    pub grid: Seq<u32>,
}

/// The per-cell seed: a mix of the floor seed and the cell coordinates,
/// folded to 32 bits.
pub open spec fn spec_cell_seed(seed: int, x: int, y: int) -> int {
    (seed + CELL_SEED_MUL_X * x + CELL_SEED_MUL_Y * y) % (MOD32 as int)
}

/// A derived 32-bit noise-channel seed.
pub open spec fn spec_seed_mul(seed: int, k: int) -> int {
    (seed * k) % (MOD32 as int)
}

/// Jittered site x position of coarse cell (x, y): the cell's left edge plus
/// a deterministic fraction of the cell width.
pub open spec fn spec_cell_xy_x(seed: int, w: int, x: int, y: int) -> int {
    let s = spec_cell_seed(seed, x, y);
    (x * SCALE + spec_krand(s)) / w
}

/// Jittered site y position of coarse cell (x, y).
pub open spec fn spec_cell_xy_y(seed: int, h: int, x: int, y: int) -> int {
    let s = spec_cell_seed(seed, x, y);
    (y * SCALE + spec_krand((SEED_MUL_JITTER_Y * s) % (MOD32 as int))) / h
}

impl Level {
    /// The floor's procedural inputs as a spec value.
    pub open spec fn model(self) -> GridModel {
        GridModel {
            seed: self.seed as int,
            w: self.w as int,
            h: self.h as int,
            grid: self.grid_type@,
        }
    }

    /// The cached distance field is well-formed: bounded dimensions,
    /// matching array lengths, non-negative distances and unit-bounded
    /// directions.
    pub open spec fn wf_field(self) -> bool {
        &&& 2 <= self.dw <= crate::distance_field::FIELD_MAX
        &&& 2 <= self.dh <= crate::distance_field::FIELD_MAX
        &&& self.distances@.len() == self.dw * self.dh
        &&& self.walldirs@.len() == self.dw * self.dh
        &&& forall|i: int| 0 <= i < self.dw * self.dh ==> 0 <= #[trigger] self.distances@[i]
        &&& forall|i: int| 0 <= i < self.dw * self.dh ==> {
            &&& -SCALE <= (#[trigger] self.walldirs@[i]).x <= SCALE
            &&& -SCALE <= self.walldirs@[i].y <= SCALE
        }
    }

    /// The coarse grid is well-formed: bounded dimensions and a matching
    /// tag array.
    pub open spec fn wf_grid(self) -> bool {
        &&& 1 <= self.w <= COARSE_MAX
        &&& 1 <= self.h <= COARSE_MAX
        &&& self.grid_type@.len() == self.w * self.h
    }

    /// Deterministic per-cell seed.
    pub fn cell_seed(&self, x: usize, y: usize) -> (r: u32)
        requires
            x <= COARSE_MAX,
            y <= COARSE_MAX,
        ensures
            r == spec_cell_seed(self.seed as int, x as int, y as int),
    {
        ((self.seed as u64 + CELL_SEED_MUL_X * x as u64 + CELL_SEED_MUL_Y * y as u64)
            % MOD32) as u32
    }

    /// Jittered continuous site position of a coarse cell; lies inside the
    /// cell, so within the unit square.
    pub fn cell_xy(&self, x: usize, y: usize) -> (r: Vec2)
        requires
            1 <= self.w <= COARSE_MAX,
            1 <= self.h <= COARSE_MAX,
            x < self.w,
            y < self.h,
        ensures
            r.x == spec_cell_xy_x(self.seed as int, self.w as int, x as int, y as int),
            r.y == spec_cell_xy_y(self.seed as int, self.h as int, x as int, y as int),
            0 <= r.x < SCALE,
            0 <= r.y < SCALE,
    {
        let s: u32 = self.cell_seed(x, y);
        let rx: i64 = krand(s as u64);
        let ry: i64 = krand((SEED_MUL_JITTER_Y * s as u64) % MOD32);
        let px: i64 = (x as i64 * SCALE + rx) / self.w as i64;
        let py: i64 = (y as i64 * SCALE + ry) / self.h as i64;
        proof {
            lemma_jitter_in_cell(x as int, self.w as int, rx as int);
            lemma_jitter_in_cell(y as int, self.h as int, ry as int);
        }
        Vec2 { x: px, y: py }
    }
}

/// Coarse column of the k-th entry (k in 0..9) of the 3x3 neighbourhood
/// around (icell, jcell), enumerated column-major as the classifier scans it.
pub open spec fn nb_ci(icell: int, k: int) -> int {
    icell + k / 3 - 1
}

/// Coarse row of the k-th neighbourhood entry.
pub open spec fn nb_cj(jcell: int, k: int) -> int {
    jcell + k % 3 - 1
}

/// Whether the k-th neighbourhood entry lies on the coarse grid.
pub open spec fn nb_ok(w: int, h: int, icell: int, jcell: int, k: int) -> bool {
    0 <= nb_ci(icell, k) < w && 0 <= nb_cj(jcell, k) < h
}

/// Distance from the warped point to the k-th neighbour's jittered site.
pub open spec fn nb_d(m: GridModel, icell: int, jcell: int, xw: int, yw: int, k: int) -> int {
    let sx = spec_cell_xy_x(m.seed, m.w, nb_ci(icell, k), nb_cj(jcell, k));
    let sy = spec_cell_xy_y(m.seed, m.h, nb_ci(icell, k), nb_cj(jcell, k));
    spec_isqrt((xw - sx) * (xw - sx) + (yw - sy) * (yw - sy))
}

/// First-minimum scan of the neighbourhood entries below `n`, ignoring
/// off-grid entries and the entry `skip`: returns (entry, distance), or
/// (-1, 0) when no entry qualifies. Ties keep the earliest entry, as a
/// stable sort would.
pub open spec fn spec_nearest(
    m: GridModel,
    icell: int,
    jcell: int,
    xw: int,
    yw: int,
    skip: int,
    n: int,
) -> (int, int)
    decreases n,
{
    if n <= 0 {
        (-1, 0)
    } else {
        let prev = spec_nearest(m, icell, jcell, xw, yw, skip, n - 1);
        if !nb_ok(m.w, m.h, icell, jcell, n - 1) || n - 1 == skip {
            prev
        } else {
            let d = nb_d(m, icell, jcell, xw, yw, n - 1);
            if prev.0 == -1 || d < prev.1 {
                (n - 1, d)
            } else {
                prev
            }
        }
    }
}

/// What the first-minimum scan returns: a qualifying entry of minimal
/// distance, or -1 exactly when no entry qualifies.
pub proof fn lemma_nearest_props(
    m: GridModel,
    icell: int,
    jcell: int,
    xw: int,
    yw: int,
    skip: int,
    n: int,
)
    requires
        n >= 0,
    ensures
        ({
            let r = spec_nearest(m, icell, jcell, xw, yw, skip, n);
            &&& (r.0 == -1 ==> forall|k2: int|
                0 <= k2 < n && k2 != skip ==> !nb_ok(m.w, m.h, icell, jcell, k2))
            &&& (r.0 != -1 ==> {
                &&& 0 <= r.0 < n
                &&& r.0 != skip
                &&& nb_ok(m.w, m.h, icell, jcell, r.0)
                &&& r.1 == nb_d(m, icell, jcell, xw, yw, r.0)
                &&& 0 <= r.1
                &&& forall|k2: int|
                    0 <= k2 < n && k2 != skip
                        && nb_ok(m.w, m.h, icell, jcell, k2)
                        ==> r.1 <= nb_d(m, icell, jcell, xw, yw, k2)
            })
        }),
    decreases n,
{
    if n > 0 {
        lemma_nearest_props(m, icell, jcell, xw, yw, skip, n - 1);
        if nb_ok(m.w, m.h, icell, jcell, n - 1) && n - 1 != skip {
            lemma_squares_nonneg(
                xw - spec_cell_xy_x(m.seed, m.w, nb_ci(icell, n - 1), nb_cj(jcell, n - 1)),
                yw - spec_cell_xy_y(m.seed, m.h, nb_ci(icell, n - 1), nb_cj(jcell, n - 1)),
            );
            crate::fixed::lemma_isqrt_exists({
                let sx = spec_cell_xy_x(m.seed, m.w, nb_ci(icell, n - 1), nb_cj(jcell, n - 1));
                let sy = spec_cell_xy_y(m.seed, m.h, nb_ci(icell, n - 1), nb_cj(jcell, n - 1));
                (xw - sx) * (xw - sx) + (yw - sy) * (yw - sy)
            });
        }
    }
}

impl Level {
    /// Bounds test and site distance for the k-th neighbourhood entry.
    fn neighbor_dist(&self, icell: i64, jcell: i64, xw: i64, yw: i64, k: i64) -> (r: (
        bool,
        i64,
    ))
        requires
            self.wf_grid(),
            -2 * SCALE <= xw <= 2 * SCALE,
            -2 * SCALE <= yw <= 2 * SCALE,
            -100000 <= icell <= 100000,
            -100000 <= jcell <= 100000,
            0 <= k < 9,
        ensures
            r.0 == nb_ok(self.w as int, self.h as int, icell as int, jcell as int, k as int),
            r.0 ==> r.1 == nb_d(self.model(), icell as int, jcell as int, xw as int,
                yw as int, k as int),
            r.0 ==> 0 <= r.1 <= crate::fixed::ISQRT_MAX,
    {
        let ci: i64 = icell + k / 3 - 1;
        let cj: i64 = jcell + k % 3 - 1;
        if ci >= 0 && cj >= 0 && ci < self.w as i64 && cj < self.h as i64 {
            let site: Vec2 = self.cell_xy(ci as usize, cj as usize);
            let dx: i64 = xw - site.x;
            let dy: i64 = yw - site.y;
            proof {
                assert(dx * dx + dy * dy <= 18 * SCALE * SCALE && dx * dx >= 0 && dy * dy >= 0)
                    by (nonlinear_arith)
                    requires
                        -3 * SCALE <= dx <= 3 * SCALE,
                        -3 * SCALE <= dy <= 3 * SCALE,
                ;
            }
            let d: i64 = isqrt(dx * dx + dy * dy);
            (true, d)
        } else {
            (false, 0)
        }
    }

    /// One scan of the 3x3 neighbourhood for the qualifying site nearest to
    /// the warped point, skipping entry `skip` (-1 to skip none).
    #[verifier::rlimit(100)]
    fn nearest_pass(&self, icell: i64, jcell: i64, xw: i64, yw: i64, skip: i64) -> (r: (
        i64,
        i64,
    ))
        requires
            self.wf_grid(),
            -2 * SCALE <= xw <= 2 * SCALE,
            -2 * SCALE <= yw <= 2 * SCALE,
            -100000 <= icell <= 100000,
            -100000 <= jcell <= 100000,
            -1 <= skip < 9,
        ensures
            r.0 == spec_nearest(self.model(), icell as int, jcell as int, xw as int,
                yw as int, skip as int, 9).0,
            r.1 == spec_nearest(self.model(), icell as int, jcell as int, xw as int,
                yw as int, skip as int, 9).1,
            0 <= r.1 <= crate::fixed::ISQRT_MAX,
    {
        let mut best_k: i64 = -1;
        let mut best_d: i64 = 0;
        let mut k: i64 = 0;
        while k < 9
            invariant
                0 <= k <= 9,
                self.wf_grid(),
                -2 * SCALE <= xw <= 2 * SCALE,
                -2 * SCALE <= yw <= 2 * SCALE,
                -100000 <= icell <= 100000,
                -100000 <= jcell <= 100000,
                -1 <= skip < 9,
                best_k == spec_nearest(self.model(), icell as int, jcell as int, xw as int,
                    yw as int, skip as int, k as int).0,
                best_d == spec_nearest(self.model(), icell as int, jcell as int, xw as int,
                    yw as int, skip as int, k as int).1,
                0 <= best_d <= crate::fixed::ISQRT_MAX,
            decreases 9 - k,
        {
            if k != skip {
                let nd: (bool, i64) = self.neighbor_dist(icell, jcell, xw, yw, k);
                if nd.0 && (best_k == -1 || nd.1 < best_d) {
                    best_k = k;
                    best_d = nd.1;
                }
            }
            k = k + 1;
        }
        (best_k, best_d)
    }
}

/// The domain-warped x coordinate of a point.
pub open spec fn spec_warp_x(m: GridModel, x: int, y: int) -> int {
    let sa = spec_seed_mul(m.seed, SEED_MUL_WARP_X as int);
    x + spec_noise2d(WARP_FREQ * x, WARP_FREQ * y, sa) / (WARP_DIV as int)
}

/// The domain-warped y coordinate of a point.
pub open spec fn spec_warp_y(m: GridModel, x: int, y: int) -> int {
    let sb = spec_seed_mul(m.seed, SEED_MUL_WARP_Y as int);
    y + spec_noise2d(WARP_FREQ * x, WARP_FREQ * y, sb) / (WARP_DIV as int)
}

/// The locally varying corridor thickness at a warped point.
pub open spec fn spec_thickness(m: GridModel, xw: int, yw: int) -> int {
    let sc = spec_seed_mul(m.seed, SEED_MUL_THICKNESS as int);
    spec_noise2d(THICKNESS_FREQ * xw, THICKNESS_FREQ * yw, sc) * 3 / (WARP_DIV as int)
        + THICKNESS_BASE
}

/// Whether both obstruction noises exceed the high threshold at a point:
/// only then is an obstruction carved out of an open room.
pub open spec fn spec_obstructed(m: GridModel, x: int, y: int) -> bool {
    let sd = spec_seed_mul(m.seed, SEED_MUL_OBSTRUCTION as int);
    let se = spec_seed_mul(m.seed, SEED_MUL_OBS_MASK as int);
    spec_noise2d(OBSTRUCTION_FREQ * x, OBSTRUCTION_FREQ * y, sd) > NOISE_HIGH
        && spec_noise2d(OBS_MASK_FREQ * x, OBS_MASK_FREQ * y, se) > NOISE_HIGH
}

/// The coarse cell index containing a warped coordinate.
pub open spec fn spec_cell_index(p: int, n: int) -> int {
    (p * n) / (SCALE as int)
}

/// Whether a coarse cell lies on the outer ring of the grid.
pub open spec fn spec_on_border(w: int, h: int, ci: int, cj: int) -> bool {
    ci == 0 || ci == w - 1 || cj == 0 || cj == h - 1
}

/// The classifier's verdict with the warp already applied.
pub open spec fn spec_point_warped(m: GridModel, x: int, y: int, xw: int, yw: int)
    -> PointProperties {
    let thickness = spec_thickness(m, xw, yw);
    let icell = spec_cell_index(xw, m.w);
    let jcell = spec_cell_index(yw, m.h);
    let n0 = spec_nearest(m, icell, jcell, xw, yw, -1, 9);
    if n0.0 == -1 {
        PointProperties { ni: 0, nj: 0, d: D_UNBOUNDED, walkable: false, gtype: 0 }
    } else {
        let ni = nb_ci(icell, n0.0);
        let nj = nb_cj(jcell, n0.0);
        let gtype = m.grid[nj * m.w + ni];
        let n1 = spec_nearest(m, icell, jcell, xw, yw, n0.0, 9);
        let diff = if n1.1 >= n0.1 {
            n1.1 - n0.1
        } else {
            n0.1 - n1.1
        };
        let on_line = n1.0 != -1 && diff < thickness;
        let border0 = spec_on_border(m.w, m.h, ni, nj);
        let border1 = spec_on_border(m.w, m.h, nb_ci(icell, n1.0), nb_cj(jcell, n1.0));
        let outer_line = n1.0 != -1 && border0 && border1;
        let walkable = (!outer_line && on_line) || (gtype > 0 && !spec_obstructed(m, x, y));
        PointProperties { ni: ni as usize, nj: nj as usize, d: n0.1 as i64, walkable, gtype }
    }
}

/// The classifier's verdict on a continuous point, as a pure function of the
/// floor's seed, coarse grid and the coordinates.
#[verifier::opaque]
pub open spec fn spec_point(m: GridModel, x: int, y: int) -> PointProperties {
    if x < 0 || y < 0 || x > SCALE || y > SCALE {
        PointProperties { ni: 0, nj: 0, d: D_UNBOUNDED, walkable: false, gtype: 0 }
    } else {
        spec_point_warped(m, x, y, spec_warp_x(m, x, y), spec_warp_y(m, x, y))
    }
}

impl Level {
    /// Classifies a continuous point: which coarse cell owns it, how far its
    /// jittered site is, and whether the point is walkable. Points outside
    /// the unit square are non-walkable with unbounded boundary distance.
    /// The classifier body once the domain warp has been applied.
    #[verifier::rlimit(100)]
    fn point_warped(&self, x: i64, y: i64, xw: i64, yw: i64) -> (r: PointProperties)
        requires
            self.wf_grid(),
            0 <= x <= SCALE,
            0 <= y <= SCALE,
            0 <= xw <= 2 * SCALE,
            0 <= yw <= 2 * SCALE,
        ensures
            r == spec_point_warped(self.model(), x as int, y as int, xw as int, yw as int),
            r.ni < self.w,
            r.nj < self.h,
            r.d >= 0,
    {
        let sc: u64 = (self.seed as u64 * SEED_MUL_THICKNESS) % MOD32;
        let nth: i64 = noise2d(THICKNESS_FREQ * xw, THICKNESS_FREQ * yw, sc);
        let thickness: i64 = nth * 3 / WARP_DIV + THICKNESS_BASE;
        proof {
            assert(thickness == spec_thickness(self.model(), xw as int, yw as int));
            assert(-2 * SCALE * COARSE_MAX <= xw * (self.w as i64) <= 2 * SCALE * COARSE_MAX)
                by (nonlinear_arith)
                requires
                    0 <= xw <= 2 * SCALE,
                    1 <= self.w <= COARSE_MAX,
            ;
            assert(-2 * SCALE * COARSE_MAX <= yw * (self.h as i64) <= 2 * SCALE * COARSE_MAX)
                by (nonlinear_arith)
                requires
                    0 <= yw <= 2 * SCALE,
                    1 <= self.h <= COARSE_MAX,
            ;
            lemma_cell_of_point(xw as int, self.w as int);
            lemma_cell_of_point(yw as int, self.h as int);
        }
        let icell: i64 = floor_div(xw * self.w as i64, SCALE);
        let jcell: i64 = floor_div(yw * self.h as i64, SCALE);
        assert(icell == spec_cell_index(xw as int, self.w as int));
        assert(jcell == spec_cell_index(yw as int, self.h as int));
        let n0: (i64, i64) = self.nearest_pass(icell, jcell, xw, yw, -1);
        proof {
            lemma_nearest_props(self.model(), icell as int, jcell as int, xw as int,
                yw as int, -1, 9);
        }
        if n0.0 == -1 {
            return PointProperties { ni: 0, nj: 0, d: D_UNBOUNDED, walkable: false, gtype: 0 };
        }
        let ni: i64 = icell + n0.0 / 3 - 1;
        let nj: i64 = jcell + n0.0 % 3 - 1;
        let niu: usize = ni as usize;
        let nju: usize = nj as usize;
        proof {
            assert(nju * self.w + niu < self.w * self.h && self.w * self.h <= 16777216)
                by (nonlinear_arith)
                requires
                    niu < self.w,
                    nju < self.h,
                    self.w <= COARSE_MAX,
                    self.h <= COARSE_MAX,
                    COARSE_MAX == 4096,
            ;
        }
        let gtype: u32 = self.grid_type[nju * self.w + niu];
        let n1: (i64, i64) = self.nearest_pass(icell, jcell, xw, yw, n0.0);
        proof {
            lemma_nearest_props(self.model(), icell as int, jcell as int, xw as int,
                yw as int, n0.0 as int, 9);
        }
        let diff: i64 = if n1.1 >= n0.1 {
            n1.1 - n0.1
        } else {
            n0.1 - n1.1
        };
        let on_line: bool = n1.0 != -1 && diff < thickness;
        let border0: bool = ni == 0 || ni == self.w as i64 - 1 || nj == 0 || nj == self.h as i64
            - 1;
        let ni1: i64 = icell + n1.0 / 3 - 1;
        let nj1: i64 = jcell + n1.0 % 3 - 1;
        let border1: bool = ni1 == 0 || ni1 == self.w as i64 - 1 || nj1 == 0 || nj1 == self.h
            as i64 - 1;
        let outer_line: bool = n1.0 != -1 && border0 && border1;
        let sd: u64 = (self.seed as u64 * SEED_MUL_OBSTRUCTION) % MOD32;
        let se: u64 = (self.seed as u64 * SEED_MUL_OBS_MASK) % MOD32;
        let obstructions: bool = noise2d(OBSTRUCTION_FREQ * x, OBSTRUCTION_FREQ * y, sd)
            > NOISE_HIGH;
        let obs_mask: bool = noise2d(OBS_MASK_FREQ * x, OBS_MASK_FREQ * y, se) > NOISE_HIGH;
        assert((obstructions && obs_mask) == spec_obstructed(self.model(), x as int, y as int));
        let walkable: bool = (!outer_line && on_line) || (gtype > 0 && !(obstructions
            && obs_mask));
        PointProperties { ni: niu, nj: nju, d: n0.1, walkable, gtype }
    }

    /// Classifies a continuous point: which coarse cell owns it, how far its
    /// jittered site is, and whether the point is walkable. Points outside
    /// the unit square are non-walkable with unbounded boundary distance.
    pub fn point(&self, x: i64, y: i64) -> (r: PointProperties)
        requires
            self.wf_grid(),
        ensures
            r == spec_point(self.model(), x as int, y as int),
            r.ni < self.w,
            r.nj < self.h,
            r.d >= 0,
            (x < 0 || y < 0 || x > SCALE || y > SCALE) ==> (!r.walkable && r.d
                == D_UNBOUNDED),
    {
        proof {
            reveal(spec_point);
        }
        if x < 0 || y < 0 || x > SCALE || y > SCALE {
            return PointProperties { ni: 0, nj: 0, d: D_UNBOUNDED, walkable: false, gtype: 0 };
        }
        let sa: u64 = (self.seed as u64 * SEED_MUL_WARP_X) % MOD32;
        let sb: u64 = (self.seed as u64 * SEED_MUL_WARP_Y) % MOD32;
        let nwx: i64 = noise2d(WARP_FREQ * x, WARP_FREQ * y, sa);
        let nwy: i64 = noise2d(WARP_FREQ * x, WARP_FREQ * y, sb);
        assert(0 <= nwx / WARP_DIV < SCALE && 0 <= nwy / WARP_DIV < SCALE);
        let xw: i64 = x + nwx / WARP_DIV;
        let yw: i64 = y + nwy / WARP_DIV;
        assert(xw == spec_warp_x(self.model(), x as int, y as int));
        assert(yw == spec_warp_y(self.model(), x as int, y as int));
        self.point_warped(x, y, xw, yw)
    }
}

/// A sum of two squares is non-negative.
pub proof fn lemma_squares_nonneg(a: int, b: int)
    by (nonlinear_arith)
    ensures
        a * a + b * b >= 0,
{
}

/// The coarse cell index of a warped in-range point is within the scan
/// bounds used by the neighbourhood passes.
pub proof fn lemma_cell_of_point(p: int, n: int)
    requires
        -2 * SCALE <= p <= 2 * SCALE,
        1 <= n <= COARSE_MAX,
    ensures
        -100000 <= p * n / (SCALE as int) <= 100000,
{
    assert(-2 * SCALE * COARSE_MAX <= p * n <= 2 * SCALE * COARSE_MAX) by (nonlinear_arith)
        requires
            -2 * SCALE <= p <= 2 * SCALE,
            1 <= n <= COARSE_MAX,
    ;
    assert(-100000 <= p * n / (SCALE as int) <= 100000) by (nonlinear_arith)
        requires
            -2 * SCALE * COARSE_MAX <= p * n <= 2 * SCALE * COARSE_MAX,
            SCALE == 65536,
            COARSE_MAX == 4096,
    ;
}

/// The jittered position (c * SCALE + r) / n of cell c among n lies inside
/// the unit interval, within cell c's span.
pub proof fn lemma_jitter_in_cell(c: int, n: int, r: int)
    requires
        0 <= c < n,
        0 <= r < SCALE,
    ensures
        0 <= (c * SCALE + r) / n < SCALE,
{
    assert(0 <= c * SCALE + r && c * SCALE + r < n * SCALE) by (nonlinear_arith)
        requires
            0 <= c < n,
            0 <= r < SCALE,
    ;
    assert(0 <= (c * SCALE + r) / n < SCALE) by (nonlinear_arith)
        requires
            0 <= c * SCALE + r < n * SCALE,
            n >= 1,
    ;
}


/// Number of room sites the generator aims to place.
pub const NUM_SITES: usize = 15;

/// How a floor generation can fail.
#[derive(Clone, Copy, PartialEq, Eq, Structural, Debug)]
pub enum GenError {
    /// Fewer than two interior candidate cells: the stairs search would be
    /// meaningless.
    TooFewSites,
    /// No candidate site lies at a positive distance in a stairs search.
    DegenerateStairs,
    /// The distance-field build failed.
    Field(BuildError),
}

/// Number of interior candidate cells of a coarse grid.
pub open spec fn n_cand(w: int, h: int) -> int {
    (w - 2) * (h - 2)
}

/// Column of the t-th interior candidate (candidates are enumerated
/// column-major, as the generator scans them).
pub open spec fn cand_ci(w: int, h: int, t: int) -> int {
    1 + t / (h - 2)
}

/// Row of the t-th interior candidate.
pub open spec fn cand_cj(w: int, h: int, t: int) -> int {
    1 + t % (h - 2)
}

/// Flat grid index of the t-th candidate.
pub open spec fn cand_idx(w: int, h: int, t: int) -> int {
    cand_cj(w, h, t) * w + cand_ci(w, h, t)
}

/// Sort key of the t-th candidate: the hash of its cell seed.
pub closed spec fn spec_key(seed: int, w: int, h: int, t: int) -> int {
    spec_khash(spec_cell_seed(seed, cand_ci(w, h, t), cand_cj(w, h, t)))
}

/// First unused candidate with a minimal key among the first n, or -1.
pub open spec fn spec_fmu(seed: int, w: int, h: int, used: Seq<bool>, n: int) -> int
    decreases n,
{
    if n <= 0 {
        -1
    } else {
        let prev = spec_fmu(seed, w, h, used, n - 1);
        if used[n - 1] {
            prev
        } else if prev == -1 || spec_key(seed, w, h, n - 1) < spec_key(seed, w, h, prev) {
            n - 1
        } else {
            prev
        }
    }
}

/// What the first-unused-minimum scan returns.
pub proof fn lemma_fmu_props(seed: int, w: int, h: int, used: Seq<bool>, n: int)
    requires
        n >= 0,
    ensures
        ({
            let p = spec_fmu(seed, w, h, used, n);
            &&& (p == -1 ==> forall|t: int| 0 <= t < n ==> used[t])
            &&& (p != -1 ==> {
                &&& 0 <= p < n
                &&& !used[p]
                &&& forall|t: int| 0 <= t < n && !used[t] ==> spec_key(seed, w, h, p)
                    <= spec_key(seed, w, h, t)
            })
        }),
    decreases n,
{
    if n > 0 {
        lemma_fmu_props(seed, w, h, used, n - 1);
    }
}

/// The used mask after k selections.
pub open spec fn spec_used(seed: int, w: int, h: int, k: int) -> Seq<bool>
    decreases k,
{
    if k <= 0 {
        Seq::new(n_cand(w, h) as nat, |t: int| false)
    } else {
        let u = spec_used(seed, w, h, k - 1);
        let p = spec_fmu(seed, w, h, u, n_cand(w, h));
        if p == -1 {
            u
        } else {
            u.update(p, true)
        }
    }
}

/// The k-th selected candidate: the first unused minimum at that stage.
#[verifier::opaque]
pub open spec fn spec_pick(seed: int, w: int, h: int, k: int) -> int {
    spec_fmu(seed, w, h, spec_used(seed, w, h, k), n_cand(w, h))
}

/// Number of true entries of a mask.
pub open spec fn n_marked(u: Seq<bool>) -> int
    decreases u.len(),
{
    if u.len() == 0 {
        0
    } else {
        n_marked(u.drop_last()) + if u.last() {
            1int
        } else {
            0int
        }
    }
}

/// Marking one unmarked entry raises the count by one.
proof fn lemma_n_marked_update(u: Seq<bool>, p: int)
    requires
        0 <= p < u.len(),
        !u[p],
    ensures
        n_marked(u.update(p, true)) == n_marked(u) + 1,
    decreases u.len(),
{
    let u2 = u.update(p, true);
    if p == u.len() - 1 {
        assert(u2.drop_last() =~= u.drop_last());
    } else {
        assert(u2.drop_last() =~= u.drop_last().update(p, true));
        lemma_n_marked_update(u.drop_last(), p);
    }
}

/// A mask marking fewer entries than its length has an unmarked entry.
proof fn lemma_n_marked_unmarked(u: Seq<bool>)
    requires
        n_marked(u) < u.len(),
    ensures
        exists|t: int| 0 <= t < u.len() && !u[t],
    decreases u.len(),
{
    if u.len() > 0 {
        if !u.last() {
            assert(!u[u.len() - 1]);
        } else {
            lemma_n_marked_unmarked(u.drop_last());
            let t = choose|t: int| 0 <= t < u.len() - 1 && !u.drop_last()[t];
            assert(!u[t]);
        }
    }
}

/// An all-false mask marks nothing.
proof fn lemma_n_marked_empty(u: Seq<bool>)
    requires
        forall|t: int| 0 <= t < u.len() ==> !u[t],
    ensures
        n_marked(u) == 0,
    decreases u.len(),
{
    if u.len() > 0 {
        lemma_n_marked_empty(u.drop_last());
    }
}

/// After k selections the mask has length n_cand, marks at most k entries,
/// and every earlier pick succeeded, was fresh, and is now marked.
pub proof fn lemma_used_props(seed: int, w: int, h: int, k: int)
    requires
        0 <= k <= n_cand(w, h),
    ensures
        spec_used(seed, w, h, k).len() == n_cand(w, h),
        n_marked(spec_used(seed, w, h, k)) <= k,
        forall|j: int| 0 <= j < k ==> {
            let p = #[trigger] spec_pick(seed, w, h, j);
            &&& 0 <= p < n_cand(w, h)
            &&& spec_used(seed, w, h, k)[p]
        },
    decreases k,
{
    let nc = n_cand(w, h);
    reveal(spec_pick);
    if k == 0 {
        lemma_n_marked_empty(spec_used(seed, w, h, 0));
    } else {
        lemma_used_props(seed, w, h, k - 1);
        let u = spec_used(seed, w, h, k - 1);
        let p = spec_fmu(seed, w, h, u, nc);
        lemma_fmu_props(seed, w, h, u, nc);
        if p == -1 {
            lemma_n_marked_unmarked_full(u);
        } else {
            lemma_n_marked_update(u, p);
        }
    }
}

/// A fully marked mask marks its whole length.
proof fn lemma_n_marked_unmarked_full(u: Seq<bool>)
    requires
        forall|t: int| 0 <= t < u.len() ==> u[t],
    ensures
        n_marked(u) == u.len(),
    decreases u.len(),
{
    if u.len() > 0 {
        lemma_n_marked_unmarked_full(u.drop_last());
    }
}

/// Every selection below the candidate count succeeds and picks a fresh
/// candidate; distinct stages pick distinct candidates.
pub proof fn lemma_pick_ok(seed: int, w: int, h: int, k: int)
    requires
        0 <= k < n_cand(w, h),
    ensures
        0 <= spec_pick(seed, w, h, k) < n_cand(w, h),
        !spec_used(seed, w, h, k)[spec_pick(seed, w, h, k)],
        forall|j: int| 0 <= j < k ==> #[trigger] spec_pick(seed, w, h, j) != spec_pick(seed,
            w, h, k),
{
    let nc = n_cand(w, h);
    reveal(spec_pick);
    lemma_used_props(seed, w, h, k);
    let u = spec_used(seed, w, h, k);
    lemma_fmu_props(seed, w, h, u, nc);
    if spec_pick(seed, w, h, k) == -1 {
        lemma_n_marked_unmarked_full(u);
    }
}


/// Jittered site x of the t-th candidate.
pub open spec fn site_x(seed: int, w: int, h: int, t: int) -> int {
    spec_cell_xy_x(seed, w, cand_ci(w, h, t), cand_cj(w, h, t))
}

/// Jittered site y of the t-th candidate.
pub open spec fn site_y(seed: int, w: int, h: int, t: int) -> int {
    spec_cell_xy_y(seed, h, cand_ci(w, h, t), cand_cj(w, h, t))
}

/// Number of sites the generator actually places.
pub open spec fn spec_ns(w: int, h: int) -> int {
    if n_cand(w, h) < NUM_SITES { n_cand(w, h) } else { NUM_SITES as int }
}

/// Squared distance from (fx, fy) to the site of the k-th selection.
pub open spec fn far_d2(seed: int, w: int, h: int, fx: int, fy: int, k: int) -> int {
    let t = spec_pick(seed, w, h, k);
    let dx = fx - site_x(seed, w, h, t);
    let dy = fy - site_y(seed, w, h, t);
    dx * dx + dy * dy
}

/// Furthest-site scan over selection stages [lo, n): the stage whose site
/// lies at the greatest positive squared distance from (fx, fy), earliest
/// among ties; (-1, 0) when every stage is at distance zero.
pub open spec fn spec_far(seed: int, w: int, h: int, fx: int, fy: int, lo: int, n: int)
    -> (int, int)
    decreases n - lo,
{
    if n <= lo {
        (-1, 0)
    } else {
        let prev = spec_far(seed, w, h, fx, fy, lo, n - 1);
        let d2 = far_d2(seed, w, h, fx, fy, n - 1);
        if d2 > prev.1 {
            (n - 1, d2)
        } else {
            prev
        }
    }
}

/// What the furthest-site scan returns.
pub proof fn lemma_far_props(seed: int, w: int, h: int, fx: int, fy: int, lo: int, n: int)
    requires
        0 <= lo,
    ensures
        ({
            let r = spec_far(seed, w, h, fx, fy, lo, n);
            &&& (r.0 != -1 ==> lo <= r.0 < n && r.1 == far_d2(seed, w, h, fx, fy, r.0)
                && r.1 >= 1)
            &&& (r.0 == -1 ==> r.1 == 0)
        }),
    decreases n - lo,
{
    if n > lo {
        lemma_far_props(seed, w, h, fx, fy, lo, n - 1);
    }
}

/// The grid after the first k selected sites are tagged as rooms.
pub open spec fn spec_mark(seed: int, w: int, h: int, k: int) -> Seq<u32>
    decreases k,
{
    if k <= 0 {
        Seq::new((w * h) as nat, |i: int| CLOSED)
    } else {
        spec_mark(seed, w, h, k - 1).update(cand_idx(w, h, spec_pick(seed, w, h, k - 1)),
            ENEMY_SITE)
    }
}

/// The first stairs scan: the selected site furthest from the first one.
#[verifier::opaque]
pub open spec fn spec_far1(seed: int, w: int, h: int) -> (int, int) {
    let t0 = spec_pick(seed, w, h, 0);
    spec_far(seed, w, h, site_x(seed, w, h, t0), site_y(seed, w, h, t0), 1, spec_ns(w, h))
}

/// The second stairs scan: the selected site furthest from the first
/// stairs.
#[verifier::opaque]
pub open spec fn spec_far2(seed: int, w: int, h: int) -> (int, int) {
    let tu = spec_pick(seed, w, h, spec_far1(seed, w, h).0);
    spec_far(seed, w, h, site_x(seed, w, h, tu), site_y(seed, w, h, tu), 0, spec_ns(w, h))
}

/// Whether site generation succeeds: at least two candidates, and both
/// stairs scans find a site at positive distance.
#[verifier::opaque]
pub open spec fn spec_gen_ok(seed: int, w: int, h: int) -> bool {
    n_cand(w, h) >= 2 && spec_far1(seed, w, h).0 != -1 && spec_far2(seed, w, h).0 != -1
}

/// Grid index of the stairs-up cell.
#[verifier::opaque]
pub open spec fn spec_up_idx(seed: int, w: int, h: int) -> int {
    cand_idx(w, h, spec_pick(seed, w, h, spec_far1(seed, w, h).0))
}

/// Grid index of the stairs-down cell.
#[verifier::opaque]
pub open spec fn spec_down_idx(seed: int, w: int, h: int) -> int {
    cand_idx(w, h, spec_pick(seed, w, h, spec_far2(seed, w, h).0))
}

/// The finished coarse grid: rooms tagged, then the two stairs cells.
#[verifier::opaque]
pub open spec fn spec_final_grid(seed: int, w: int, h: int) -> Seq<u32> {
    spec_mark(seed, w, h, spec_ns(w, h)).update(spec_up_idx(seed, w, h),
        STAIRS_UP).update(spec_down_idx(seed, w, h), STAIRS_DOWN)
}

/// Continuous position of the stairs-up cell's site.
#[verifier::opaque]
pub open spec fn spec_stairs_up(seed: int, w: int, h: int) -> Vec2 {
    let t = spec_pick(seed, w, h, spec_far1(seed, w, h).0);
    Vec2 { x: site_x(seed, w, h, t) as i64, y: site_y(seed, w, h, t) as i64 }
}

/// Continuous position of the stairs-down cell's site.
#[verifier::opaque]
pub open spec fn spec_stairs_down(seed: int, w: int, h: int) -> Vec2 {
    let t = spec_pick(seed, w, h, spec_far2(seed, w, h).0);
    Vec2 { x: site_x(seed, w, h, t) as i64, y: site_y(seed, w, h, t) as i64 }
}

/// The classifier rasterized at the centres of a dw-by-dh field.
pub open spec fn spec_walk(m: GridModel, dw: int, dh: int) -> Seq<bool> {
    Seq::new((dw * dh) as nat, |idx: int| spec_point(m, spec_center(idx % dw, dw),
        spec_center(idx / dw, dh)).walkable)
}

/// Distinct candidates occupy distinct grid cells.
pub proof fn lemma_cand_inj(w: int, h: int, t1: int, t2: int)
    requires
        3 <= w,
        3 <= h,
        0 <= t1 < n_cand(w, h),
        0 <= t2 < n_cand(w, h),
        t1 != t2,
    ensures
        cand_idx(w, h, t1) != cand_idx(w, h, t2),
        cand_ci(w, h, t1) < w - 1,
        cand_cj(w, h, t1) < h - 1,
{
    crate::distance_field::lemma_idx_bounds(t1, h - 2, w - 2);
    crate::distance_field::lemma_idx_bounds(t2, h - 2, w - 2);
    assert(cand_idx(w, h, t1) != cand_idx(w, h, t2)) by (nonlinear_arith)
        requires
            cand_idx(w, h, t1) == (1 + t1 % (h - 2)) * w + 1 + t1 / (h - 2),
            cand_idx(w, h, t2) == (1 + t2 % (h - 2)) * w + 1 + t2 / (h - 2),
            t1 == (t1 / (h - 2)) * (h - 2) + t1 % (h - 2),
            t2 == (t2 / (h - 2)) * (h - 2) + t2 % (h - 2),
            0 <= t1 % (h - 2) < h - 2,
            0 <= t2 % (h - 2) < h - 2,
            0 <= t1 / (h - 2) < w - 2,
            0 <= t2 / (h - 2) < w - 2,
            t1 != t2,
            3 <= w,
            3 <= h,
    ;
}

/// Candidate cells lie strictly inside the grid.
pub proof fn lemma_cand_bounds(w: int, h: int, t: int)
    requires
        3 <= w,
        3 <= h,
        0 <= t < n_cand(w, h),
    ensures
        1 <= cand_ci(w, h, t) < w - 1,
        1 <= cand_cj(w, h, t) < h - 1,
        0 <= cand_idx(w, h, t) < w * h,
{
    crate::distance_field::lemma_idx_bounds(t, h - 2, w - 2);
    assert(0 <= cand_idx(w, h, t) < w * h) by (nonlinear_arith)
        requires
            cand_idx(w, h, t) == (1 + t % (h - 2)) * w + 1 + t / (h - 2),
            0 <= t % (h - 2) < h - 2,
            0 <= t / (h - 2) < w - 2,
            3 <= w,
            3 <= h,
    ;
}

/// Room marking only writes the room tag over closed cells.
proof fn lemma_mark_range(seed: int, w: int, h: int, k: int)
    requires
        3 <= w,
        3 <= h,
        0 <= k <= spec_ns(w, h),
    ensures
        spec_mark(seed, w, h, k).len() == w * h,
        forall|i: int| 0 <= i < w * h ==> (#[trigger] spec_mark(seed, w, h, k)[i] == CLOSED
            || spec_mark(seed, w, h, k)[i] == ENEMY_SITE),
    decreases k,
{
    if k > 0 {
        lemma_mark_range(seed, w, h, k - 1);
        lemma_pick_ok(seed, w, h, k - 1);
        lemma_cand_bounds(w, h, spec_pick(seed, w, h, k - 1));
    }
}

/// A successfully generated floor has exactly one stairs-up cell and one
/// stairs-down cell, and they differ.
pub proof fn lemma_stairs_tags(seed: int, w: int, h: int)
    requires
        3 <= w,
        3 <= h,
        w * h <= COARSE_MAX * COARSE_MAX,
        spec_gen_ok(seed, w, h),
    ensures
        ({
            let g = spec_final_grid(seed, w, h);
            let up = spec_up_idx(seed, w, h);
            let down = spec_down_idx(seed, w, h);
            &&& g.len() == w * h
            &&& 0 <= up < w * h
            &&& 0 <= down < w * h
            &&& up != down
            &&& g[up] == STAIRS_UP
            &&& g[down] == STAIRS_DOWN
            &&& forall|i: int| 0 <= i < w * h && i != up ==> #[trigger] g[i] != STAIRS_UP
            &&& forall|i: int| 0 <= i < w * h && i != down ==> #[trigger] g[i] != STAIRS_DOWN
        }),
{
    reveal(spec_far1);
    reveal(spec_far2);
    reveal(spec_gen_ok);
    reveal(spec_up_idx);
    reveal(spec_down_idx);
    reveal(spec_final_grid);
    let ns = spec_ns(w, h);
    let f1 = spec_far1(seed, w, h);
    let f2 = spec_far2(seed, w, h);
    let t0 = spec_pick(seed, w, h, 0);
    let tu = spec_pick(seed, w, h, f1.0);
    let td = spec_pick(seed, w, h, f2.0);
    assert(2 <= ns <= n_cand(w, h));
    lemma_far_props(seed, w, h, site_x(seed, w, h, t0), site_y(seed, w, h, t0), 1, ns);
    lemma_far_props(seed, w, h, site_x(seed, w, h, tu), site_y(seed, w, h, tu), 0, ns);
    lemma_pick_ok(seed, w, h, f1.0);
    lemma_pick_ok(seed, w, h, f2.0);
    lemma_cand_bounds(w, h, tu);
    lemma_cand_bounds(w, h, td);
    if f1.0 == f2.0 {
        assert(far_d2(seed, w, h, site_x(seed, w, h, tu), site_y(seed, w, h, tu), f2.0) == 0)
            by (nonlinear_arith)
            requires
                tu == td,
                far_d2(seed, w, h, site_x(seed, w, h, tu), site_y(seed, w, h, tu), f2.0)
                    == (site_x(seed, w, h, tu) - site_x(seed, w, h, td))
                    * (site_x(seed, w, h, tu) - site_x(seed, w, h, td))
                    + (site_y(seed, w, h, tu) - site_y(seed, w, h, td))
                    * (site_y(seed, w, h, tu) - site_y(seed, w, h, td)),
        ;
        assert(false);
    }
    if f1.0 < f2.0 {
        lemma_pick_ok(seed, w, h, f2.0);
    } else {
        lemma_pick_ok(seed, w, h, f1.0);
    }
    assert(tu != td);
    lemma_cand_inj(w, h, tu, td);
    lemma_mark_range(seed, w, h, ns);
}


/// Unfolds the first stairs scan.
pub proof fn lemma_far1_tie(seed: int, w: int, h: int, b: int)
    requires
        b == spec_far(seed, w, h, site_x(seed, w, h, spec_pick(seed, w, h, 0)), site_y(seed,
            w, h, spec_pick(seed, w, h, 0)), 1, spec_ns(w, h)).0,
    ensures
        b == spec_far1(seed, w, h).0,
{
    reveal(spec_far1);
}

/// Unfolds the second stairs scan.
pub proof fn lemma_far2_tie(seed: int, w: int, h: int, b1: int, b2: int)
    requires
        b1 == spec_far1(seed, w, h).0,
        b2 == spec_far(seed, w, h, site_x(seed, w, h, spec_pick(seed, w, h, b1)), site_y(seed,
            w, h, spec_pick(seed, w, h, b1)), 0, spec_ns(w, h)).0,
    ensures
        b2 == spec_far2(seed, w, h).0,
{
    reveal(spec_far1);
    reveal(spec_far2);
}

/// Unfolds the success condition of site generation.
pub proof fn lemma_gen_ok_tie(seed: int, w: int, h: int)
    requires
        n_cand(w, h) >= 2,
    ensures
        spec_gen_ok(seed, w, h) == (spec_far1(seed, w, h).0 != -1 && spec_far2(seed, w, h).0
            != -1),
{
    reveal(spec_gen_ok);
}

/// Unfolds the stairs cells, positions and the finished grid.
pub proof fn lemma_stairs_tie(seed: int, w: int, h: int)
    ensures
        spec_stairs_up(seed, w, h) == (Vec2 {
            x: site_x(seed, w, h, spec_pick(seed, w, h, spec_far1(seed, w, h).0)) as i64,
            y: site_y(seed, w, h, spec_pick(seed, w, h, spec_far1(seed, w, h).0)) as i64,
        }),
        spec_stairs_down(seed, w, h) == (Vec2 {
            x: site_x(seed, w, h, spec_pick(seed, w, h, spec_far2(seed, w, h).0)) as i64,
            y: site_y(seed, w, h, spec_pick(seed, w, h, spec_far2(seed, w, h).0)) as i64,
        }),
        spec_up_idx(seed, w, h) == cand_idx(w, h, spec_pick(seed, w, h, spec_far1(seed, w,
            h).0)),
        spec_down_idx(seed, w, h) == cand_idx(w, h, spec_pick(seed, w, h, spec_far2(seed, w,
            h).0)),
        spec_final_grid(seed, w, h) == spec_mark(seed, w, h, spec_ns(w, h)).update(
            spec_up_idx(seed, w, h), STAIRS_UP).update(spec_down_idx(seed, w, h),
            STAIRS_DOWN),
{
    reveal(spec_stairs_up);
    reveal(spec_stairs_down);
    reveal(spec_up_idx);
    reveal(spec_down_idx);
    reveal(spec_final_grid);
}

impl Level {
    /// Rasterizes the classifier at the field resolution and rebuilds the
    /// cached distance field with the separable builder. A field cell left
    /// unresolved by the build is a fatal generation error and leaves the
    /// previous field untouched.
    pub fn gen_distances(&mut self) -> (r: Result<(), GenError>)
        requires
            old(self).wf_grid(),
            dims_ok(old(self).dw as int, old(self).dh as int),
        ensures
            final(self).seed == old(self).seed,
            final(self).floor == old(self).floor,
            final(self).w == old(self).w,
            final(self).h == old(self).h,
            final(self).dw == old(self).dw,
            final(self).dh == old(self).dh,
            final(self).grid_type@ == old(self).grid_type@,
            final(self).stairs_up == old(self).stairs_up,
            final(self).stairs_down == old(self).stairs_down,
            ({
                let dw = old(self).dw as int;
                let dh = old(self).dh as int;
                let fs = sep_final(spec_walk(old(self).model(), dw, dh), dw, dh);
                &&& ((r is Ok) <==> (forall|i: int| 0 <= i < dw * dh ==> #[trigger] fs.ni[i]
                    != -1))
                &&& ((r is Ok) ==> final(self).distances@ == fs.dist && final(self).walldirs@
                    == Seq::new((dw * dh) as nat, |i: int| spec_dir(fs, dw, dh, i)))
                &&& ((r is Ok) ==> final(self).wf_field())
                &&& ((r is Ok) ==> forall|i: int| 0 <= i < dw * dh ==> ((
                    #[trigger] final(self).distances@[i] == 0) <==> !spec_walk(
                    old(self).model(), dw, dh)[i]))
                &&& (!(r is Ok) ==> r == Err::<(), GenError>(GenError::Field(
                    BuildError::Unresolved)) && final(self).distances@
                    == old(self).distances@ && final(self).walldirs@ == old(self).walldirs@)
            }),
    {
        let dw: usize = self.dw;
        let dh: usize = self.dh;
        proof {
            assert(dw * dh <= 32768 * 32768) by (nonlinear_arith)
                requires
                    dims_ok(dw as int, dh as int),
            ;
        }
        let n: usize = dw * dh;
        let ghost m = self.model();
        let mut walk: Vec<bool> = Vec::new();
        let mut idx: usize = 0;
        while idx < n
            invariant
                idx <= n,
                n == dw * dh,
                dw == self.dw,
                dh == self.dh,
                dims_ok(dw as int, dh as int),
                self.wf_grid(),
                m == self.model(),
                walk@.len() == idx,
                forall|q: int| 0 <= q < idx ==> #[trigger] walk@[q] == spec_walk(m, dw as int,
                    dh as int)[q],
            decreases n - idx,
        {
            proof {
                crate::distance_field::lemma_idx_bounds(idx as int, dw as int, dh as int);
            }
            let i: usize = idx % dw;
            let j: usize = idx / dw;
            let x: i64 = center(i, dw);
            let y: i64 = center(j, dh);
            let pp: PointProperties = self.point(x, y);
            walk.push(pp.walkable);
            idx = idx + 1;
        }
        proof {
            assert(walk@ =~= spec_walk(m, dw as int, dh as int));
        }
        let built: Result<(Vec<i64>, Vec<Vec2>), BuildError> = gen_distance_field_sep(&walk,
            dw, dh);
        match built {
            Result::Ok(p) => {
                self.distances = p.0;
                self.walldirs = p.1;
                proof {
                    let dwi = dw as int;
                    let dhi = dh as int;
                    let wk = spec_walk(m, dwi, dhi);
                    let fs = sep_final(wk, dwi, dhi);
                    crate::distance_field::lemma_sep_final_inv(wk, dwi, dhi);
                    assert forall|i: int| 0 <= i < dwi * dhi implies {
                        &&& -SCALE <= (#[trigger] self.walldirs@[i]).x <= SCALE
                        &&& -SCALE <= self.walldirs@[i].y <= SCALE
                    } by {
                        crate::distance_field::lemma_dir_bounds(fs, wk, dwi, dhi, i);
                    }
                }
                Ok(())
            },
            Result::Err(e) => Err(GenError::Field(e)),
        }
    }

    /// Selects the ns interior candidates with the lowest hashes, in
    /// selection order.
    fn select_sites(&self, nc: usize, ns: usize) -> (picks: Vec<usize>)
        requires
            3 <= self.w <= COARSE_MAX,
            3 <= self.h <= COARSE_MAX,
            nc == n_cand(self.w as int, self.h as int),
            ns == spec_ns(self.w as int, self.h as int),
            2 <= nc,
            nc <= 0x1000000,
            ns <= nc,
        ensures
            picks@.len() == ns,
            forall|j: int| 0 <= j < ns ==> #[trigger] picks@[j] == spec_pick(
                self.seed as int, self.w as int, self.h as int, j) && picks@[j] < nc,
    {
        let ghost seed = self.seed as int;
        let ghost gw = self.w as int;
        let ghost gh = self.h as int;
        let w: usize = self.w;
        let h: usize = self.h;
        let mut keys: Vec<u64> = Vec::new();
        let mut t: usize = 0;
        while t < nc
            invariant
                t <= nc,
                nc == n_cand(gw, gh),
                seed == self.seed as int,
                gw == self.w as int,
                gh == self.h as int,
                w == self.w,
                h == self.h,
                3 <= w <= COARSE_MAX,
                3 <= h <= COARSE_MAX,
                keys@.len() == t,
                forall|q: int| 0 <= q < t ==> #[trigger] keys@[q] == spec_key(seed, gw, gh, q),
            decreases nc - t,
        {
            proof {
                crate::distance_field::lemma_idx_bounds(t as int, h as int - 2, w as int - 2);
            }
            let ci: usize = 1 + t / (h - 2);
            let cj: usize = 1 + t % (h - 2);
            let cs: u32 = self.cell_seed(ci, cj);
            keys.push(khash(cs as u64));
            t = t + 1;
        }
        let mut used: Vec<bool> = Vec::new();
        let mut t2: usize = 0;
        while t2 < nc
            invariant
                t2 <= nc,
                used@.len() == t2,
                forall|q: int| 0 <= q < t2 ==> !(#[trigger] used@[q]),
            decreases nc - t2,
        {
            used.push(false);
            t2 = t2 + 1;
        }
        proof {
            assert(used@ =~= spec_used(seed, gw, gh, 0));
        }
        let mut picks: Vec<usize> = Vec::new();
        let mut k: usize = 0;
        while k < ns
            invariant
                k <= ns,
                ns == spec_ns(gw, gh),
                ns <= nc,
                nc == n_cand(gw, gh),
                nc <= 0x1000000,
                seed == self.seed as int,
                gw == self.w as int,
                gh == self.h as int,
                keys@.len() == nc,
                forall|q: int| 0 <= q < nc ==> #[trigger] keys@[q] == spec_key(seed, gw, gh,
                    q),
                used@ == spec_used(seed, gw, gh, k as int),
                used@.len() == nc,
                picks@.len() == k,
                forall|j: int| 0 <= j < k ==> #[trigger] picks@[j] == spec_pick(seed, gw, gh,
                    j) && picks@[j] < nc,
            decreases ns - k,
        {
            let mut best: i64 = -1;
            let mut t3: usize = 0;
            while t3 < nc
                invariant
                    t3 <= nc,
                    nc == n_cand(gw, gh),
                    nc <= 0x1000000,
                    keys@.len() == nc,
                    used@.len() == nc,
                    forall|q: int| 0 <= q < nc ==> #[trigger] keys@[q] == spec_key(seed, gw,
                        gh, q),
                    used@ == spec_used(seed, gw, gh, k as int),
                    best == spec_fmu(seed, gw, gh, used@, t3 as int),
                    best == -1 || (0 <= best < t3),
                decreases nc - t3,
            {
                let cur: i64 = best;
                if !used[t3] && (cur == -1 || keys[t3] < keys[cur as usize]) {
                    best = t3 as i64;
                }
                proof {
                    assert(spec_fmu(seed, gw, gh, used@, t3 as int + 1) == best) by {
                        assert(spec_fmu(seed, gw, gh, used@, t3 as int) == cur);
                        assert(keys@[t3 as int] == spec_key(seed, gw, gh, t3 as int));
                        if cur != -1 {
                            assert(keys@[cur as int] == spec_key(seed, gw, gh, cur as int));
                        }
                    }
                }
                t3 = t3 + 1;
            }
            proof {
                lemma_pick_ok(seed, gw, gh, k as int);
                assert(best as int == spec_pick(seed, gw, gh, k as int)) by {
                    reveal(spec_pick);
                }
            }
            let p: usize = best as usize;
            used.set(p, true);
            picks.push(p);
            proof {
                assert(used@ == spec_used(seed, gw, gh, k as int + 1)) by {
                    reveal(spec_pick);
                }
            }
            k = k + 1;
        }
        picks
    }

    /// Marks the selected room sites on a fresh closed grid.
    fn mark_rooms(&self, picks: &Vec<usize>, nc: usize, ns: usize) -> (grid: Vec<u32>)
        requires
            3 <= self.w <= COARSE_MAX,
            3 <= self.h <= COARSE_MAX,
            nc == n_cand(self.w as int, self.h as int),
            ns == spec_ns(self.w as int, self.h as int),
            ns <= nc,
            picks@.len() == ns,
            forall|j: int| 0 <= j < ns ==> #[trigger] picks@[j] == spec_pick(
                self.seed as int, self.w as int, self.h as int, j) && picks@[j] < nc,
        ensures
            grid@ == spec_mark(self.seed as int, self.w as int, self.h as int, ns as int),
            grid@.len() == self.w * self.h,
    {
        let ghost seed = self.seed as int;
        let ghost gw = self.w as int;
        let ghost gh = self.h as int;
        let w: usize = self.w;
        let h: usize = self.h;
        proof {
            assert(w * h <= COARSE_MAX * COARSE_MAX) by (nonlinear_arith)
                requires
                    w <= COARSE_MAX,
                    h <= COARSE_MAX,
            ;
        }
        let wh: usize = w * h;
        let mut grid: Vec<u32> = Vec::new();
        let mut g0: usize = 0;
        while g0 < wh
            invariant
                g0 <= wh,
                grid@.len() == g0,
                forall|q: int| 0 <= q < g0 ==> #[trigger] grid@[q] == CLOSED,
            decreases wh - g0,
        {
            grid.push(CLOSED);
            g0 = g0 + 1;
        }
        proof {
            assert(grid@ =~= spec_mark(seed, gw, gh, 0));
        }
        let mut k2: usize = 0;
        while k2 < ns
            invariant
                k2 <= ns,
                ns == spec_ns(gw, gh),
                ns <= nc,
                nc == n_cand(gw, gh),
                seed == self.seed as int,
                gw == self.w as int,
                gh == self.h as int,
                w == self.w,
                h == self.h,
                wh == w * h,
                3 <= w <= COARSE_MAX,
                3 <= h <= COARSE_MAX,
                picks@.len() == ns,
                forall|j: int| 0 <= j < ns ==> #[trigger] picks@[j] == spec_pick(seed, gw, gh,
                    j) && picks@[j] < nc,
                grid@ == spec_mark(seed, gw, gh, k2 as int),
                grid@.len() == wh,
            decreases ns - k2,
        {
            let tt: usize = picks[k2];
            proof {
                lemma_cand_bounds(gw, gh, tt as int);
                crate::distance_field::lemma_idx_bounds(tt as int, h as int - 2, w as int
                    - 2);
            }
            let ci: usize = 1 + tt / (h - 2);
            let cj: usize = 1 + tt % (h - 2);
            grid.set(cj * w + ci, ENEMY_SITE);
            k2 = k2 + 1;
        }
        grid
    }

    /// The selection stage whose site lies furthest from (fx, fy), scanning
    /// stages [lo, ns); -1 when every scanned site coincides with the
    /// anchor.
    fn furthest_from(&self, picks: &Vec<usize>, fx: i64, fy: i64, lo: usize, nc: usize,
        ns: usize) -> (r: i64)
        requires
            3 <= self.w <= COARSE_MAX,
            3 <= self.h <= COARSE_MAX,
            nc == n_cand(self.w as int, self.h as int),
            ns == spec_ns(self.w as int, self.h as int),
            ns <= nc,
            lo <= ns,
            0 <= fx < SCALE,
            0 <= fy < SCALE,
            picks@.len() == ns,
            forall|j: int| 0 <= j < ns ==> #[trigger] picks@[j] == spec_pick(
                self.seed as int, self.w as int, self.h as int, j) && picks@[j] < nc,
        ensures
            r == spec_far(self.seed as int, self.w as int, self.h as int, fx as int, fy as int,
                lo as int, ns as int).0,
            r == -1 || lo <= r < ns,
    {
        let ghost seed = self.seed as int;
        let ghost gw = self.w as int;
        let ghost gh = self.h as int;
        let w: usize = self.w;
        let h: usize = self.h;
        let mut b: i64 = -1;
        let mut bd: i64 = 0;
        let mut k: usize = lo;
        while k < ns
            invariant
                lo <= k <= ns,
                ns == spec_ns(gw, gh),
                ns <= nc,
                nc == n_cand(gw, gh),
                seed == self.seed as int,
                gw == self.w as int,
                gh == self.h as int,
                w == self.w,
                h == self.h,
                3 <= w <= COARSE_MAX,
                3 <= h <= COARSE_MAX,
                0 <= fx < SCALE,
                0 <= fy < SCALE,
                picks@.len() == ns,
                forall|j: int| 0 <= j < ns ==> #[trigger] picks@[j] == spec_pick(seed, gw, gh,
                    j) && picks@[j] < nc,
                (b as int, bd as int) == spec_far(seed, gw, gh, fx as int, fy as int,
                    lo as int, k as int),
                b == -1 || (lo <= b < k),
                0 <= bd <= 2 * SCALE * SCALE,
            decreases ns - k,
        {
            let tt: usize = picks[k];
            proof {
                lemma_cand_bounds(gw, gh, tt as int);
                crate::distance_field::lemma_idx_bounds(tt as int, h as int - 2, w as int
                    - 2);
            }
            let pos: Vec2 = self.cell_xy(1 + tt / (h - 2), 1 + tt % (h - 2));
            let dx: i64 = fx - pos.x;
            let dy: i64 = fy - pos.y;
            proof {
                assert(0 <= dx * dx <= SCALE * SCALE && 0 <= dy * dy <= SCALE * SCALE)
                    by (nonlinear_arith)
                    requires
                        -SCALE < dx < SCALE,
                        -SCALE < dy < SCALE,
                ;
            }
            let d2: i64 = dx * dx + dy * dy;
            if d2 > bd {
                b = k as i64;
                bd = d2;
            }
            k = k + 1;
        }
        b
    }

    /// First stairs scan: the selected site furthest from the first pick.
    fn stairs_up_pick(&self, picks: &Vec<usize>, nc: usize, ns: usize) -> (r: i64)
        requires
            3 <= self.w <= COARSE_MAX,
            3 <= self.h <= COARSE_MAX,
            nc == n_cand(self.w as int, self.h as int),
            ns == spec_ns(self.w as int, self.h as int),
            2 <= nc,
            nc <= 0x1000000,
            2 <= ns <= nc,
            picks@.len() == ns,
            forall|j: int| 0 <= j < ns ==> #[trigger] picks@[j] == spec_pick(
                self.seed as int, self.w as int, self.h as int, j) && picks@[j] < nc,
        ensures
            r == spec_far1(self.seed as int, self.w as int, self.h as int).0,
            r == -1 || 1 <= r < ns,
    {
        let ghost seed = self.seed as int;
        let ghost gw = self.w as int;
        let ghost gh = self.h as int;
        let w: usize = self.w;
        let h: usize = self.h;
        let t0: usize = picks[0];
        proof {
            lemma_cand_bounds(gw, gh, t0 as int);
            crate::distance_field::lemma_idx_bounds(t0 as int, h as int - 2, w as int - 2);
        }
        let p0: Vec2 = self.cell_xy(1 + t0 / (h - 2), 1 + t0 % (h - 2));
        assert(p0.x == site_x(seed, gw, gh, spec_pick(seed, gw, gh, 0)));
        assert(p0.y == site_y(seed, gw, gh, spec_pick(seed, gw, gh, 0)));
        let b1: i64 = self.furthest_from(&picks, p0.x, p0.y, 1, nc, ns);
        proof {
            lemma_far1_tie(seed, gw, gh, b1 as int);
        }
        b1
    }

    /// Second stairs scan: the selected site furthest from the first
    /// stairs.
    fn stairs_down_pick(&self, picks: &Vec<usize>, nc: usize, ns: usize, b1: i64) -> (r: i64)
        requires
            3 <= self.w <= COARSE_MAX,
            3 <= self.h <= COARSE_MAX,
            nc == n_cand(self.w as int, self.h as int),
            ns == spec_ns(self.w as int, self.h as int),
            2 <= nc,
            nc <= 0x1000000,
            2 <= ns <= nc,
            picks@.len() == ns,
            forall|j: int| 0 <= j < ns ==> #[trigger] picks@[j] == spec_pick(
                self.seed as int, self.w as int, self.h as int, j) && picks@[j] < nc,
            b1 == spec_far1(self.seed as int, self.w as int, self.h as int).0,
            1 <= b1 < ns,
        ensures
            r == spec_far2(self.seed as int, self.w as int, self.h as int).0,
            r == -1 || 0 <= r < ns,
    {
        let ghost seed = self.seed as int;
        let ghost gw = self.w as int;
        let ghost gh = self.h as int;
        let w: usize = self.w;
        let h: usize = self.h;
        let tu: usize = picks[b1 as usize];
        proof {
            lemma_cand_bounds(gw, gh, tu as int);
            crate::distance_field::lemma_idx_bounds(tu as int, h as int - 2, w as int - 2);
        }
        let pu: Vec2 = self.cell_xy(1 + tu / (h - 2), 1 + tu % (h - 2));
        assert(pu.x == site_x(seed, gw, gh, spec_pick(seed, gw, gh, b1 as int)));
        assert(pu.y == site_y(seed, gw, gh, spec_pick(seed, gw, gh, b1 as int)));
        let b2: i64 = self.furthest_from(&picks, pu.x, pu.y, 0, nc, ns);
        proof {
            lemma_far2_tie(seed, gw, gh, b1 as int, b2 as int);
        }
        b2
    }

    /// Continuous site position of the k-th selected candidate.
    fn site_pos(&self, picks: &Vec<usize>, nc: usize, ns: usize, k: usize) -> (r: Vec2)
        requires
            3 <= self.w <= COARSE_MAX,
            3 <= self.h <= COARSE_MAX,
            nc == n_cand(self.w as int, self.h as int),
            ns == spec_ns(self.w as int, self.h as int),
            nc <= 0x1000000,
            ns <= nc,
            k < ns,
            picks@.len() == ns,
            forall|j: int| 0 <= j < ns ==> #[trigger] picks@[j] == spec_pick(
                self.seed as int, self.w as int, self.h as int, j) && picks@[j] < nc,
        ensures
            r.x == site_x(self.seed as int, self.w as int, self.h as int, spec_pick(
                self.seed as int, self.w as int, self.h as int, k as int)),
            r.y == site_y(self.seed as int, self.w as int, self.h as int, spec_pick(
                self.seed as int, self.w as int, self.h as int, k as int)),
            0 <= r.x < SCALE,
            0 <= r.y < SCALE,
    {
        let ghost gw = self.w as int;
        let ghost gh = self.h as int;
        let w: usize = self.w;
        let h: usize = self.h;
        let t: usize = picks[k];
        proof {
            lemma_cand_bounds(gw, gh, t as int);
            crate::distance_field::lemma_idx_bounds(t as int, h as int - 2, w as int - 2);
        }
        self.cell_xy(1 + t / (h - 2), 1 + t % (h - 2))
    }

    /// Grid index of the k-th selected candidate's cell.
    fn site_cell(&self, picks: &Vec<usize>, nc: usize, ns: usize, k: usize) -> (r: usize)
        requires
            3 <= self.w <= COARSE_MAX,
            3 <= self.h <= COARSE_MAX,
            nc == n_cand(self.w as int, self.h as int),
            ns == spec_ns(self.w as int, self.h as int),
            nc <= 0x1000000,
            ns <= nc,
            k < ns,
            picks@.len() == ns,
            forall|j: int| 0 <= j < ns ==> #[trigger] picks@[j] == spec_pick(
                self.seed as int, self.w as int, self.h as int, j) && picks@[j] < nc,
        ensures
            r == cand_idx(self.w as int, self.h as int, spec_pick(self.seed as int,
                self.w as int, self.h as int, k as int)),
            r < self.w * self.h,
    {
        let ghost gw = self.w as int;
        let ghost gh = self.h as int;
        let w: usize = self.w;
        let h: usize = self.h;
        let t: usize = picks[k];
        proof {
            assert((gh - 2) * (gw - 2) == n_cand(gw, gh) && gw * gh <= 0x1000000)
                by (nonlinear_arith)
                requires
                    3 <= gw <= COARSE_MAX,
                    3 <= gh <= COARSE_MAX,
                    n_cand(gw, gh) == (gw - 2) * (gh - 2),
                    COARSE_MAX == 4096,
            ;
            lemma_cand_bounds(gw, gh, t as int);
            crate::distance_field::lemma_idx_bounds(t as int, h as int - 2, w as int - 2);
            let ti = t as int;
            assert((1 + ti % (gh - 2)) * gw + (1 + ti / (gh - 2)) == cand_idx(gw, gh, ti));
        }
        (1 + t % (h - 2)) * w + (1 + t / (h - 2))
    }

    /// Tags the two stairs cells and returns the finished grid with the
    /// stairs positions.
    fn finish_stairs(&self, picks: &Vec<usize>, grid0: Vec<u32>, nc: usize, ns: usize,
        b1: i64, b2: i64) -> (r: (Vec<u32>, Vec2, Vec2))
        requires
            3 <= self.w <= COARSE_MAX,
            3 <= self.h <= COARSE_MAX,
            nc == n_cand(self.w as int, self.h as int),
            ns == spec_ns(self.w as int, self.h as int),
            2 <= nc,
            nc <= 0x1000000,
            2 <= ns <= nc,
            picks@.len() == ns,
            forall|j: int| 0 <= j < ns ==> #[trigger] picks@[j] == spec_pick(
                self.seed as int, self.w as int, self.h as int, j) && picks@[j] < nc,
            b1 == spec_far1(self.seed as int, self.w as int, self.h as int).0,
            b2 == spec_far2(self.seed as int, self.w as int, self.h as int).0,
            1 <= b1 < ns,
            0 <= b2 < ns,
            grid0@ == spec_mark(self.seed as int, self.w as int, self.h as int, ns as int),
            grid0@.len() == self.w * self.h,
        ensures
            r.0@ == spec_final_grid(self.seed as int, self.w as int, self.h as int),
            r.0@.len() == self.w * self.h,
            r.1 == spec_stairs_up(self.seed as int, self.w as int, self.h as int),
            r.2 == spec_stairs_down(self.seed as int, self.w as int, self.h as int),
    {
        let ghost seed = self.seed as int;
        let ghost gw = self.w as int;
        let ghost gh = self.h as int;
        let mut grid: Vec<u32> = grid0;
        let pu: Vec2 = self.site_pos(picks, nc, ns, b1 as usize);
        let pd: Vec2 = self.site_pos(picks, nc, ns, b2 as usize);
        let iu: usize = self.site_cell(picks, nc, ns, b1 as usize);
        let id: usize = self.site_cell(picks, nc, ns, b2 as usize);
        proof {
            lemma_stairs_tie(seed, gw, gh);
        }
        grid.set(iu, STAIRS_UP);
        grid.set(id, STAIRS_DOWN);
        (grid, pu, pd)
    }

    /// Runs the two furthest-point scans and tags the stairs cells.
    fn place_stairs(&self, picks: &Vec<usize>, grid0: Vec<u32>, nc: usize, ns: usize)
        -> (r: Result<(Vec<u32>, Vec2, Vec2), GenError>)
        requires
            3 <= self.w <= COARSE_MAX,
            3 <= self.h <= COARSE_MAX,
            nc == n_cand(self.w as int, self.h as int),
            ns == spec_ns(self.w as int, self.h as int),
            2 <= nc,
            nc <= 0x1000000,
            ns <= nc,
            2 <= ns,
            picks@.len() == ns,
            forall|j: int| 0 <= j < ns ==> #[trigger] picks@[j] == spec_pick(
                self.seed as int, self.w as int, self.h as int, j) && picks@[j] < nc,
            grid0@ == spec_mark(self.seed as int, self.w as int, self.h as int, ns as int),
            grid0@.len() == self.w * self.h,
        ensures
            ({
                let seed = self.seed as int;
                let w = self.w as int;
                let h = self.h as int;
                &&& ((r is Ok) <==> spec_gen_ok(seed, w, h))
                &&& (!(r is Ok) ==> r == Err::<(Vec<u32>, Vec2, Vec2), GenError>(
                    GenError::DegenerateStairs))
                &&& (r matches Ok(p) ==> {
                    &&& p.0@ == spec_final_grid(seed, w, h)
                    &&& p.0@.len() == w * h
                    &&& p.1 == spec_stairs_up(seed, w, h)
                    &&& p.2 == spec_stairs_down(seed, w, h)
                })
            }),
    {
        let ghost seed = self.seed as int;
        let ghost gw = self.w as int;
        let ghost gh = self.h as int;
        let b1: i64 = self.stairs_up_pick(picks, nc, ns);
        if b1 == -1 {
            proof {
                lemma_gen_ok_tie(seed, gw, gh);
            }
            return Err(GenError::DegenerateStairs);
        }
        let b2: i64 = self.stairs_down_pick(picks, nc, ns, b1);
        proof {
            lemma_gen_ok_tie(seed, gw, gh);
        }
        if b2 == -1 {
            return Err(GenError::DegenerateStairs);
        }
        Ok(self.finish_stairs(picks, grid0, nc, ns, b1, b2))
    }

    /// Places the room sites and the two stairs on a fresh coarse grid.
    fn place_sites(&mut self) -> (r: Result<(), GenError>)
        requires
            3 <= old(self).w <= COARSE_MAX,
            3 <= old(self).h <= COARSE_MAX,
        ensures
            final(self).seed == old(self).seed,
            final(self).floor == old(self).floor,
            final(self).w == old(self).w,
            final(self).h == old(self).h,
            final(self).dw == old(self).dw,
            final(self).dh == old(self).dh,
            final(self).distances@ == old(self).distances@,
            final(self).walldirs@ == old(self).walldirs@,
            !(r is Ok) ==> final(self).grid_type@ == old(self).grid_type@
                && final(self).stairs_up == old(self).stairs_up && final(self).stairs_down
                == old(self).stairs_down,
            ({
                let seed = old(self).seed as int;
                let w = old(self).w as int;
                let h = old(self).h as int;
                &&& ((r == Err::<(), GenError>(GenError::TooFewSites)) <==> n_cand(w, h) < 2)
                &&& ((r == Err::<(), GenError>(GenError::DegenerateStairs)) <==> (n_cand(w, h)
                    >= 2 && !spec_gen_ok(seed, w, h)))
                &&& ((r is Ok) <==> spec_gen_ok(seed, w, h))
                &&& ((r is Ok) ==> {
                    &&& final(self).grid_type@ == spec_final_grid(seed, w, h)
                    &&& final(self).stairs_up == spec_stairs_up(seed, w, h)
                    &&& final(self).stairs_down == spec_stairs_down(seed, w, h)
                    &&& final(self).wf_grid()
                })
            }),
    {
        let w: usize = self.w;
        let h: usize = self.h;
        proof {
            assert((w - 2) * (h - 2) <= w * h && w * h <= COARSE_MAX * COARSE_MAX)
                by (nonlinear_arith)
                requires
                    3 <= w <= COARSE_MAX,
                    3 <= h <= COARSE_MAX,
            ;
        }
        let nc: usize = (w - 2) * (h - 2);
        if nc < 2 {
            assert(!spec_gen_ok(self.seed as int, w as int, h as int)) by {
                reveal(spec_gen_ok);
            }
            return Err(GenError::TooFewSites);
        }
        let ns: usize = if nc < NUM_SITES {
            nc
        } else {
            NUM_SITES
        };
        let picks: Vec<usize> = self.select_sites(nc, ns);
        let grid0: Vec<u32> = self.mark_rooms(&picks, nc, ns);
        let placed: Result<(Vec<u32>, Vec2, Vec2), GenError> = self.place_stairs(&picks,
            grid0, nc, ns);
        match placed {
            Result::Err(e) => Err(e),
            Result::Ok(p) => {
                self.grid_type = p.0;
                self.stairs_up = p.1;
                self.stairs_down = p.2;
                Ok(())
            },
        }
    }

    /// Generates the floor: hashes the interior cells, keeps the lowest
    /// NUM_SITES as rooms, places the two stairs by a two-pass
    /// furthest-point search over the jittered sites, and rebuilds the
    /// distance field.
    pub fn gen(&mut self) -> (r: Result<(), GenError>)
        requires
            3 <= old(self).w <= COARSE_MAX,
            3 <= old(self).h <= COARSE_MAX,
            dims_ok(old(self).dw as int, old(self).dh as int),
        ensures
            final(self).seed == old(self).seed,
            final(self).floor == old(self).floor,
            final(self).w == old(self).w,
            final(self).h == old(self).h,
            final(self).dw == old(self).dw,
            final(self).dh == old(self).dh,
            ({
                let seed = old(self).seed as int;
                let w = old(self).w as int;
                let h = old(self).h as int;
                let dw = old(self).dw as int;
                let dh = old(self).dh as int;
                let m2 = GridModel { seed: seed, w: w, h: h, grid: spec_final_grid(seed, w,
                    h) };
                let fs = sep_final(spec_walk(m2, dw, dh), dw, dh);
                &&& ((r == Err::<(), GenError>(GenError::TooFewSites)) <==> n_cand(w, h) < 2)
                &&& ((r == Err::<(), GenError>(GenError::DegenerateStairs)) <==> (n_cand(w, h)
                    >= 2 && !spec_gen_ok(seed, w, h)))
                &&& ((r is Ok) <==> (spec_gen_ok(seed, w, h) && (forall|i: int| 0 <= i
                    < dw * dh ==> #[trigger] fs.ni[i] != -1)))
                &&& ((r is Ok) ==> {
                    &&& final(self).grid_type@ == spec_final_grid(seed, w, h)
                    &&& final(self).stairs_up == spec_stairs_up(seed, w, h)
                    &&& final(self).stairs_down == spec_stairs_down(seed, w, h)
                    &&& final(self).distances@ == fs.dist
                    &&& final(self).walldirs@ == Seq::new((dw * dh) as nat, |i: int| spec_dir(
                        fs, dw, dh, i))
                    &&& final(self).wf_grid()
                    &&& final(self).wf_field()
                    &&& forall|i: int| 0 <= i < dw * dh ==> ((#[trigger] final(
                        self).distances@[i] == 0) <==> !spec_walk(m2, dw, dh)[i])
                })
                &&& ((spec_gen_ok(seed, w, h) && !(r is Ok)) ==> r == Err::<(), GenError>(
                    GenError::Field(BuildError::Unresolved)))
                &&& ((r == Err::<(), GenError>(GenError::Field(BuildError::Unresolved))) ==> {
                    &&& final(self).grid_type@ == spec_final_grid(seed, w, h)
                    &&& final(self).stairs_up == spec_stairs_up(seed, w, h)
                    &&& final(self).stairs_down == spec_stairs_down(seed, w, h)
                    &&& final(self).distances@ == old(self).distances@
                    &&& final(self).walldirs@ == old(self).walldirs@
                })
                &&& ((r == Err::<(), GenError>(GenError::TooFewSites) || r == Err::<(),
                    GenError>(GenError::DegenerateStairs)) ==> {
                    &&& final(self).grid_type@ == old(self).grid_type@
                    &&& final(self).stairs_up == old(self).stairs_up
                    &&& final(self).stairs_down == old(self).stairs_down
                    &&& final(self).distances@ == old(self).distances@
                    &&& final(self).walldirs@ == old(self).walldirs@
                })
            }),
    {
        let placed: Result<(), GenError> = self.place_sites();
        match placed {
            Result::Err(e) => Err(e),
            Result::Ok(u) => {
                let built: Result<(), GenError> = self.gen_distances();
                match built {
                    Result::Ok(u2) => Ok(u2),
                    Result::Err(e2) => Err(e2),
                }
            },
        }
    }
}



/// The smaller of two integers.
pub open spec fn imin(a: int, b: int) -> int {
    if a < b { a } else { b }
}

/// Field cell under a coordinate, clamped so the cell to its right/below
/// also exists.
pub open spec fn spec_field_cell(p: int, n: int) -> int {
    imin(((n - 1) * p) / (SCALE as int), n - 2)
}

/// Fraction of the coordinate within its field cell, in [0, SCALE].
pub open spec fn spec_field_frac(p: int, n: int) -> int {
    (n - 1) * p - spec_field_cell(p, n) * SCALE
}

/// Conservative continuous wall distance: the minimum over the four field
/// cells around the point; zero outside the unit square.
pub open spec fn spec_wall_distance(dist: Seq<i64>, dw: int, dh: int, x: int, y: int) -> int {
    if x < 0 || y < 0 || x > SCALE || y > SCALE {
        0
    } else {
        let i = spec_field_cell(x, dw);
        let j = spec_field_cell(y, dh);
        let d1 = dist[j * dw + i] as int;
        let d2 = dist[j * dw + i + 1] as int;
        let d3 = dist[(j + 1) * dw + i] as int;
        let d4 = dist[(j + 1) * dw + i + 1] as int;
        imin(imin(d1, d2), imin(d3, d4))
    }
}

/// The clamped cell and fraction are in range for an in-square coordinate.
pub proof fn lemma_field_cell(p: int, n: int)
    requires
        0 <= p <= SCALE,
        2 <= n <= crate::distance_field::FIELD_MAX,
    ensures
        0 <= spec_field_cell(p, n) <= n - 2,
        0 <= spec_field_frac(p, n) <= SCALE,
{
    let q = ((n - 1) * p) / (SCALE as int);
    assert(0 <= (n - 1) * p <= (n - 1) * SCALE) by (nonlinear_arith)
        requires
            0 <= p <= SCALE,
            2 <= n,
    ;
    vstd::arithmetic::div_mod::lemma_fundamental_div_mod((n - 1) * p, SCALE as int);
    vstd::arithmetic::div_mod::lemma_mod_division_less_than_divisor((n - 1) * p,
        SCALE as int);
    assert(0 <= q <= n - 1) by (nonlinear_arith)
        requires
            (n - 1) * p == (SCALE as int) * q + ((n - 1) * p) % (SCALE as int),
            0 <= ((n - 1) * p) % (SCALE as int) < SCALE,
            0 <= (n - 1) * p <= (n - 1) * SCALE,
            SCALE >= 1,
            n >= 2,
    ;
    if q <= n - 2 {
        assert(spec_field_frac(p, n) == ((n - 1) * p) % (SCALE as int));
    } else {
        assert(q == n - 1);
        assert((n - 1) * p >= (SCALE as int) * (n - 1)) by (nonlinear_arith)
            requires
                (n - 1) * p == (SCALE as int) * q + ((n - 1) * p) % (SCALE as int),
                q == n - 1,
                0 <= ((n - 1) * p) % (SCALE as int),
        ;
        assert(p == SCALE && (n - 1) * p == (n - 1) * SCALE) by (nonlinear_arith)
            requires
                (n - 1) * p >= (SCALE as int) * (n - 1),
                p <= SCALE,
                n >= 2,
        ;
        assert(spec_field_frac(p, n) == (n - 1) * SCALE - (n - 2) * SCALE);
        assert((n - 1) * SCALE - (n - 2) * SCALE == SCALE) by (nonlinear_arith);
    }
}

/// The four surrounding cells exist.
pub proof fn lemma_field_index(i: int, j: int, dw: int, dh: int) by (nonlinear_arith)
    requires
        0 <= i <= dw - 2,
        0 <= j <= dh - 2,
        2 <= dw,
        2 <= dh,
    ensures
        0 <= j * dw + i,
        (j + 1) * dw + i + 1 < dw * dh,
        j * dw + i + 1 <= (j + 1) * dw + i,
{
}

/// The conservative wall distance of a non-negative field is non-negative.
pub proof fn lemma_wall_distance_nonneg(dist: Seq<i64>, dw: int, dh: int, x: int, y: int)
    requires
        dist.len() == dw * dh,
        2 <= dw <= crate::distance_field::FIELD_MAX,
        2 <= dh <= crate::distance_field::FIELD_MAX,
        forall|i: int| 0 <= i < dw * dh ==> 0 <= #[trigger] dist[i],
    ensures
        spec_wall_distance(dist, dw, dh, x, y) >= 0,
{
    if !(x < 0 || y < 0 || x > SCALE || y > SCALE) {
        lemma_field_cell(x, dw);
        lemma_field_cell(y, dh);
        lemma_field_index(spec_field_cell(x, dw), spec_field_cell(y, dh), dw, dh);
    }
}

impl Level {
    /// Conservative distance to the nearest wall: the minimum of the four
    /// field cells around the point, zero outside the unit square (solid).
    pub fn wall_distance(&self, p: Vec2) -> (r: i64)
        requires
            self.wf_field(),
        ensures
            r == spec_wall_distance(self.distances@, self.dw as int, self.dh as int,
                p.x as int, p.y as int),
            r >= 0,
            (p.x < 0 || p.y < 0 || p.x > SCALE || p.y > SCALE) ==> r == 0,
    {
        if p.x < 0 || p.y < 0 || p.x > SCALE || p.y > SCALE {
            return 0;
        }
        proof {
            lemma_field_cell(p.x as int, self.dw as int);
            lemma_field_cell(p.y as int, self.dh as int);
            lemma_field_index(spec_field_cell(p.x as int, self.dw as int), spec_field_cell(
                p.y as int, self.dh as int), self.dw as int, self.dh as int);
        }
        let dw: usize = self.dw;
        let dh: usize = self.dh;
        let qi: i64 = ((dw as i64 - 1) * p.x) / SCALE;
        let qj: i64 = ((dh as i64 - 1) * p.y) / SCALE;
        let i: usize = if qi > dw as i64 - 2 {
            dw - 2
        } else {
            qi as usize
        };
        let j: usize = if qj > dh as i64 - 2 {
            dh - 2
        } else {
            qj as usize
        };
        proof {
            assert((j as int) * (dw as int) + i as int + 1 < dw * dh && (j as int + 1)
                * (dw as int) + i as int + 1 < dw * dh && dw * dh <= 0x40000000)
                by (nonlinear_arith)
                requires
                    i as int <= dw - 2,
                    j as int <= dh - 2,
                    2 <= dw <= 32768,
                    2 <= dh <= 32768,
            ;
        }
        let d1: i64 = self.distances[j * dw + i];
        let d2: i64 = self.distances[j * dw + i + 1];
        let d3: i64 = self.distances[(j + 1) * dw + i];
        let d4: i64 = self.distances[(j + 1) * dw + i + 1];
        let m1: i64 = if d1 < d2 {
            d1
        } else {
            d2
        };
        let m2: i64 = if d3 < d4 {
            d3
        } else {
            d4
        };
        if m1 < m2 {
            m1
        } else {
            m2
        }
    }
}

/// Smoothed direction away from the nearest wall: bilinear interpolation of
/// the four surrounding direction cells; zero outside the unit square.
pub open spec fn spec_wall_dir(dirs: Seq<Vec2>, dw: int, dh: int, x: int, y: int) -> Vec2 {
    if x < 0 || y < 0 || x > SCALE || y > SCALE {
        Vec2 { x: 0, y: 0 }
    } else {
        let i = spec_field_cell(x, dw);
        let j = spec_field_cell(y, dh);
        let fx = spec_field_frac(x, dw);
        let fy = spec_field_frac(y, dh);
        let d1 = dirs[j * dw + i];
        let d2 = dirs[j * dw + i + 1];
        let d3 = dirs[(j + 1) * dw + i];
        let d4 = dirs[(j + 1) * dw + i + 1];
        Vec2 {
            x: spec_lerp(spec_lerp(d1.x as int, d2.x as int, fx), spec_lerp(d3.x as int,
                d4.x as int, fx), fy) as i64,
            y: spec_lerp(spec_lerp(d1.y as int, d2.y as int, fx), spec_lerp(d3.y as int,
                d4.y as int, fx), fy) as i64,
        }
    }
}

impl Level {
    /// Smoothed direction away from the nearest wall.
    pub fn wall_dir(&self, p: Vec2) -> (r: Vec2)
        requires
            self.wf_field(),
        ensures
            r == spec_wall_dir(self.walldirs@, self.dw as int, self.dh as int, p.x as int,
                p.y as int),
            -SCALE <= r.x <= SCALE,
            -SCALE <= r.y <= SCALE,
    {
        if p.x < 0 || p.y < 0 || p.x > SCALE || p.y > SCALE {
            return Vec2 { x: 0, y: 0 };
        }
        proof {
            lemma_field_cell(p.x as int, self.dw as int);
            lemma_field_cell(p.y as int, self.dh as int);
            lemma_field_index(spec_field_cell(p.x as int, self.dw as int), spec_field_cell(
                p.y as int, self.dh as int), self.dw as int, self.dh as int);
        }
        let dw: usize = self.dw;
        let dh: usize = self.dh;
        let qi: i64 = ((dw as i64 - 1) * p.x) / SCALE;
        let qj: i64 = ((dh as i64 - 1) * p.y) / SCALE;
        let i: usize = if qi > dw as i64 - 2 {
            dw - 2
        } else {
            qi as usize
        };
        let j: usize = if qj > dh as i64 - 2 {
            dh - 2
        } else {
            qj as usize
        };
        let fx: i64 = (dw as i64 - 1) * p.x - (i as i64) * SCALE;
        let fy: i64 = (dh as i64 - 1) * p.y - (j as i64) * SCALE;
        proof {
            assert((j as int) * (dw as int) + i as int + 1 < dw * dh && (j as int + 1)
                * (dw as int) + i as int + 1 < dw * dh && dw * dh <= 0x40000000)
                by (nonlinear_arith)
                requires
                    i as int <= dw - 2,
                    j as int <= dh - 2,
                    2 <= dw <= 32768,
                    2 <= dh <= 32768,
            ;
        }
        let d1: Vec2 = self.walldirs[j * dw + i];
        let d2: Vec2 = self.walldirs[j * dw + i + 1];
        let d3: Vec2 = self.walldirs[(j + 1) * dw + i];
        let d4: Vec2 = self.walldirs[(j + 1) * dw + i + 1];
        let ax: i64 = lerp(d1.x, d2.x, fx);
        let bx: i64 = lerp(d3.x, d4.x, fx);
        let ay: i64 = lerp(d1.y, d2.y, fx);
        let by: i64 = lerp(d3.y, d4.y, fx);
        proof {
            lemma_lerp_bounds(d1.x as int, d2.x as int, fx as int);
            lemma_lerp_bounds(d3.x as int, d4.x as int, fx as int);
            lemma_lerp_bounds(d1.y as int, d2.y as int, fx as int);
            lemma_lerp_bounds(d3.y as int, d4.y as int, fx as int);
        }
        let rx: i64 = lerp(ax, bx, fy);
        let ry: i64 = lerp(ay, by, fy);
        proof {
            lemma_lerp_bounds(ax as int, bx as int, fy as int);
            lemma_lerp_bounds(ay as int, by as int, fy as int);
        }
        Vec2 { x: rx, y: ry }
    }
}

/// Iteration cap of the sphere march: a defensive measure against
/// pathological near-zero distances close to a boundary.
pub const RAY_MAX_STEPS: usize = 10000;

/// Accumulated-distance cap of the sphere march, far beyond any segment the
/// unit square can hold.
pub const RAY_ACC_MAX: i64 = 262144;

/// One sphere-march recursion: advance by the conservative wall distance,
/// report a hit when it reaches zero, give up past the segment end, the
/// distance cap or the fuel.
pub open spec fn spec_ray(dist: Seq<i64>, dw: int, dh: int, p1: Vec2, udir: Vec2, umag: int,
    acc: int, fuel: nat) -> Option<i64>
    decreases fuel,
{
    if fuel == 0 {
        None
    } else if acc >= umag {
        None
    } else {
        let px = p1.x + acc * udir.x / (SCALE as int);
        let py = p1.y + acc * udir.y / (SCALE as int);
        let d = spec_wall_distance(dist, dw, dh, px, py);
        if d <= 0 {
            Some(acc as i64)
        } else if acc + d > RAY_ACC_MAX {
            None
        } else {
            spec_ray(dist, dw, dh, p1, udir, umag, acc + d, (fuel - 1) as nat)
        }
    }
}

/// The full ray query: normalize the segment, then sphere-march along it.
pub open spec fn spec_rayhit(dist: Seq<i64>, dw: int, dh: int, p1: Vec2, p2: Vec2)
    -> Option<i64> {
    let ux = p2.x - p1.x;
    let uy = p2.y - p1.y;
    let umag = spec_isqrt(ux * ux + uy * uy);
    if umag == 0 {
        None
    } else {
        let udir = Vec2 { x: (ux * SCALE / umag) as i64, y: (uy * SCALE / umag) as i64 };
        spec_ray(dist, dw, dh, p1, udir, umag, 0, RAY_MAX_STEPS as nat)
    }
}

/// A reported hit lies on the segment, at a point whose conservative wall
/// distance is exactly zero.
pub proof fn lemma_ray_hit(dist: Seq<i64>, dw: int, dh: int, p1: Vec2, udir: Vec2, umag: int,
    acc: int, fuel: nat)
    requires
        dist.len() == dw * dh,
        2 <= dw <= crate::distance_field::FIELD_MAX,
        2 <= dh <= crate::distance_field::FIELD_MAX,
        forall|i: int| 0 <= i < dw * dh ==> 0 <= #[trigger] dist[i],
        0 <= acc <= RAY_ACC_MAX,
    ensures
        ({
            let r = spec_ray(dist, dw, dh, p1, udir, umag, acc, fuel);
            r matches Some(t) ==> {
                &&& acc <= t < umag
                &&& spec_wall_distance(dist, dw, dh, p1.x + t * udir.x / (SCALE as int),
                    p1.y + t * udir.y / (SCALE as int)) == 0
            }
        }),
    decreases fuel,
{
    if fuel > 0 && acc < umag {
        let px = p1.x + acc * udir.x / (SCALE as int);
        let py = p1.y + acc * udir.y / (SCALE as int);
        lemma_wall_distance_nonneg(dist, dw, dh, px, py);
        let d = spec_wall_distance(dist, dw, dh, px, py);
        if d > 0 && acc + d <= RAY_ACC_MAX {
            lemma_ray_hit(dist, dw, dh, p1, udir, umag, acc + d, (fuel - 1) as nat);
        }
    }
}

impl Level {
    /// Sphere-marches from p1 toward p2: advances by the conservative wall
    /// distance until it hits a wall (Some, with the distance travelled) or
    /// the segment ends (None). A zero-length ray never hits.
    pub fn ray_intersects_wall(&self, p1: Vec2, p2: Vec2) -> (r: Option<i64>)
        requires
            self.wf_field(),
            -2 * SCALE <= p1.x <= 2 * SCALE,
            -2 * SCALE <= p1.y <= 2 * SCALE,
            -2 * SCALE <= p2.x <= 2 * SCALE,
            -2 * SCALE <= p2.y <= 2 * SCALE,
        ensures
            r == spec_rayhit(self.distances@, self.dw as int, self.dh as int, p1, p2),
            p1 == p2 ==> r is None,
            r matches Some(t) ==> 0 <= t && spec_wall_distance(self.distances@,
                self.dw as int, self.dh as int, p1.x + t * ((p2.x - p1.x) * SCALE
                / spec_isqrt((p2.x - p1.x) * (p2.x - p1.x) + (p2.y - p1.y) * (p2.y - p1.y)))
                / (SCALE as int), p1.y + t * ((p2.y - p1.y) * SCALE / spec_isqrt((p2.x
                - p1.x) * (p2.x - p1.x) + (p2.y - p1.y) * (p2.y - p1.y))) / (SCALE as int))
                == 0,
    {
        let ux: i64 = p2.x - p1.x;
        let uy: i64 = p2.y - p1.y;
        proof {
            assert(0 <= ux * ux <= 16 * SCALE * SCALE && 0 <= uy * uy <= 16 * SCALE * SCALE)
                by (nonlinear_arith)
                requires
                    -4 * SCALE <= ux <= 4 * SCALE,
                    -4 * SCALE <= uy <= 4 * SCALE,
            ;
        }
        let umag: i64 = isqrt(ux * ux + uy * uy);
        if umag == 0 {
            return None;
        }
        proof {
            assert(-umag <= ux <= umag && -umag <= uy <= umag) by (nonlinear_arith)
                requires
                    is_isqrt(ux * ux + uy * uy, umag as int),
                    umag >= 1,
            ;
            assert(-SCALE <= ux * SCALE / (umag as int) <= SCALE && -SCALE <= uy * SCALE
                / (umag as int) <= SCALE) by (nonlinear_arith)
                requires
                    -umag <= ux <= umag,
                    -umag <= uy <= umag,
                    umag >= 1,
                    SCALE >= 1,
            ;
        }
        let udx: i64 = floor_div(ux * SCALE, umag);
        let udy: i64 = floor_div(uy * SCALE, umag);
        let udir: Vec2 = Vec2 { x: udx, y: udy };
        let ghost target = spec_ray(self.distances@, self.dw as int, self.dh as int, p1, udir,
            umag as int, 0, RAY_MAX_STEPS as nat);
        proof {
            lemma_ray_hit(self.distances@, self.dw as int, self.dh as int, p1, udir,
                umag as int, 0, RAY_MAX_STEPS as nat);
            assert(target == spec_rayhit(self.distances@, self.dw as int, self.dh as int, p1,
                p2));
            if p1 == p2 {
                crate::fixed::lemma_isqrt_witness(0, 0);
            }
        }
        let mut acc: i64 = 0;
        let mut rem: usize = RAY_MAX_STEPS;
        while rem > 0
            invariant_except_break
                self.wf_field(),
                0 <= acc <= RAY_ACC_MAX,
                -SCALE <= udir.x <= SCALE,
                -SCALE <= udir.y <= SCALE,
                -2 * SCALE <= p1.x <= 2 * SCALE,
                -2 * SCALE <= p1.y <= 2 * SCALE,
                1 <= umag,
                p1 != p2,
                umag == spec_isqrt((p2.x - p1.x) * (p2.x - p1.x) + (p2.y - p1.y) * (p2.y
                    - p1.y)),
                udir.x == (p2.x - p1.x) * SCALE / (umag as int),
                udir.y == (p2.y - p1.y) * SCALE / (umag as int),
                target == spec_rayhit(self.distances@, self.dw as int, self.dh as int, p1,
                    p2),
                (target matches Some(t) ==> 0 <= t < umag && spec_wall_distance(
                    self.distances@, self.dw as int, self.dh as int, p1.x + t * udir.x
                    / (SCALE as int), p1.y + t * udir.y / (SCALE as int)) == 0),
                spec_ray(self.distances@, self.dw as int, self.dh as int, p1, udir,
                    umag as int, acc as int, rem as nat) == target,
            ensures
                spec_ray(self.distances@, self.dw as int, self.dh as int, p1, udir,
                    umag as int, acc as int, rem as nat) == target,
                rem == 0,
            decreases rem,
        {
            if acc >= umag {
                proof {
                    assert(target is None);
                }
                return None;
            }
            proof {
                assert(-RAY_ACC_MAX * SCALE <= acc * udir.x <= RAY_ACC_MAX * SCALE
                    && -RAY_ACC_MAX * SCALE <= acc * udir.y <= RAY_ACC_MAX * SCALE)
                    by (nonlinear_arith)
                    requires
                        0 <= acc <= RAY_ACC_MAX,
                        -SCALE <= udir.x <= SCALE,
                        -SCALE <= udir.y <= SCALE,
                ;
            }
            let px: i64 = p1.x + floor_div(acc * udir.x, SCALE);
            let py: i64 = p1.y + floor_div(acc * udir.y, SCALE);
            let d: i64 = self.wall_distance(Vec2 { x: px, y: py });
            if d <= 0 {
                return Some(acc);
            }
            if d > RAY_ACC_MAX || acc > RAY_ACC_MAX - d {
                return None;
            }
            acc = acc + d;
            rem = rem - 1;
        }
        None
    }
}


/// The circle-collision response: None when the wall is at least the
/// radius away, else the smoothed away-from-wall direction scaled by the
/// overlap.
pub open spec fn spec_collide_circle(dist: Seq<i64>, dirs: Seq<Vec2>, dw: int, dh: int,
    p: Vec2, r: int) -> Option<Vec2> {
    let d = spec_wall_distance(dist, dw, dh, p.x as int, p.y as int);
    let dir = spec_wall_dir(dirs, dw, dh, p.x as int, p.y as int);
    let overlap = r - d;
    if overlap <= 0 {
        None
    } else {
        Some(Vec2 {
            x: (dir.x * overlap / (SCALE as int)) as i64,
            y: (dir.y * overlap / (SCALE as int)) as i64,
        })
    }
}

impl Level {
    /// Circle-vs-wall collision response: no collision exactly when the
    /// conservative wall distance is at least the radius; otherwise the
    /// push-out vector, the smoothed wall direction scaled by the overlap.
    pub fn collide_circle(&self, p: Vec2, r: i64) -> (out: Option<Vec2>)
        requires
            self.wf_field(),
            0 <= r <= SCALE,
        ensures
            out == spec_collide_circle(self.distances@, self.walldirs@, self.dw as int,
                self.dh as int, p, r as int),
            (out is None) <==> spec_wall_distance(self.distances@, self.dw as int,
                self.dh as int, p.x as int, p.y as int) >= r,
            out matches Some(v) ==> {
                let overlap = r - spec_wall_distance(self.distances@, self.dw as int,
                    self.dh as int, p.x as int, p.y as int);
                let dir = spec_wall_dir(self.walldirs@, self.dw as int, self.dh as int,
                    p.x as int, p.y as int);
                &&& overlap > 0
                &&& v.x == dir.x * overlap / (SCALE as int)
                &&& v.y == dir.y * overlap / (SCALE as int)
            },
    {
        let d: i64 = self.wall_distance(p);
        let dir: Vec2 = self.wall_dir(p);
        let overlap: i64 = r - d;
        if overlap <= 0 {
            return None;
        }
        proof {
            assert(-SCALE * SCALE <= dir.x * overlap <= SCALE * SCALE && -SCALE * SCALE
                <= dir.y * overlap <= SCALE * SCALE) by (nonlinear_arith)
                requires
                    -SCALE <= dir.x <= SCALE,
                    -SCALE <= dir.y <= SCALE,
                    0 < overlap <= SCALE,
            ;
        }
        Some(Vec2 { x: floor_div(dir.x * overlap, SCALE), y: floor_div(dir.y * overlap,
            SCALE) })
    }
}

/// Fixed-point offsets of the eight compass samples around a point: cosine
/// and sine of k * 45 degrees, scaled to SCALE.
pub open spec fn spec_circle_offset(k: int) -> (int, int) {
    if k == 0 { (SCALE as int, 0) }
    else if k == 1 { (DIAG_UNIT as int, DIAG_UNIT as int) }
    else if k == 2 { (0, SCALE as int) }
    else if k == 3 { (-(DIAG_UNIT as int), DIAG_UNIT as int) }
    else if k == 4 { (-(SCALE as int), 0) }
    else if k == 5 { (-(DIAG_UNIT as int), -(DIAG_UNIT as int)) }
    else if k == 6 { (0, -(SCALE as int)) }
    else { ((DIAG_UNIT as int), -(DIAG_UNIT as int)) }
}

/// cos(45 degrees) in fixed point.
pub const DIAG_UNIT: i64 = 46341;

/// Walkable-sample accumulator of the classifier-based normal estimate:
/// how many of the first k compass samples at radius r are walkable, and
/// the sum of their offsets.
pub open spec fn spec_normal_acc(m: GridModel, p: Vec2, r: int, k: int) -> (int, int, int)
    decreases k,
{
    if k <= 0 {
        (0, 0, 0)
    } else {
        let prev = spec_normal_acc(m, p, r, k - 1);
        let off = spec_circle_offset(k - 1);
        let ox = r * off.0 / (SCALE as int);
        let oy = r * off.1 / (SCALE as int);
        if spec_point(m, p.x + ox, p.y + oy).walkable {
            (prev.0 + 1, prev.1 + ox, prev.2 + oy)
        } else {
            prev
        }
    }
}

/// The classifier-based normal estimate: the normalized average offset of
/// the walkable compass samples, or None when no sample is walkable (or
/// the average cancels to zero).
pub open spec fn spec_estimate_normal(m: GridModel, p: Vec2, r: int) -> Option<Vec2> {
    let acc = spec_normal_acc(m, p, r, 8);
    if acc.0 == 0 {
        None
    } else {
        let ax = acc.1 / acc.0;
        let ay = acc.2 / acc.0;
        let mag = spec_isqrt(ax * ax + ay * ay);
        if mag == 0 {
            None
        } else {
            Some(Vec2 {
                x: (ax * SCALE / mag) as i64,
                y: (ay * SCALE / mag) as i64,
            })
        }
    }
}

impl Level {
    /// Estimates the open-space normal from the classifier alone: samples
    /// eight points around p at radius r, averages the offsets of the
    /// walkable ones and normalizes. None when the point is fully enclosed
    /// (no sample walkable) — and, deliberately, also in the degenerate case
    /// where the walkable offsets cancel to a zero average, where no
    /// direction can be normalized out of nothing and real-valued arithmetic
    /// would produce an undefined vector.
    pub fn estimate_normal(&self, p: Vec2, r: i64) -> (out: Option<Vec2>)
        requires
            self.wf_grid(),
            -2 * SCALE <= p.x <= 2 * SCALE,
            -2 * SCALE <= p.y <= 2 * SCALE,
            0 <= r <= SCALE,
        ensures
            out == spec_estimate_normal(self.model(), p, r as int),
            ({
                let acc = spec_normal_acc(self.model(), p, r as int, 8);
                let mag = spec_isqrt((acc.1 / acc.0) * (acc.1 / acc.0) + (acc.2 / acc.0)
                    * (acc.2 / acc.0));
                (out is None) <==> (acc.0 == 0 || mag == 0)
            }),
            spec_normal_acc(self.model(), p, r as int, 8).0 == 0 ==> out is None,
    {
        let mut count: i64 = 0;
        let mut ax: i64 = 0;
        let mut ay: i64 = 0;
        let mut k: usize = 0;
        while k < 8
            invariant
                k <= 8,
                self.wf_grid(),
                -2 * SCALE <= p.x <= 2 * SCALE,
                -2 * SCALE <= p.y <= 2 * SCALE,
                0 <= r <= SCALE,
                (count as int, ax as int, ay as int) == spec_normal_acc(self.model(), p,
                    r as int, k as int),
                0 <= count <= k,
                -(k as int) * SCALE <= ax <= (k as int) * SCALE,
                -(k as int) * SCALE <= ay <= (k as int) * SCALE,
            decreases 8 - k,
        {
            let off: (i64, i64) = if k == 0 {
                (SCALE, 0)
            } else if k == 1 {
                (DIAG_UNIT, DIAG_UNIT)
            } else if k == 2 {
                (0, SCALE)
            } else if k == 3 {
                (-DIAG_UNIT, DIAG_UNIT)
            } else if k == 4 {
                (-SCALE, 0)
            } else if k == 5 {
                (-DIAG_UNIT, -DIAG_UNIT)
            } else if k == 6 {
                (0, -SCALE)
            } else {
                (DIAG_UNIT, -DIAG_UNIT)
            };
            proof {
                assert(-SCALE * SCALE <= r * off.0 <= SCALE * SCALE && -SCALE * SCALE
                    <= r * off.1 <= SCALE * SCALE) by (nonlinear_arith)
                    requires
                        0 <= r <= SCALE,
                        -SCALE <= off.0 <= SCALE,
                        -SCALE <= off.1 <= SCALE,
                ;
            }
            let ox: i64 = floor_div(r * off.0, SCALE);
            let oy: i64 = floor_div(r * off.1, SCALE);
            proof {
                assert(-SCALE <= ox <= SCALE && -SCALE <= oy <= SCALE) by (nonlinear_arith)
                    requires
                        -SCALE * SCALE <= r * off.0 <= SCALE * SCALE,
                        -SCALE * SCALE <= r * off.1 <= SCALE * SCALE,
                        ox == r * off.0 / (SCALE as int),
                        oy == r * off.1 / (SCALE as int),
                        SCALE >= 1,
                ;
            }
            let pp: PointProperties = self.point(p.x + ox, p.y + oy);
            if pp.walkable {
                count = count + 1;
                ax = ax + ox;
                ay = ay + oy;
            }
            k = k + 1;
        }
        if count == 0 {
            return None;
        }
        let vx: i64 = floor_div(ax, count);
        let vy: i64 = floor_div(ay, count);
        proof {
            assert(-8 * SCALE <= vx <= 8 * SCALE && -8 * SCALE <= vy <= 8 * SCALE)
                by (nonlinear_arith)
                requires
                    vx == ax as int / count as int,
                    vy == ay as int / count as int,
                    -8 * SCALE <= ax <= 8 * SCALE,
                    -8 * SCALE <= ay <= 8 * SCALE,
                    1 <= count,
            ;
            assert(0 <= vx * vx + vy * vy <= 128 * SCALE * SCALE && 0 <= vx * vx && 0
                <= vy * vy) by (nonlinear_arith)
                requires
                    -8 * SCALE <= vx <= 8 * SCALE,
                    -8 * SCALE <= vy <= 8 * SCALE,
            ;
        }
        let mag: i64 = isqrt(vx * vx + vy * vy);
        if mag == 0 {
            return None;
        }
        proof {
            assert(-mag <= vx <= mag && -mag <= vy <= mag) by (nonlinear_arith)
                requires
                    is_isqrt(vx * vx + vy * vy, mag as int),
                    mag >= 1,
            ;
            assert(-8 * SCALE * SCALE <= vx * SCALE <= 8 * SCALE * SCALE && -8 * SCALE
                * SCALE <= vy * SCALE <= 8 * SCALE * SCALE && -SCALE <= vx * SCALE
                / (mag as int) <= SCALE && -SCALE <= vy * SCALE / (mag as int) <= SCALE)
                by (nonlinear_arith)
                requires
                    -mag <= vx <= mag,
                    -mag <= vy <= mag,
                    mag >= 1,
                    -8 * SCALE <= vx <= 8 * SCALE,
                    -8 * SCALE <= vy <= 8 * SCALE,
                    SCALE >= 1,
            ;
        }
        Some(Vec2 { x: floor_div(vx * SCALE, mag), y: floor_div(vy * SCALE, mag) })
    }
}

/// Generation is deterministic: two floors generated from the same seed,
/// the same coarse dimensions and the same field resolution are
/// bit-for-bit identical — coarse grid, stairs and distance field alike.
pub proof fn lemma_generate_deterministic(l1: Level, l2: Level)
    requires
        l1.seed == l2.seed,
        l1.w == l2.w,
        l1.h == l2.h,
        l1.dw == l2.dw,
        l1.dh == l2.dh,
        l1.grid_type@ == spec_final_grid(l1.seed as int, l1.w as int, l1.h as int),
        l2.grid_type@ == spec_final_grid(l2.seed as int, l2.w as int, l2.h as int),
        l1.stairs_up == spec_stairs_up(l1.seed as int, l1.w as int, l1.h as int),
        l2.stairs_up == spec_stairs_up(l2.seed as int, l2.w as int, l2.h as int),
        l1.stairs_down == spec_stairs_down(l1.seed as int, l1.w as int, l1.h as int),
        l2.stairs_down == spec_stairs_down(l2.seed as int, l2.w as int, l2.h as int),
        l1.distances@ == sep_final(spec_walk(l1.model(), l1.dw as int, l1.dh as int),
            l1.dw as int, l1.dh as int).dist,
        l2.distances@ == sep_final(spec_walk(l2.model(), l2.dw as int, l2.dh as int),
            l2.dw as int, l2.dh as int).dist,
        l1.walldirs@ == Seq::new((l1.dw * l1.dh) as nat, |i: int| spec_dir(sep_final(
            spec_walk(l1.model(), l1.dw as int, l1.dh as int), l1.dw as int, l1.dh as int),
            l1.dw as int, l1.dh as int, i)),
        l2.walldirs@ == Seq::new((l2.dw * l2.dh) as nat, |i: int| spec_dir(sep_final(
            spec_walk(l2.model(), l2.dw as int, l2.dh as int), l2.dw as int, l2.dh as int),
            l2.dw as int, l2.dh as int, i)),
    ensures
        l1.grid_type@ == l2.grid_type@,
        l1.stairs_up == l2.stairs_up,
        l1.stairs_down == l2.stairs_down,
        l1.distances@ == l2.distances@,
        l1.walldirs@ == l2.walldirs@,
{
    assert(l1.model() == l2.model());
    assert(l1.walldirs@ =~= l2.walldirs@);
}

} // verus!
