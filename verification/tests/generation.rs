use dungeon_field::level::{Level, Vec2, GenError, CLOSED, ENEMY_SITE, STAIRS_DOWN, STAIRS_UP};
use dungeon_field::fixed::SCALE;

fn fresh_level(seed: u32, w: usize, h: usize, dw: usize, dh: usize) -> Level {
    Level {
        seed,
        floor: 0,
        w,
        h,
        grid_type: Vec::new(),
        stairs_up: Vec2 { x: 0, y: 0 },
        stairs_down: Vec2 { x: 0, y: 0 },
        distances: Vec::new(),
        walldirs: Vec::new(),
        dw,
        dh,
    }
}

#[test]
fn test_level() {
    let mut l = fresh_level(1, 8, 8, 64, 64);
    l.gen().expect("generation should succeed on an 8x8 floor");
    // sample the classifier over a grid of points, as the original level
    // render does, and check the reported owner cell is always on the grid
    let n = 40;
    let mut walkable_count = 0;
    for i in 0..n {
        for j in 0..n {
            let x = i as i64 * SCALE / n;
            let y = j as i64 * SCALE / n;
            let pp = l.point(x, y);
            assert!(pp.ni < l.w);
            assert!(pp.nj < l.h);
            assert!(pp.d >= 0);
            if pp.walkable {
                walkable_count += 1;
            }
            let _ = l.grid_type[pp.nj * l.w + pp.ni];
        }
    }
    // a generated floor has both open and closed regions
    assert!(walkable_count > 0);
    assert!(walkable_count < n * n);
    // the cached field has the requested resolution
    assert_eq!(l.distances.len(), l.dw * l.dh);
    assert_eq!(l.walldirs.len(), l.dw * l.dh);
}

#[test]
fn generate_is_deterministic() {
    // P6: identical inputs give bit-for-bit identical floors
    let mut a = fresh_level(42, 8, 8, 32, 32);
    let mut b = fresh_level(42, 8, 8, 32, 32);
    a.gen().expect("generation should succeed");
    b.gen().expect("generation should succeed");
    assert_eq!(a.grid_type, b.grid_type);
    assert_eq!(a.stairs_up, b.stairs_up);
    assert_eq!(a.stairs_down, b.stairs_down);
    assert_eq!(a.distances, b.distances);
    assert_eq!(a.walldirs, b.walldirs);
}

#[test]
fn stairs_placement_seed42() {
    // P7: seed 42, floor 0, an 8x8 coarse grid, 15 sites: exactly one
    // stairs-up and one stairs-down cell, and the stairs pair is further
    // apart than the median pairwise squared distance among the sites
    let mut l = fresh_level(42, 8, 8, 32, 32);
    l.floor = 0;
    l.gen().expect("generation should succeed");
    let mut ups = 0;
    let mut downs = 0;
    let mut sites: Vec<(usize, usize)> = Vec::new();
    for j in 0..l.h {
        for i in 0..l.w {
            let t = l.grid_type[j * l.w + i];
            if t != CLOSED {
                sites.push((i, j));
            }
            if t == STAIRS_UP {
                ups += 1;
            }
            if t == STAIRS_DOWN {
                downs += 1;
            }
        }
    }
    assert_eq!(ups, 1);
    assert_eq!(downs, 1);
    assert_eq!(sites.len(), 15);
    let mut d2s: Vec<i64> = Vec::new();
    for a in 0..sites.len() {
        for b in (a + 1)..sites.len() {
            let pa = l.cell_xy(sites[a].0, sites[a].1);
            let pb = l.cell_xy(sites[b].0, sites[b].1);
            let dx = pa.x - pb.x;
            let dy = pa.y - pb.y;
            d2s.push(dx * dx + dy * dy);
        }
    }
    d2s.sort();
    let median = d2s[d2s.len() / 2];
    let sdx = l.stairs_up.x - l.stairs_down.x;
    let sdy = l.stairs_up.y - l.stairs_down.y;
    assert!(sdx * sdx + sdy * sdy > median);
}

#[test]
fn too_few_sites_is_an_error() {
    // a 3x3 grid has a single interior cell: stairs placement would be
    // meaningless
    let mut l = fresh_level(7, 3, 3, 32, 32);
    assert_eq!(l.gen(), Err(GenError::TooFewSites));
}

#[test]
fn walkable_matches_field_distance() {
    // P8: a walkable point yields a positive wall distance; a point deep
    // inside a wall yields zero
    let mut l = fresh_level(42, 8, 8, 64, 64);
    l.gen().expect("generation should succeed");
    let dw = l.dw as i64;
    let dh = l.dh as i64;
    let mut checked_open = false;
    let mut checked_solid = false;
    for i in 2..(dw - 2) {
        for j in 2..(dh - 2) {
            let x = (2 * i + 1) * SCALE / (2 * dw);
            let y = (2 * j + 1) * SCALE / (2 * dh);
            let pp = l.point(x, y);
            if pp.walkable && !checked_open {
                // the point's own cell is open, so the conservative wall
                // distance can only vanish within one cell of a wall;
                // require a strictly positive distance at an open point
                // whose neighbourhood is open too
                let mut all_open = true;
                for di in -1i64..=1 {
                    for dj in -1i64..=1 {
                        let nx = (2 * (i + di) + 1) * SCALE / (2 * dw);
                        let ny = (2 * (j + dj) + 1) * SCALE / (2 * dh);
                        if !l.point(nx, ny).walkable {
                            all_open = false;
                        }
                    }
                }
                if all_open {
                    assert!(l.wall_distance(Vec2 { x, y }) > 0);
                    checked_open = true;
                }
            }
            if !pp.walkable && !checked_solid {
                let mut all_solid = true;
                for di in -1i64..=1 {
                    for dj in -1i64..=1 {
                        let nx = (2 * (i + di) + 1) * SCALE / (2 * dw);
                        let ny = (2 * (j + dj) + 1) * SCALE / (2 * dh);
                        if l.point(nx, ny).walkable {
                            all_solid = false;
                        }
                    }
                }
                if all_solid {
                    let wd = l.wall_distance(Vec2 { x, y });
                    assert!(wd <= SCALE / dw);
                    checked_solid = true;
                }
            }
        }
    }
    assert!(checked_open);
    assert!(checked_solid);
}
