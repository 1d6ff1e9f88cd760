use dungeon_field::distance_field::{gen_distance_field_djikstra, gen_distance_field_sep,
    gen_distance_field_shitty, BuildError, D_UNSET};
use dungeon_field::noise::noise2d;
use dungeon_field::fixed::{SCALE, isqrt};

fn noise_walk(w: usize, h: usize, freq: i64, seed: u64, threshold: i64) -> Vec<bool> {
    let mut walk = Vec::new();
    for j in 0..h {
        for i in 0..w {
            let x = (2 * i as i64 + 1) * SCALE / (2 * w as i64);
            let y = (2 * j as i64 + 1) * SCALE / (2 * h as i64);
            walk.push(noise2d(freq * x, freq * y, seed) > threshold);
        }
    }
    walk
}

#[test]
fn test_distance_field() {
    let w = 32;
    let h = 32;
    let walk = noise_walk(w, h, 16, 721, 29491);
    assert!(walk.iter().any(|&b| b));
    assert!(walk.iter().any(|&b| !b));

    let dd = gen_distance_field_djikstra(&walk, w, h).expect("dijkstra build");
    assert_eq!(dd.len(), w * h);
    let ds = gen_distance_field_shitty(&walk, w, h).expect("flood build");
    assert_eq!(ds.len(), w * h);
    let (dp, dirs) = gen_distance_field_sep(&walk, w, h).expect("sweep build");
    assert_eq!(dp.len(), w * h);
    assert_eq!(dirs.len(), w * h);

    for idx in 0..w * h {
        // P1: non-negative, and no unresolved sentinel
        assert!(dd[idx] >= 0 && dd[idx] < D_UNSET);
        assert!(ds[idx] >= 0 && ds[idx] < D_UNSET);
        assert!(dp[idx] >= 0 && dp[idx] < D_UNSET);
        // P2: the zero set is shared by all three variants: exactly the
        // non-walkable cells
        assert_eq!(dd[idx] == 0, !walk[idx]);
        assert_eq!(ds[idx] == 0, !walk[idx]);
        assert_eq!(dp[idx] == 0, !walk[idx]);
        // the direction away from the obstruction is a unit-ish vector on
        // open cells and zero on obstruction cells
        let m2 = dirs[idx].x * dirs[idx].x + dirs[idx].y * dirs[idx].y;
        if walk[idx] {
            // at least unit length, and at most sqrt(2) of it plus the
            // integer rounding of a one-cell offset
            let m = isqrt(m2);
            assert!(m >= SCALE - 2 && m <= 2 * SCALE);
        } else {
            assert_eq!(m2, 0);
        }
    }
}

#[test]
fn test_dsep() {
    // an annulus of open space between two solid regions
    let w = 96;
    let h = 96;
    let mut walk = Vec::new();
    for j in 0..h {
        for i in 0..w {
            let x = (2 * i as i64 + 1) * SCALE / (2 * w as i64);
            let y = (2 * j as i64 + 1) * SCALE / (2 * h as i64);
            let dx = x - SCALE / 2;
            let dy = y - SCALE / 2;
            let d = isqrt(dx * dx + dy * dy);
            walk.push(!(d < SCALE / 10 || d > 2 * SCALE / 5));
        }
    }
    let (dist, dirs) = gen_distance_field_sep(&walk, w, h).expect("sweep build");
    assert_eq!(dist.len(), w * h);
    assert_eq!(dirs.len(), w * h);
    let mut max = 0;
    for idx in 0..w * h {
        assert!(dist[idx] >= 0 && dist[idx] < D_UNSET);
        assert_eq!(dist[idx] == 0, !walk[idx]);
        if dist[idx] > max {
            max = dist[idx];
        }
    }
    // the middle of the annulus is far from both walls; the ring is 0.3
    // units thick, so the deepest cell is at least a tenth of a unit out
    assert!(max > SCALE / 10);
}

#[test]
fn all_walkable_grid_fails_the_build() {
    // with no obstruction anywhere, every cell stays unresolved
    let walk = vec![true; 16 * 16];
    assert_eq!(gen_distance_field_sep(&walk, 16, 16).err(), Some(BuildError::Unresolved));
    assert_eq!(gen_distance_field_djikstra(&walk, 16, 16).err(), Some(BuildError::Unresolved));
    assert_eq!(gen_distance_field_shitty(&walk, 16, 16).err(), Some(BuildError::Unresolved));
}

#[test]
fn all_solid_grid_is_zero_everywhere() {
    let walk = vec![false; 8 * 8];
    let (dist, dirs) = gen_distance_field_sep(&walk, 8, 8).expect("sweep build");
    for idx in 0..64 {
        assert_eq!(dist[idx], 0);
        assert_eq!(dirs[idx].x, 0);
        assert_eq!(dirs[idx].y, 0);
    }
    let dd = gen_distance_field_djikstra(&walk, 8, 8).expect("dijkstra build");
    let ds = gen_distance_field_shitty(&walk, 8, 8).expect("flood build");
    assert!(dd.iter().all(|&d| d == 0));
    assert!(ds.iter().all(|&d| d == 0));
}

#[test]
fn single_wall_distances_grow_away_from_it() {
    // one solid column on the left: distances increase monotonically with
    // the column index for every builder, stepping by about one cell
    let w = 16;
    let h = 8;
    let mut walk = Vec::new();
    for _j in 0..h {
        for i in 0..w {
            walk.push(i != 0);
        }
    }
    let dd = gen_distance_field_djikstra(&walk, w, h).expect("dijkstra build");
    let ds = gen_distance_field_shitty(&walk, w, h).expect("flood build");
    let (dp, _) = gen_distance_field_sep(&walk, w, h).expect("sweep build");
    let cx = |i: usize| (2 * i as i64 + 1) * SCALE / (2 * w as i64);
    for j in 0..h {
        for i in 1..w {
            let idx = j * w + i;
            assert!(dd[idx] > dd[idx - 1] || i == 1);
            assert!(dp[idx] > dp[idx - 1] || i == 1);
            assert!(ds[idx] >= ds[idx - 1] || i == 1);
            // the flood builder never underestimates: the nearest
            // obstruction is the cell in column zero of the same row
            assert!(ds[idx] >= cx(i) - cx(0));
        }
        // the exact cross-cell distance: cell i sits i cells from the wall
        let far = dp[j * w + (w - 1)];
        let expected = (w as i64 - 1) * SCALE / w as i64;
        assert!((far - expected).abs() <= SCALE / w as i64);
    }
}
