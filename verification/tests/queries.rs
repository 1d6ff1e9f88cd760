use dungeon_field::level::{Level, Vec2};
use dungeon_field::fixed::{SCALE, isqrt};
use dungeon_field::rng::{khash, krand};
use dungeon_field::noise::noise2d;
use dungeon_field::enemy_repo::PackRecord;

fn generated_level() -> Level {
    let mut l = Level {
        seed: 42,
        floor: 0,
        w: 8,
        h: 8,
        grid_type: Vec::new(),
        stairs_up: Vec2 { x: 0, y: 0 },
        stairs_down: Vec2 { x: 0, y: 0 },
        distances: Vec::new(),
        walldirs: Vec::new(),
        dw: 64,
        dh: 64,
    };
    l.gen().expect("generation should succeed");
    l
}

#[test]
fn zero_length_ray_never_hits() {
    // P5: a zero-length ray reports no hit, wherever it starts
    let l = generated_level();
    let samples = [
        Vec2 { x: 0, y: 0 },
        Vec2 { x: SCALE / 2, y: SCALE / 2 },
        Vec2 { x: SCALE / 3, y: 2 * SCALE / 3 },
        Vec2 { x: SCALE, y: SCALE },
        Vec2 { x: l.stairs_up.x, y: l.stairs_up.y },
    ];
    for p in samples {
        assert_eq!(l.ray_intersects_wall(p, p), None);
    }
}

#[test]
fn ray_toward_the_border_hits_it() {
    // the map border is solid, so a ray from the stairs to far outside
    // must report a hit, short of the full segment
    let l = generated_level();
    let from = l.stairs_up;
    let to = Vec2 { x: -SCALE, y: from.y };
    let hit = l.ray_intersects_wall(from, to);
    assert!(hit.is_some());
    let t = hit.unwrap();
    let dx = to.x - from.x;
    let seg = isqrt(dx * dx);
    assert!(t >= 0 && t < seg);
}

#[test]
fn collide_circle_matches_wall_distance() {
    // P4: no collision exactly when the wall is at least the radius away;
    // otherwise the push-out is the wall direction scaled by the overlap
    let l = generated_level();
    let r = SCALE / 32;
    let mut saw_none = 0;
    let mut saw_some = 0;
    for i in 0..40 {
        for j in 0..40 {
            let p = Vec2 { x: i * SCALE / 40 + 7, y: j * SCALE / 40 + 3 };
            let d = l.wall_distance(p);
            match l.collide_circle(p, r) {
                None => {
                    assert!(d >= r);
                    saw_none += 1;
                },
                Some(v) => {
                    assert!(d < r);
                    let overlap = r - d;
                    let dir = l.wall_dir(p);
                    // exact componentwise push-out
                    assert_eq!(v.x, (dir.x * overlap).div_euclid(SCALE));
                    assert_eq!(v.y, (dir.y * overlap).div_euclid(SCALE));
                    // and, where the smoothed direction is close to unit
                    // length, the push-out magnitude is close to the overlap
                    let dm = isqrt(dir.x * dir.x + dir.y * dir.y);
                    if dm > SCALE - SCALE / 16 && dm <= SCALE {
                        let vm = isqrt(v.x * v.x + v.y * v.y);
                        assert!((vm - overlap).abs() <= overlap / 8 + 2);
                    }
                    saw_some += 1;
                },
            }
        }
    }
    assert!(saw_none > 0);
    assert!(saw_some > 0);
}

#[test]
fn wall_distance_shrinks_toward_the_border() {
    // P3, tested by sampling: marching straight at the solid border, the
    // conservative wall distance never grows by more than the one-cell
    // discretization tolerance, and vanishes at the border
    let l = generated_level();
    let y = l.stairs_up.y;
    let steps = 200;
    let x0 = l.stairs_up.x;
    let tol = SCALE / l.dw as i64;
    let mut prev = l.wall_distance(Vec2 { x: x0, y });
    for s in 1..=steps {
        let x = x0 - x0 * s / steps;
        let d = l.wall_distance(Vec2 { x, y });
        assert!(d <= prev + tol);
        prev = d;
    }
    assert_eq!(l.wall_distance(Vec2 { x: -1, y }), 0);
}

#[test]
fn out_of_range_points_are_solid() {
    let l = generated_level();
    // classifier: outside the unit square is never walkable
    let pp = l.point(-SCALE / 4, SCALE / 2);
    assert!(!pp.walkable);
    // field: outside the unit square the wall distance is zero and the
    // direction is the zero vector
    assert_eq!(l.wall_distance(Vec2 { x: SCALE + 1, y: 0 }), 0);
    let d = l.wall_dir(Vec2 { x: 0, y: -5 });
    assert_eq!((d.x, d.y), (0, 0));
}

#[test]
fn estimate_normal_points_into_open_space() {
    let l = generated_level();
    // at a walkable point next to a wall, the estimated normal is a
    // unit-ish vector; fully enclosed points report none
    let mut found = false;
    for i in 1..40 {
        for j in 1..40 {
            let p = Vec2 { x: i * SCALE / 40, y: j * SCALE / 40 };
            if let Some(n) = l.estimate_normal(p, SCALE / 40) {
                // normalization of a short integer average is coarse, so
                // allow a wide band around unit length
                let m = isqrt(n.x * n.x + n.y * n.y);
                assert!(m >= SCALE / 2 && m <= 2 * SCALE);
                found = true;
            }
        }
    }
    assert!(found);
}

#[test]
fn hashes_are_deterministic_and_in_range() {
    for k in 0..200u64 {
        assert_eq!(khash(k), khash(k));
        let r = krand(k);
        assert!(r >= 0 && r < SCALE);
        let n = noise2d(k as i64 * 1000 - 50000, 12345 - k as i64 * 777, 9);
        assert_eq!(n, noise2d(k as i64 * 1000 - 50000, 12345 - k as i64 * 777, 9));
        assert!(n >= 0 && n < SCALE);
    }
    // the hash scrambles: consecutive seeds land far apart somewhere
    assert!((0..100u64).any(|k| (krand(k) - krand(k + 1)).abs() > SCALE / 8));
}

#[test]
fn pack_records_keep_their_entries() {
    let pack = PackRecord::new(vec![(2, 6), (0, 3)]);
    assert_eq!(pack.len(), 2);
    assert_eq!(pack.entry(0), (2, 6));
    assert_eq!(pack.entry(1), (0, 3));
    let copy = pack.clone();
    assert_eq!(copy.len(), 2);
}
