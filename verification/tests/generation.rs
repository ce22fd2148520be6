//! End-to-end tests of the two subdivision engines.

use diamond_square::{DiamondSquare, GridTerrain, MidpointDisplacement};

/// Euclidean floor average of a neighborhood, as the engines compute it.
fn floor_avg(sum: i128, count: i128) -> i64 {
    sum.div_euclid(count) as i64
}

#[test]
fn test17x17() {
    let ds = DiamondSquare::default()
        .with_size(20, 20)
        .unwrap()
        .with_iteration(5)
        .unwrap()
        .with_seed(rand::random());
    let (w, h) = ds.get_map_size();
    assert_eq!((w, h), (641, 641));
    let grid = GridTerrain::diamond_square(&ds);
    assert_eq!(grid.get_size(), (641, 641));
    match grid.as_gray() {
        Ok(gray) => assert_eq!(gray.len(), 641 * 641),
        Err(_) => {
            let (lo, hi) = grid.get_range();
            assert_eq!(lo, hi);
        }
    }
}

#[test]
fn test17x1() {
    let config = MidpointDisplacement::default()
        .with_length(10)
        .unwrap()
        .with_iteration(2)
        .unwrap()
        .with_seed(rand::random());
    assert_eq!(config.get_map_length(), 41);
    let grid = GridTerrain::mid_point_displacement(&config);
    println!("{:?}", grid.get_size());
    assert_eq!(grid.get_size(), (41, 1));
}

#[test]
fn test() {
    let ds = DiamondSquare::default()
        .with_size(20, 20)
        .unwrap()
        .with_iteration(1)
        .unwrap()
        .with_seed(rand::random());
    let area = diamond_square::uniform_area2d(4, 2, -1000, 1000, rand::random()).unwrap();
    let a = ds.generate_by_array(&area, 4, 2).unwrap();
    println!("{:?}", a.len());
    assert_eq!(a.len(), (4 * 2 + 1) * (2 * 2 + 1));
}

#[test]
fn generation_is_deterministic() {
    let cfg = DiamondSquare::default();
    let first = cfg.generate();
    let second = cfg.generate();
    assert_eq!(first, second);
    let md = MidpointDisplacement::default();
    assert_eq!(md.generate(), md.generate());
}

#[test]
fn different_seeds_give_different_grids() {
    let a = DiamondSquare::default().with_seed(1).generate();
    let b = DiamondSquare::default().with_seed(2).generate();
    assert_ne!(a, b);
}

#[test]
fn size_law_two_dimensional() {
    let cfg = DiamondSquare::default()
        .with_size(3, 5)
        .unwrap()
        .with_iteration(3)
        .unwrap();
    assert_eq!(cfg.get_map_size(), (3 * 8 + 1, 5 * 8 + 1));
    let cells = cfg.generate();
    assert_eq!(cells.len(), 25 * 41);
}

#[test]
fn size_law_one_dimensional() {
    let cfg = MidpointDisplacement::default()
        .with_length(7)
        .unwrap()
        .with_iteration(4)
        .unwrap();
    assert_eq!(cfg.get_map_length(), 7 * 16 + 1);
    assert_eq!(cfg.generate().len(), 113);
}

#[test]
fn example_scenario_17x17() {
    // The documented example: a 4 by 4 base, two passes, roughness 1.1,
    // heights from [-1, 1) units, seed 42.
    let cfg = DiamondSquare::default()
        .with_size(4, 4)
        .unwrap()
        .with_iteration(2)
        .unwrap()
        .with_roughness(1100)
        .unwrap()
        .with_range(-1000, 1000)
        .unwrap()
        .with_seed(42);
    let terrain = cfg.as_terrain();
    assert_eq!(terrain.get_size(), (17, 17));
    // Lattice positions hold seeded values: drawn from [-1000, 1000).
    for kx in 0..5 {
        for ky in 0..5 {
            let v = terrain.get(4 * kx, 4 * ky).unwrap();
            assert!((-1000..1000).contains(&v));
        }
    }
    // Two runs are bit-identical.
    let again = cfg.as_terrain();
    for x in 0..17 {
        for y in 0..17 {
            assert_eq!(terrain.get(x, y).unwrap(), again.get(x, y).unwrap());
        }
    }
}

#[test]
fn lattice_points_hold_the_seeded_draws() {
    // The seeding phase draws the same stream whatever the iteration count,
    // so the lattice of a subdivided grid must equal the grid generated
    // with no subdivision at all: passes never overwrite lattice points.
    let seed = 987654321;
    let base = DiamondSquare::default()
        .with_size(4, 4)
        .unwrap()
        .with_iteration(0)
        .unwrap()
        .with_seed(seed)
        .as_terrain();
    let fine = DiamondSquare::default()
        .with_size(4, 4)
        .unwrap()
        .with_iteration(2)
        .unwrap()
        .with_seed(seed)
        .as_terrain();
    assert_eq!(base.get_size(), (5, 5));
    assert_eq!(fine.get_size(), (17, 17));
    for kx in 0..5 {
        for ky in 0..5 {
            assert_eq!(
                base.get(kx, ky).unwrap(),
                fine.get(4 * kx, 4 * ky).unwrap()
            );
        }
    }
}

#[test]
fn unit_roughness_means_plain_averages_one_dimensional() {
    // With a roughness of exactly one, every midpoint is the floor average
    // of its two neighbors.
    let cfg = MidpointDisplacement::default()
        .with_length(4)
        .unwrap()
        .with_iteration(1)
        .unwrap()
        .with_roughness(1000)
        .unwrap()
        .with_seed(7);
    let row = cfg.generate();
    assert_eq!(row.len(), 9);
    for k in 0..4 {
        let mid = 2 * k + 1;
        let expect = floor_avg(row[mid - 1] as i128 + row[mid + 1] as i128, 2);
        assert_eq!(row[mid], expect);
    }
}

#[test]
fn unit_roughness_means_plain_averages_two_dimensional() {
    // With a roughness of exactly one, every diamond cell is the floor
    // average of its four corners.
    let cfg = DiamondSquare::default()
        .with_size(2, 2)
        .unwrap()
        .with_iteration(1)
        .unwrap()
        .with_roughness(1000)
        .unwrap()
        .with_seed(11);
    let terrain = cfg.as_terrain();
    assert_eq!(terrain.get_size(), (5, 5));
    for cx in [1usize, 3] {
        for cy in [1usize, 3] {
            let sum = terrain.get(cx - 1, cy - 1).unwrap() as i128
                + terrain.get(cx - 1, cy + 1).unwrap() as i128
                + terrain.get(cx + 1, cy - 1).unwrap() as i128
                + terrain.get(cx + 1, cy + 1).unwrap() as i128;
            assert_eq!(terrain.get(cx, cy).unwrap(), floor_avg(sum, 4));
        }
    }
}

#[test]
fn range_matches_true_min_and_max() {
    let terrain = DiamondSquare::default().with_seed(5).as_terrain();
    let (w, h) = terrain.get_size();
    let (start, end) = terrain.get_range();
    let mut min = i64::MAX;
    let mut max = i64::MIN;
    for x in 0..w {
        for y in 0..h {
            let v = terrain.get(x, y).unwrap();
            assert!(start <= v && v <= end);
            min = min.min(v);
            max = max.max(v);
        }
    }
    assert_eq!(start, min);
    assert_eq!(end, max);
}

#[test]
fn uniform_area_is_seed_fixed_and_in_range() {
    let a = diamond_square::uniform_area2d(6, 3, -500, 500, 33).unwrap();
    let b = diamond_square::uniform_area2d(6, 3, -500, 500, 33).unwrap();
    assert_eq!(a, b);
    assert_eq!(a.len(), 18);
    for v in &a {
        assert!((-500..500).contains(v));
    }
    let c = diamond_square::uniform_area2d(6, 3, -500, 500, 34).unwrap();
    assert_ne!(a, c);
    assert!(diamond_square::uniform_area2d(0, 3, -500, 500, 33).is_err());
    assert!(diamond_square::uniform_area2d(6, 3, 500, -500, 33).is_err());
}

#[test]
fn enlarged_lattice_wraps_its_edges() {
    let cfg = DiamondSquare::default().with_iteration(1).unwrap();
    // A 2 by 2 base with distinct heights.
    let base = vec![10, 20, 30, 40];
    let out = cfg.generate_by_array(&base, 2, 2).unwrap();
    // Final grid is 5 by 5, row-major by the first coordinate.
    assert_eq!(out.len(), 25);
    let h = 5;
    // Lattice points carry the base values.
    assert_eq!(out[0 * h + 0], 10);
    assert_eq!(out[0 * h + 2], 20);
    assert_eq!(out[2 * h + 0], 30);
    assert_eq!(out[2 * h + 2], 40);
    // The last column repeats the first, the last row repeats the first.
    assert_eq!(out[0 * h + 4], 10);
    assert_eq!(out[2 * h + 4], 30);
    assert_eq!(out[4 * h + 0], 10);
    assert_eq!(out[4 * h + 2], 20);
    assert_eq!(out[4 * h + 4], 10);
    // Unseeded midpoints stay at the zero sentinel.
    assert_eq!(out[1 * h + 1], 0);
    assert_eq!(out[3 * h + 3], 0);
    // A matrix of the wrong shape is rejected.
    assert!(cfg.generate_by_array(&base, 3, 2).is_err());
}

#[test]
fn golden_fixture_seed_42() {
    // Pinned output of the default configuration (4 by 4 base, two passes,
    // roughness 1.1, interval [-1, 1) units, seed 42): the seeded lattice,
    // a few interpolated cells, the observed range, and the default
    // one-dimensional row, which shares the same leading draws.
    let t = DiamondSquare::default().as_terrain();
    let lattice = [
        [522, -811, 249, 58, -798],
        [928, -717, 799, 774, 438],
        [-17, 465, 618, 338, -412],
        [424, -702, 635, -164, 871],
        [311, 906, 251, 173, -680],
    ];
    for kx in 0..5 {
        for ky in 0..5 {
            assert_eq!(t.get(4 * kx, 4 * ky).unwrap(), lattice[kx][ky]);
        }
    }
    assert_eq!(t.get(1, 1).unwrap(), 195);
    assert_eq!(t.get(1, 2).unwrap(), -61);
    assert_eq!(t.get(2, 1).unwrap(), 232);
    assert_eq!(t.get_range(), (-811, 928));
    let row = MidpointDisplacement::default().generate();
    assert_eq!(
        row,
        vec![
            522, 187, -147, -462, -811, -515, -308, -30, 249, 207, 167, 115, 58, -156, -372,
            -613, -798
        ]
    );
}
