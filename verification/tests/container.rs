//! Tests of the terrain container: indexed access, range bounds,
//! normalization, gray export and in-place mapping.

use diamond_square::{DiamondSquare, GridTerrain, TerrainErrorKind};

fn small_terrain() -> GridTerrain {
    DiamondSquare::default().with_seed(42).as_terrain()
}

#[test]
fn get_rejects_out_of_bounds() {
    let terrain = small_terrain();
    let (w, h) = terrain.get_size();
    assert!(terrain.get(w - 1, h - 1).is_ok());
    let err = terrain.get(w, 0).unwrap_err();
    assert_eq!(*err.kind(), TerrainErrorKind::OutOfBounds { x: w, y: 0 });
    let err = terrain.get(0, h).unwrap_err();
    assert_eq!(*err.kind(), TerrainErrorKind::OutOfBounds { x: 0, y: h });
}

#[test]
fn set_min_rejects_inverted_bounds() {
    let mut terrain = small_terrain();
    // The observed range of the default configuration lies well within
    // (-5, 5) units; five units can never be a lower bound.
    let err = terrain.set_min(5000).unwrap_err();
    match err.kind() {
        TerrainErrorKind::InvalidRange { .. } => {}
        other => panic!("unexpected kind {:?}", other),
    }
    let before = terrain.get_range();
    assert!(terrain.set_min(-2000).is_ok());
    assert_eq!(terrain.get_range().0, -2000);
    assert_eq!(terrain.get_range().1, before.1);
}

#[test]
fn set_max_rejects_inverted_bounds() {
    let mut terrain = small_terrain();
    let err = terrain.set_max(-5000).unwrap_err();
    match err.kind() {
        TerrainErrorKind::InvalidRange { .. } => {}
        other => panic!("unexpected kind {:?}", other),
    }
    assert!(terrain.set_max(2000).is_ok());
    assert_eq!(terrain.get_range().1, 2000);
}

#[test]
fn normalization_round_trip() {
    let terrain = small_terrain();
    let (start, end) = terrain.get_range();
    assert!(start < end);
    assert_eq!(terrain.get_normed(start), 0);
    assert_eq!(terrain.get_normed(end), 1000);
}

#[test]
fn normalization_midpoint_is_exact() {
    let mut terrain = small_terrain();
    assert!(terrain.set_min(-1000).is_ok());
    assert!(terrain.set_max(1000).is_ok());
    assert_eq!(terrain.get_normed(0), 500);
    assert_eq!(terrain.get_normed(-500), 250);
    assert_eq!(terrain.get_normed(1000), 1000);
}

#[test]
fn map_height_applies_everywhere_and_keeps_range() {
    let mut terrain = small_terrain();
    let before = terrain.get_range();
    terrain.map_height(|_v| 500);
    assert_eq!(terrain.get_range(), before);
    let (w, h) = terrain.get_size();
    for x in 0..w {
        for y in 0..h {
            assert_eq!(terrain.get(x, y).unwrap(), 500);
        }
    }
}

#[test]
fn gray_levels_follow_the_linear_remap() {
    let mut terrain = small_terrain();
    terrain.map_height(|_v| 500);
    assert!(terrain.set_min(0).is_ok());
    assert!(terrain.set_max(1000).is_ok());
    let gray = terrain.as_gray().unwrap();
    let (w, h) = terrain.get_size();
    assert_eq!(gray.len(), w * h);
    // 500 * 255 / 1000 == 127, at every cell.
    for g in &gray {
        assert_eq!(*g, 127);
    }
}

#[test]
fn gray_levels_saturate_outside_the_range() {
    let mut terrain = small_terrain();
    terrain.map_height(|v| if v >= 0 { 9000 } else { -9000 });
    let gray = terrain.as_gray().unwrap();
    let (start, end) = terrain.get_range();
    assert!(-9000 <= start && end <= 9000);
    for g in &gray {
        assert!(*g == 0 || *g == 255);
    }
}

#[test]
fn getters_report_dimensions() {
    let terrain = small_terrain();
    assert_eq!(terrain.get_size(), (17, 17));
    assert_eq!(terrain.get_width(), 17);
    assert_eq!(terrain.get_height(), 17);
}
