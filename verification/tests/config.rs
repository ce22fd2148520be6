//! Tests of configuration validation, builders and the failure values.

use diamond_square::{
    DiamondSquare, MidpointDisplacement, RangeTracker, TerrainError, TerrainErrorKind,
};

#[test]
fn default_two_dimensional_configuration() {
    let cfg = DiamondSquare::default();
    assert_eq!(cfg.get_size(), (4, 4));
    assert_eq!(cfg.get_map_size(), (17, 17));
    assert_eq!(cfg.get_iteration(), 2);
    assert_eq!(cfg.get_roughness(), 1100);
    assert_eq!(cfg.get_range(), (-1000, 1000));
    assert_eq!(cfg.get_seed(), 42);
}

#[test]
fn default_one_dimensional_configuration() {
    let cfg = MidpointDisplacement::default();
    assert_eq!(cfg.get_length(), 4);
    assert_eq!(cfg.get_map_length(), 17);
    assert_eq!(cfg.get_iteration(), 2);
    assert_eq!(cfg.get_roughness(), 1100);
    assert_eq!(cfg.get_range(), (-1000, 1000));
    assert_eq!(cfg.get_seed(), 42);
}

#[test]
fn roughness_below_one_is_rejected() {
    let err = DiamondSquare::default().with_roughness(900).unwrap_err();
    match err.kind() {
        TerrainErrorKind::InvalidRange { .. } => {}
        other => panic!("unexpected kind {:?}", other),
    }
    assert!(MidpointDisplacement::default().with_roughness(900).is_err());
    // A roughness of exactly one is the degenerate, jitter-free case and
    // is accepted.
    assert!(DiamondSquare::default().with_roughness(1000).is_ok());
}

#[test]
fn zero_width_is_rejected() {
    assert!(DiamondSquare::new(0, 4).is_err());
    assert!(DiamondSquare::new(4, 0).is_err());
    assert!(DiamondSquare::new(4, 4).is_ok());
    assert!(DiamondSquare::default().with_size(0, 4).is_err());
    assert!(MidpointDisplacement::default().with_length(0).is_err());
}

#[test]
fn oversized_grids_are_rejected() {
    // The final side may not pass the cap of 16384 cells.
    assert!(DiamondSquare::default().with_size(4096, 4).is_ok());
    assert!(DiamondSquare::default().with_size(4097, 4).is_err());
    let mut cfg = DiamondSquare::default().with_size(4096, 4).unwrap();
    assert!(cfg.set_iteration(3).is_err());
    assert!(cfg.set_iteration(2).is_ok());
    assert!(cfg.set_iteration(30).is_err());
    assert!(MidpointDisplacement::default().with_iteration(30).is_err());
}

#[test]
fn malformed_intervals_are_rejected() {
    assert!(DiamondSquare::default().with_range(1000, -1000).is_err());
    assert!(DiamondSquare::default().with_range(500, 500).is_err());
    assert!(DiamondSquare::default().with_range(-2000, 2000).is_ok());
    assert!(MidpointDisplacement::default().with_range(7, 7).is_err());
}

#[test]
fn setters_replace_single_fields() {
    let mut cfg = DiamondSquare::default();
    cfg.set_seed(9);
    assert_eq!(cfg.get_seed(), 9);
    assert!(cfg.set_roughness(1500).is_ok());
    assert_eq!(cfg.get_roughness(), 1500);
    assert!(cfg.set_range(-500, 500).is_ok());
    assert_eq!(cfg.get_range(), (-500, 500));
    assert!(cfg.set_size(6, 7).is_ok());
    assert_eq!(cfg.get_size(), (6, 7));
    // A failed setter leaves the configuration alone.
    assert!(cfg.set_roughness(0).is_err());
    assert_eq!(cfg.get_roughness(), 1500);
}

#[test]
fn one_dimensional_setters_replace_single_fields() {
    let mut cfg = MidpointDisplacement::default();
    cfg.set_seed(9);
    assert_eq!(cfg.get_seed(), 9);
    assert!(cfg.set_length(12).is_ok());
    assert_eq!(cfg.get_length(), 12);
    assert!(cfg.set_iteration(3).is_ok());
    assert_eq!(cfg.get_map_length(), 12 * 8 + 1);
    assert!(cfg.set_roughness(999).is_err());
    assert_eq!(cfg.get_roughness(), 1100);
}

#[test]
fn invalid_range_errors_carry_their_message() {
    let err = TerrainError::invalid_range("broken".to_string());
    assert_eq!(
        *err.kind(),
        TerrainErrorKind::InvalidRange { message: "broken".to_string() }
    );
    let err = TerrainError::out_of_bounds(3, 9);
    assert_eq!(*err.kind(), TerrainErrorKind::OutOfBounds { x: 3, y: 9 });
}

#[test]
fn range_tracker_widens_monotonically() {
    let mut tracker = RangeTracker::new(5);
    assert_eq!(tracker.current(), (5, 5));
    tracker.observe(3);
    assert_eq!(tracker.current(), (3, 5));
    tracker.observe(7);
    assert_eq!(tracker.current(), (3, 7));
    tracker.observe(4);
    assert_eq!(tracker.current(), (3, 7));
}
