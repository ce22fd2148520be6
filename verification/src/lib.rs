//! Fractal heightfield synthesis by midpoint subdivision.
//!
//! The crate generates rectangular grids (or single rows) of pseudo-natural
//! elevation data with the diamond-square algorithm and its one-dimensional
//! analogue, midpoint displacement. Generation is deterministic: a
//! configuration, including its seed, fixes the output grid exactly.
//!
//! Heights are fixed-point integers in milli-units: the `i64` value `1000`
//! stands for a height of one unit. All arithmetic on heights is integer
//! arithmetic, so every stated contract is exact.
//!
//! The subdivision policy, fixed once for the whole crate:
//! - final sides are `base * 2^iteration + 1` (the lattice keeps explicit
//!   edge points);
//! - square-sweep neighbors wrap modulo the full grid side;
//! - jitter is multiplicative: each new height is the floor average of its
//!   neighbors times a factor drawn from the closed interval
//!   `[1000000 / roughness, roughness]` thousandths, so a roughness of
//!   exactly one thousand leaves the plain average;
//! - interpolated heights saturate at [`VALUE_CAP`], which keeps the rule
//!   total however the jitter compounds.

mod ds;
mod errors;
mod fixed;
mod grid;
mod md;
mod range;
mod sampler;

pub use ds::{
    ds_cells, enlarged_at, lemma_lattice_preserved, lemma_unit_roughness_diamonds, DiamondSquare,
};
pub use errors::{TerrainError, TerrainErrorKind, TerrainResult};
pub use fixed::{
    clamp_cap, lemma_same_view_same_heights, lemma_unit_jitter_is_average, perturbed_average,
    side_ok,
};
pub use fixed::{HEIGHT_LIMIT, MAX_MAP_SIDE, MAX_ROUGHNESS, SCALE, VALUE_CAP};
pub use grid::{
    gray_of, lemma_normalize_round_trip, lemma_range_contains_all_cells, normed_of, GridTerrain,
};
pub use md::{
    lemma_md_lattice_preserved, lemma_unit_roughness_midpoints, md_cells, MidpointDisplacement,
};
pub use range::{lemma_min_max_contain_all, seq_max, seq_min, RangeTracker};
pub use sampler::{
    jitter_of, lemma_unit_roughness_no_jitter, raw_at, raw_stream, sample_of, uniform_area2d,
};
