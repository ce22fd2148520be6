//! Deterministic uniform sampling.
//!
//! A 64-bit seed fixes a stream of raw 64-bit draws; the stream is named by
//! the uninterpreted function [`raw_stream`]. Verified code maps each raw
//! draw onto the interval it needs: a height in `[lo, hi)`, or a jitter
//! factor in `[1000000 / roughness, roughness]` thousandths. The same seed
//! therefore fixes every sampled value, which is what makes generation
//! reproducible.

use crate::errors::{TerrainError, TerrainResult};
use crate::fixed::{HEIGHT_LIMIT, MAX_MAP_SIDE, MAX_ROUGHNESS, SCALE};
use rand::rngs::StdRng;
use rand::{RngCore, SeedableRng};
use vstd::arithmetic::div_mod::{lemma_div_is_ordered_by_denominator, lemma_div_non_zero};
use vstd::prelude::*;

verus! {

/// The stream of raw draws that the seed `seed` fixes: the first `n` 64-bit
/// values of the generator seeded with `seed`.
pub uninterp spec fn raw_stream(seed: u64, n: int) -> Seq<u64>;

/// Relies on `rand::rngs::StdRng`, through `SeedableRng::seed_from_u64` and
/// `RngCore::next_u64`: in the pinned version of rand this generator is
/// ChaCha12 behind a fixed seed-expansion step, so the returned values are a
/// deterministic, platform-independent function of `seed` and `n` alone.
#[verifier::external_body]
pub(crate) fn draw_raws(seed: u64, n: usize) -> (r: Vec<u64>)
    ensures
        r@.len() == n,
        r@ == raw_stream(seed, n as int),
{
    let mut rng = StdRng::seed_from_u64(seed);
    let mut out = Vec::with_capacity(n);
    for _ in 0..n {
        out.push(rng.next_u64());
    }
    out
}

/// The raw draw at position `si` of a stream, with an inert zero past the
/// end, so that reading the stream is total.
pub open spec fn raw_at(raws: Seq<u64>, si: int) -> u64 {
    if 0 <= si < raws.len() {
        raws[si]
    } else {
        0
    }
}

/// Executable counterpart of [`raw_at`].
pub(crate) fn stream_get(raws: &Vec<u64>, si: usize) -> (r: u64)
    ensures
        r == raw_at(raws@, si as int),
{
    if si < raws.len() {
        raws[si]
    } else {
        0
    }
}

/// The height in `[lo, hi)` that the raw draw `raw` selects: `lo` plus the
/// draw reduced modulo the width of the interval.
pub open spec fn sample_of(raw: u64, lo: int, hi: int) -> int {
    lo + (raw as int) % (hi - lo)
}

/// Maps a raw draw onto the sampling interval `[lo, hi)`.
pub(crate) fn sample_in(raw: u64, lo: i64, hi: i64) -> (v: i64)
    requires
        -HEIGHT_LIMIT <= lo < hi <= HEIGHT_LIMIT,
    ensures
        v as int == sample_of(raw, lo as int, hi as int),
        lo <= v < hi,
{
    let span = (hi - lo) as u64;
    lo + ((raw % span) as i64)
}

/// The reciprocal of a roughness, in thousandths: the lower end of the
/// jitter interval.
pub open spec fn inv_roughness(roughness: int) -> int {
    (SCALE as int) * (SCALE as int) / roughness
}

/// The jitter factor in thousandths that the raw draw `raw` selects from the
/// closed interval `[1000000 / roughness, roughness]`. At a roughness of
/// exactly one thousand the interval collapses and the factor is always one
/// thousand: the unperturbed average.
pub open spec fn jitter_of(raw: u64, roughness: int) -> int {
    inv_roughness(roughness) + (raw as int) % (roughness - inv_roughness(roughness) + 1)
}

/// Maps a raw draw onto the jitter interval of `roughness`.
pub(crate) fn jitter_in(raw: u64, roughness: i64) -> (j: i64)
    requires
        SCALE <= roughness <= MAX_ROUGHNESS,
    ensures
        j as int == jitter_of(raw, roughness as int),
        1 <= j <= roughness,
{
    let r = roughness as u64;
    let inv = 1_000_000u64 / r;
    proof {
        lemma_div_non_zero(1_000_000, r as int);
        lemma_div_is_ordered_by_denominator(1_000_000, 1000, r as int);
        assert(1_000_000int / 1000int == 1000);
    }
    let span = r - inv + 1;
    let j = inv + raw % span;
    j as i64
}

/// A row-major buffer of `width * height` heights drawn uniformly from
/// `[lo, hi)`, fixed by the seed: cell `i` takes the `i`-th draw of the
/// stream. Accepted exactly when both dimensions are positive and within
/// the accepted side cap and the interval is ordered within the height
/// limit; otherwise `InvalidRange` comes back.
pub fn uniform_area2d(width: usize, height: usize, lo: i64, hi: i64, seed: u64) -> (r:
    TerrainResult<Vec<i64>>)
    ensures
        1 <= width <= MAX_MAP_SIDE && 1 <= height <= MAX_MAP_SIDE && -HEIGHT_LIMIT <= lo < hi
            <= HEIGHT_LIMIT ==> r is Ok && r->Ok_0@.len() == width * height && forall|i: int|
            0 <= i < (width as int) * (height as int) ==> #[trigger] r->Ok_0@[i] as int
            == sample_of(
            raw_at(raw_stream(seed, (width as int) * (height as int)), i),
            lo as int,
            hi as int,
        ) && lo <= r->Ok_0@[i] < hi,
        !(1 <= width <= MAX_MAP_SIDE && 1 <= height <= MAX_MAP_SIDE && -HEIGHT_LIMIT <= lo < hi
            <= HEIGHT_LIMIT) ==> r is Err && r->Err_0.is_invalid_range(),
{
    if !(1 <= width && width <= MAX_MAP_SIDE && 1 <= height && height <= MAX_MAP_SIDE
        && -HEIGHT_LIMIT <= lo && lo < hi && hi <= HEIGHT_LIMIT) {
        return Err(
            TerrainError::invalid_range(
                "area dimensions must be positive and within the side cap, over an ordered range"
                    .to_owned(),
            ),
        );
    }
    proof {
        assert((width as int) * (height as int) <= 16384 * 16384) by (nonlinear_arith)
            requires
                1 <= width as int <= 16384,
                1 <= height as int <= 16384,
        ;
    }
    let n = width * height;
    let raws = draw_raws(seed, n);
    let mut out: Vec<i64> = Vec::new();
    let mut i: usize = 0;
    while i < n
        invariant
            n == width * height,
            n as int == (width as int) * (height as int),
            -HEIGHT_LIMIT <= lo < hi <= HEIGHT_LIMIT,
            raws@.len() == n,
            raws@ == raw_stream(seed, n as int),
            out@.len() == i <= n,
            forall|j: int|
                0 <= j < i ==> #[trigger] out@[j] as int == sample_of(
                    raw_at(raw_stream(seed, n as int), j),
                    lo as int,
                    hi as int,
                ) && lo <= out@[j] < hi,
        decreases n - i,
    {
        let v = sample_in(raws[i], lo, hi);
        out.push(v);
        i = i + 1;
    }
    Ok(out)
}

/// At a roughness of exactly one (one thousand thousandths), the jitter
/// interval collapses: every raw draw maps to the factor one thousand, so
/// the perturbed average degenerates to the plain average.
pub proof fn lemma_unit_roughness_no_jitter(raw: u64)
    ensures
        jitter_of(raw, SCALE as int) == SCALE as int,
{
    assert(1_000_000int / 1000int == 1000);
    assert((raw as int) % 1int == 0) by {
        vstd::arithmetic::div_mod::lemma_mod_bound(raw as int, 1);
    }
}

} // verus!
