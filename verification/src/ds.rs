//! Diamond-square: the two-dimensional subdivision engine.
//!
//! A validated configuration fixes a grid of heights exactly. A coarse
//! lattice of `(width + 1) * (height + 1)` points at coordinate multiples of
//! `2^iteration` is seeded from the uniform sampler. Then each pass halves
//! the step and runs three sweeps: the diamond sweep fills the center of
//! every step-sized square from its four corners, and two square sweeps
//! fill the midpoints of horizontal and vertical edges from their four
//! axis-aligned neighbors, with neighbor coordinates wrapping modulo the
//! grid sides. Every new height is the perturbed average of its neighbors.
//! The full model of the computation is the specification function
//! [`ds_cells`]: generation is a function of the configuration alone, seed
//! included.

use crate::errors::{TerrainError, TerrainResult};
use crate::fixed::{
    check_side, ints_of, lemma_ints_of_update, lemma_unit_jitter_is_average, perturb_sum,
    perturbed_average, pow2_usize, side_ok, zero_seq, zero_vec, HEIGHT_LIMIT, MAX_MAP_SIDE,
    MAX_ROUGHNESS, SCALE, VALUE_CAP,
};
use crate::grid::GridTerrain;
use crate::range::{scan_range, seq_max, seq_min};
use crate::sampler::{
    draw_raws, jitter_in, jitter_of, lemma_unit_roughness_no_jitter, raw_at, raw_stream,
    sample_in, sample_of, stream_get,
};
use vstd::arithmetic::div_mod::{
    lemma_div_multiples_vanish, lemma_mod_multiples_basic, lemma_mod_multiples_vanish,
    lemma_small_mod,
};
use vstd::arithmetic::mul::{lemma_mul_inequality, lemma_mul_is_commutative};
use vstd::arithmetic::power2::{
    lemma2_to64, lemma_pow2_adds, lemma_pow2_pos, lemma_pow2_unfold, pow2,
};
use vstd::prelude::*;

verus! {

/// Configuration of the two-dimensional engine: base dimensions, iteration
/// count, roughness and sampling interval in milli-units, and the seed.
#[derive(Clone, Copy, Debug, PartialEq, Eq, Structural)]
pub struct DiamondSquare {
    width: usize,
    height: usize,
    iteration: u32,
    roughness: i64,
    lo: i64,
    hi: i64,
    seed: u64,
}

/// The three sweeps of one subdivision pass.
#[derive(Clone, Copy, Debug, PartialEq, Eq, Structural)]
pub(crate) enum Sweep {
    /// Fills square centers (both coordinates odd multiples of the half
    /// step) from the four diagonal corners.
    Diamond,
    /// Fills midpoints of vertical edges (first coordinate an odd multiple
    /// of the half step, second a multiple of the step) from the four
    /// axis-aligned neighbors, wrapping in the second coordinate.
    SquareEven,
    /// Fills midpoints of horizontal edges (first coordinate a multiple of
    /// the step, second an odd multiple of the half step) from the four
    /// axis-aligned neighbors, wrapping in the first coordinate.
    SquareOdd,
}

impl DiamondSquare {
    /// Base number of columns, before subdivision.
    pub closed spec fn width_spec(&self) -> int {
        self.width as int
    }

    /// Base number of rows, before subdivision.
    pub closed spec fn height_spec(&self) -> int {
        self.height as int
    }

    /// Number of subdivision passes.
    pub closed spec fn iteration_spec(&self) -> int {
        self.iteration as int
    }

    /// Roughness in thousandths: the upper end of the jitter interval.
    pub closed spec fn roughness_spec(&self) -> int {
        self.roughness as int
    }

    /// Lower end of the sampling interval, in milli-units.
    pub closed spec fn lo_spec(&self) -> int {
        self.lo as int
    }

    /// Upper end of the sampling interval, in milli-units.
    pub closed spec fn hi_spec(&self) -> int {
        self.hi as int
    }

    /// The seed.
    pub closed spec fn seed_spec(&self) -> u64 {
        self.seed
    }

    /// The initial lattice step: two to the iteration count.
    pub closed spec fn step0(&self) -> int {
        pow2(self.iteration as nat) as int
    }

    /// Width of the generated grid: the base width times two to the
    /// iteration count, plus one.
    pub closed spec fn map_w(&self) -> int {
        self.width_spec() * self.step0() + 1
    }

    /// Height of the generated grid, analogous to the width.
    pub closed spec fn map_h(&self) -> int {
        self.height_spec() * self.step0() + 1
    }

    /// The step before pass `t`: halved once per pass.
    pub closed spec fn step_at(&self, t: int) -> int {
        pow2((self.iteration - t) as nat) as int
    }

    /// Columns of new cells that pass `t` fills per sweep row.
    pub closed spec fn cw_at(&self, t: int) -> int {
        self.width_spec() * (pow2(t as nat) as int)
    }

    /// Rows of new cells that pass `t` fills per sweep column.
    pub closed spec fn ch_at(&self, t: int) -> int {
        self.height_spec() * (pow2(t as nat) as int)
    }

    /// What a validated configuration guarantees: positive base dimensions,
    /// final sides no longer than the accepted cap, a roughness between one
    /// and one thousand units, and an ordered sampling interval within the
    /// height limit.
    #[verifier::type_invariant]
    pub closed spec fn wf(&self) -> bool {
        &&& 1 <= self.width <= MAX_MAP_SIDE
        &&& 1 <= self.height <= MAX_MAP_SIDE
        &&& self.iteration < 30
        &&& self.width_spec() * self.step0() <= MAX_MAP_SIDE as int
        &&& self.height_spec() * self.step0() <= MAX_MAP_SIDE as int
        &&& SCALE <= self.roughness <= MAX_ROUGHNESS
        &&& -HEIGHT_LIMIT <= self.lo < self.hi <= HEIGHT_LIMIT
    }
}

/// How many sweep rows sweep `kind` of pass `t` visits.
pub(crate) closed spec fn nx_of(cfg: DiamondSquare, kind: Sweep, t: int) -> int {
    match kind {
        Sweep::Diamond => cfg.cw_at(t),
        Sweep::SquareEven => cfg.cw_at(t),
        Sweep::SquareOdd => cfg.cw_at(t) + 1,
    }
}

/// How many cells sweep `kind` of pass `t` fills per sweep row.
pub(crate) closed spec fn ny_of(cfg: DiamondSquare, kind: Sweep, t: int) -> int {
    match kind {
        Sweep::Diamond => cfg.ch_at(t),
        Sweep::SquareEven => cfg.ch_at(t) + 1,
        Sweep::SquareOdd => cfg.ch_at(t),
    }
}

/// First-coordinate offset of sweep `kind` of pass `t`.
pub(crate) closed spec fn ox_of(cfg: DiamondSquare, kind: Sweep, t: int) -> int {
    match kind {
        Sweep::Diamond => cfg.step_at(t) / 2,
        Sweep::SquareEven => cfg.step_at(t) / 2,
        Sweep::SquareOdd => 0,
    }
}

/// Second-coordinate offset of sweep `kind` of pass `t`.
pub(crate) closed spec fn oy_of(cfg: DiamondSquare, kind: Sweep, t: int) -> int {
    match kind {
        Sweep::Diamond => cfg.step_at(t) / 2,
        Sweep::SquareEven => 0,
        Sweep::SquareOdd => cfg.step_at(t) / 2,
    }
}

/// The height that sweep `kind` of pass `t` writes at cell `(x, y)`: the
/// perturbed average of the four neighbors the sweep reads there.
pub(crate) closed spec fn sweep_value(
    cfg: DiamondSquare,
    kind: Sweep,
    cells: Seq<int>,
    t: int,
    x: int,
    y: int,
    raw: u64,
) -> int {
    let w = cfg.map_w();
    let h = cfg.map_h();
    let half = cfg.step_at(t) / 2;
    let j = jitter_of(raw, cfg.roughness_spec());
    match kind {
        Sweep::Diamond => {
            let sum = cells[(x - half) * h + (y - half)] + cells[(x - half) * h + (y + half)]
                + cells[(x + half) * h + (y - half)] + cells[(x + half) * h + (y + half)];
            perturbed_average(sum, 4, j)
        },
        Sweep::SquareEven => {
            let sum = cells[(x - half) * h + y] + cells[(x + half) * h + y] + cells[x * h + ((y + h
                - half) % h)] + cells[x * h + ((y + half) % h)];
            perturbed_average(sum, 4, j)
        },
        Sweep::SquareOdd => {
            let sum = cells[((x + w - half) % w) * h + y] + cells[((x + half) % w) * h + y]
                + cells[x * h + (y - half)] + cells[x * h + (y + half)];
            perturbed_average(sum, 4, j)
        },
    }
}

/// The grid after the first `ky` cells of sweep row `kx` of sweep `kind` of
/// pass `t` are filled, starting from the state `st`.
pub(crate) closed spec fn sweep_cols(
    cfg: DiamondSquare,
    raws: Seq<u64>,
    kind: Sweep,
    t: int,
    st: (Seq<int>, int),
    kx: int,
    ky: int,
) -> (Seq<int>, int)
    decreases ky,
{
    if ky <= 0 {
        st
    } else {
        let prev = sweep_cols(cfg, raws, kind, t, st, kx, ky - 1);
        let s = cfg.step_at(t);
        let x = ox_of(cfg, kind, t) + kx * s;
        let y = oy_of(cfg, kind, t) + (ky - 1) * s;
        let v = sweep_value(cfg, kind, prev.0, t, x, y, raw_at(raws, prev.1));
        (prev.0.update(x * cfg.map_h() + y, v), prev.1 + 1)
    }
}

/// The grid after the first `kx` sweep rows of sweep `kind` of pass `t` are
/// filled, starting from the state `st`.
pub(crate) closed spec fn sweep_rows(
    cfg: DiamondSquare,
    raws: Seq<u64>,
    kind: Sweep,
    t: int,
    st: (Seq<int>, int),
    kx: int,
) -> (Seq<int>, int)
    decreases kx,
{
    if kx <= 0 {
        st
    } else {
        sweep_cols(
            cfg,
            raws,
            kind,
            t,
            sweep_rows(cfg, raws, kind, t, st, kx - 1),
            kx - 1,
            ny_of(cfg, kind, t),
        )
    }
}

/// The grid after the first `ky` lattice points of lattice row `kx` are
/// seeded: point `(i, j)` sits at `(i * 2^iteration, j * 2^iteration)` and
/// takes the next draw, mapped onto the sampling interval.
pub(crate) closed spec fn seed_cols(
    cfg: DiamondSquare,
    raws: Seq<u64>,
    st: (Seq<int>, int),
    kx: int,
    ky: int,
) -> (Seq<int>, int)
    decreases ky,
{
    if ky <= 0 {
        st
    } else {
        let prev = seed_cols(cfg, raws, st, kx, ky - 1);
        let v = sample_of(raw_at(raws, prev.1), cfg.lo_spec(), cfg.hi_spec());
        (prev.0.update((kx * cfg.step0()) * cfg.map_h() + (ky - 1) * cfg.step0(), v), prev.1 + 1)
    }
}

/// The grid after the first `kx` lattice rows are seeded.
pub(crate) closed spec fn seed_rows(
    cfg: DiamondSquare,
    raws: Seq<u64>,
    st: (Seq<int>, int),
    kx: int,
) -> (Seq<int>, int)
    decreases kx,
{
    if kx <= 0 {
        st
    } else {
        seed_cols(
            cfg,
            raws,
            seed_rows(cfg, raws, st, kx - 1),
            kx - 1,
            cfg.height_spec() + 1,
        )
    }
}

/// The grid after the seeding phase and the first `t` subdivision passes:
/// each pass runs the diamond sweep, then the two square sweeps.
pub(crate) closed spec fn ds_iters(cfg: DiamondSquare, raws: Seq<u64>, t: int) -> (Seq<int>, int)
    decreases t,
{
    if t <= 0 {
        seed_rows(
            cfg,
            raws,
            (zero_seq((cfg.map_w() * cfg.map_h()) as nat), 0),
            cfg.width_spec() + 1,
        )
    } else {
        let p = ds_iters(cfg, raws, t - 1);
        let d = sweep_rows(cfg, raws, Sweep::Diamond, t - 1, p, nx_of(cfg, Sweep::Diamond, t - 1));
        let e = sweep_rows(
            cfg,
            raws,
            Sweep::SquareEven,
            t - 1,
            d,
            nx_of(cfg, Sweep::SquareEven, t - 1),
        );
        sweep_rows(cfg, raws, Sweep::SquareOdd, t - 1, e, nx_of(cfg, Sweep::SquareOdd, t - 1))
    }
}

/// The full grid that a configuration fixes, row-major by the first
/// coordinate: every pass applied to the seeded lattice, drawing from the
/// stream of the configured seed.
pub closed spec fn ds_cells(cfg: DiamondSquare) -> Seq<int> {
    ds_iters(
        cfg,
        raw_stream(cfg.seed_spec(), 2 * cfg.map_w() * cfg.map_h()),
        cfg.iteration_spec(),
    ).0
}

/// How pass `t` is laid out on a well-formed configuration: the step is an
/// even positive power of two and the new cells tile both sides exactly.
proof fn lemma_ds_layout(cfg: DiamondSquare, t: int)
    requires
        cfg.wf(),
        0 <= t < cfg.iteration_spec(),
    ensures
        cfg.step_at(t) == 2 * (cfg.step_at(t) / 2),
        cfg.step_at(t) / 2 == cfg.step_at(t + 1),
        cfg.step_at(t + 1) >= 1,
        cfg.cw_at(t) >= 1,
        cfg.ch_at(t) >= 1,
        cfg.cw_at(t) * cfg.step_at(t) == cfg.map_w() - 1,
        cfg.ch_at(t) * cfg.step_at(t) == cfg.map_h() - 1,
{
    let ti = t;
    let ii = cfg.iteration_spec();
    let pt = pow2(ti as nat) as int;
    let ps = pow2((ii - ti) as nat) as int;
    lemma_pow2_unfold((ii - ti) as nat);
    lemma_pow2_pos((ii - ti - 1) as nat);
    lemma_pow2_pos(ti as nat);
    lemma_pow2_adds(ti as nat, (ii - ti) as nat);
    assert(cfg.width_spec() * (pow2(ii as nat) as int) == (cfg.width_spec() * pt) * ps)
        by (nonlinear_arith)
        requires
            pt * ps == pow2(ii as nat) as int,
    ;
    assert(cfg.height_spec() * (pow2(ii as nat) as int) == (cfg.height_spec() * pt) * ps)
        by (nonlinear_arith)
        requires
            pt * ps == pow2(ii as nat) as int,
    ;
    assert(cfg.cw_at(t) >= 1 && cfg.ch_at(t) >= 1) by (nonlinear_arith)
        requires
            cfg.width_spec() >= 1,
            cfg.height_spec() >= 1,
            pt >= 1,
            cfg.cw_at(t) == cfg.width_spec() * pt,
            cfg.ch_at(t) == cfg.height_spec() * pt,
    ;
}

/// Where sweep `kind` of pass `t` writes: the sweep's offsets and counts
/// keep every written cell inside the grid.
proof fn lemma_sweep_frame(cfg: DiamondSquare, kind: Sweep, t: int)
    requires
        cfg.wf(),
        0 <= t < cfg.iteration_spec(),
    ensures
        nx_of(cfg, kind, t) >= 1,
        ny_of(cfg, kind, t) >= 1,
        0 <= ox_of(cfg, kind, t) < cfg.step_at(t),
        0 <= oy_of(cfg, kind, t) < cfg.step_at(t),
        ox_of(cfg, kind, t) + (nx_of(cfg, kind, t) - 1) * cfg.step_at(t) <= cfg.map_w() - 1,
        oy_of(cfg, kind, t) + (ny_of(cfg, kind, t) - 1) * cfg.step_at(t) <= cfg.map_h() - 1,
{
    lemma_ds_layout(cfg, t);
    let s = cfg.step_at(t);
    let cw = cfg.cw_at(t);
    let ch = cfg.ch_at(t);
    assert((cw - 1) * s == cw * s - s) by (nonlinear_arith);
    assert((ch - 1) * s == ch * s - s) by (nonlinear_arith);
    assert(cw * s == cw * s);
}

/// A grid coordinate pair maps to a buffer position inside the grid.
proof fn lemma_cell_index(w: int, h: int, x: int, y: int)
    requires
        0 <= x < w,
        0 <= y < h,
    ensures
        0 <= x * h + y < w * h,
{
    lemma_mul_inequality(x + 1, w, h);
    assert((x + 1) * h == x * h + h) by (nonlinear_arith);
    assert(x * h >= 0) by (nonlinear_arith)
        requires
            x >= 0,
            h >= 0,
    ;
}

/// One sweep row consumes one draw per cell and keeps the grid size.
proof fn lemma_sweep_cols_shape(
    cfg: DiamondSquare,
    raws: Seq<u64>,
    kind: Sweep,
    t: int,
    st: (Seq<int>, int),
    kx: int,
    ky: int,
)
    requires
        cfg.wf(),
        0 <= t < cfg.iteration_spec(),
        0 <= kx < nx_of(cfg, kind, t),
        0 <= ky <= ny_of(cfg, kind, t),
        st.0.len() == cfg.map_w() * cfg.map_h(),
    ensures
        sweep_cols(cfg, raws, kind, t, st, kx, ky).1 == st.1 + ky,
        sweep_cols(cfg, raws, kind, t, st, kx, ky).0.len() == st.0.len(),
    decreases ky,
{
    if ky > 0 {
        lemma_sweep_cols_shape(cfg, raws, kind, t, st, kx, ky - 1);
        lemma_ds_layout(cfg, t);
        lemma_sweep_frame(cfg, kind, t);
        let s = cfg.step_at(t);
        let x = ox_of(cfg, kind, t) + kx * s;
        let y = oy_of(cfg, kind, t) + (ky - 1) * s;
        lemma_mul_inequality(kx, nx_of(cfg, kind, t) - 1, s);
        lemma_mul_inequality(ky - 1, ny_of(cfg, kind, t) - 1, s);
        assert(kx * s >= 0 && (ky - 1) * s >= 0) by (nonlinear_arith)
            requires
                kx >= 0,
                ky - 1 >= 0,
                s >= 1,
        ;
        lemma_cell_index(cfg.map_w(), cfg.map_h(), x, y);
    }
}

/// One sweep consumes one draw per cell and keeps the grid size.
proof fn lemma_sweep_rows_shape(
    cfg: DiamondSquare,
    raws: Seq<u64>,
    kind: Sweep,
    t: int,
    st: (Seq<int>, int),
    kx: int,
)
    requires
        cfg.wf(),
        0 <= t < cfg.iteration_spec(),
        0 <= kx <= nx_of(cfg, kind, t),
        st.0.len() == cfg.map_w() * cfg.map_h(),
    ensures
        sweep_rows(cfg, raws, kind, t, st, kx).1 == st.1 + kx * ny_of(cfg, kind, t),
        sweep_rows(cfg, raws, kind, t, st, kx).0.len() == st.0.len(),
    decreases kx,
{
    let ny = ny_of(cfg, kind, t);
    if kx <= 0 {
        assert(0 * ny == 0) by (nonlinear_arith);
    } else {
        lemma_sweep_rows_shape(cfg, raws, kind, t, st, kx - 1);
        lemma_sweep_cols_shape(
            cfg,
            raws,
            kind,
            t,
            sweep_rows(cfg, raws, kind, t, st, kx - 1),
            kx - 1,
            ny,
        );
        assert(kx * ny == (kx - 1) * ny + ny) by (nonlinear_arith);
    }
}

/// One lattice row consumes one draw per point and keeps the grid size.
proof fn lemma_seed_cols_shape(
    cfg: DiamondSquare,
    raws: Seq<u64>,
    st: (Seq<int>, int),
    kx: int,
    ky: int,
)
    requires
        cfg.wf(),
        0 <= kx <= cfg.width_spec(),
        0 <= ky <= cfg.height_spec() + 1,
        st.0.len() == cfg.map_w() * cfg.map_h(),
    ensures
        seed_cols(cfg, raws, st, kx, ky).1 == st.1 + ky,
        seed_cols(cfg, raws, st, kx, ky).0.len() == st.0.len(),
    decreases ky,
{
    lemma_pow2_pos(cfg.iteration as nat);
    if ky > 0 {
        lemma_seed_cols_shape(cfg, raws, st, kx, ky - 1);
        lemma_mul_inequality(kx, cfg.width_spec(), cfg.step0());
        lemma_mul_inequality(ky - 1, cfg.height_spec(), cfg.step0());
        assert(kx * cfg.step0() >= 0 && (ky - 1) * cfg.step0() >= 0) by (nonlinear_arith)
            requires
                kx >= 0,
                ky - 1 >= 0,
                cfg.step0() >= 1,
        ;
        lemma_cell_index(
            cfg.map_w(),
            cfg.map_h(),
            kx * cfg.step0(),
            (ky - 1) * cfg.step0(),
        );
    }
}

/// Seeding consumes one draw per lattice point and keeps the grid size.
proof fn lemma_seed_rows_shape(cfg: DiamondSquare, raws: Seq<u64>, st: (Seq<int>, int), kx: int)
    requires
        cfg.wf(),
        0 <= kx <= cfg.width_spec() + 1,
        st.0.len() == cfg.map_w() * cfg.map_h(),
    ensures
        seed_rows(cfg, raws, st, kx).1 == st.1 + kx * (cfg.height_spec() + 1),
        seed_rows(cfg, raws, st, kx).0.len() == st.0.len(),
    decreases kx,
{
    let hh = cfg.height_spec() + 1;
    if kx <= 0 {
        assert(0 * hh == 0) by (nonlinear_arith);
    } else {
        lemma_seed_rows_shape(cfg, raws, st, kx - 1);
        lemma_seed_cols_shape(cfg, raws, seed_rows(cfg, raws, st, kx - 1), kx - 1, hh);
        assert(kx * hh == (kx - 1) * hh + hh) by (nonlinear_arith);
    }
}

/// After the seeding phase and `t` passes, the grid size is unchanged and
/// the number of draws consumed stays below twice the cell count: the
/// stream generation asks for is never exhausted.
proof fn lemma_ds_iters_shape(cfg: DiamondSquare, raws: Seq<u64>, t: int)
    requires
        cfg.wf(),
        0 <= t <= cfg.iteration_spec(),
    ensures
        ds_iters(cfg, raws, t).0.len() == cfg.map_w() * cfg.map_h(),
        0 <= ds_iters(cfg, raws, t).1,
        ds_iters(cfg, raws, t).1 <= cfg.map_w() * cfg.map_h() + cfg.cw_at(t) * cfg.ch_at(t)
            + cfg.cw_at(t) + cfg.ch_at(t),
    decreases t,
{
    let w = cfg.map_w();
    let h = cfg.map_h();
    let bw = cfg.width_spec();
    let bh = cfg.height_spec();
    lemma_pow2_pos(cfg.iteration as nat);
    assert(w * h == zero_seq((w * h) as nat).len()) by {
        assert(w * h >= 1) by (nonlinear_arith)
            requires
                w >= 1,
                h >= 1,
        ;
    }
    if t <= 0 {
        lemma_seed_rows_shape(cfg, raws, (zero_seq((w * h) as nat), 0), bw + 1);
        lemma2_to64();
        assert((bw + 1) * (bh + 1) == bw * bh + bw + bh + 1) by (nonlinear_arith);
        assert(bw * 1 == bw && bh * 1 == bh) by (nonlinear_arith);
        assert(1 <= w * h) by (nonlinear_arith)
            requires
                w >= 1,
                h >= 1,
        ;
    } else {
        lemma_ds_iters_shape(cfg, raws, t - 1);
        lemma_ds_layout(cfg, t - 1);
        let p = ds_iters(cfg, raws, t - 1);
        let cw = cfg.cw_at(t - 1);
        let ch = cfg.ch_at(t - 1);
        let d = sweep_rows(cfg, raws, Sweep::Diamond, t - 1, p, cw);
        let e = sweep_rows(cfg, raws, Sweep::SquareEven, t - 1, d, cw);
        lemma_sweep_rows_shape(cfg, raws, Sweep::Diamond, t - 1, p, cw);
        lemma_sweep_rows_shape(cfg, raws, Sweep::SquareEven, t - 1, d, cw);
        lemma_sweep_rows_shape(cfg, raws, Sweep::SquareOdd, t - 1, e, cw + 1);
        lemma_pow2_unfold(t as nat);
        assert(cfg.cw_at(t) == 2 * cw && cfg.ch_at(t) == 2 * ch) by (nonlinear_arith)
            requires
                pow2(t as nat) == 2 * pow2((t - 1) as nat),
                cw == cfg.width_spec() * (pow2((t - 1) as nat) as int),
                ch == cfg.height_spec() * (pow2((t - 1) as nat) as int),
                cfg.cw_at(t) == cfg.width_spec() * (pow2(t as nat) as int),
                cfg.ch_at(t) == cfg.height_spec() * (pow2(t as nat) as int),
        ;
        assert(cw * ch + cw * (ch + 1) + (cw + 1) * ch == 3 * (cw * ch) + cw + ch)
            by (nonlinear_arith);
        assert((2 * cw) * (2 * ch) == 4 * (cw * ch)) by (nonlinear_arith);
    }
}

/// Distinct cells occupy distinct buffer positions.
proof fn lemma_cell_index_inj(h: int, x1: int, y1: int, x2: int, y2: int)
    requires
        x1 >= 0,
        x2 >= 0,
        0 <= y1 < h,
        0 <= y2 < h,
        x1 != x2 || y1 != y2,
    ensures
        x1 * h + y1 != x2 * h + y2,
{
    if x1 < x2 {
        lemma_mul_inequality(x1 + 1, x2, h);
        assert((x1 + 1) * h == x1 * h + h) by (nonlinear_arith);
    } else if x2 < x1 {
        lemma_mul_inequality(x2 + 1, x1, h);
        assert((x2 + 1) * h == x2 * h + h) by (nonlinear_arith);
    }
}

/// A sweep row only touches cells at its own offsets modulo the step: any
/// cell whose coordinates miss an offset is left alone.
proof fn lemma_sweep_cols_keeps(
    cfg: DiamondSquare,
    raws: Seq<u64>,
    kind: Sweep,
    t: int,
    st: (Seq<int>, int),
    kx: int,
    ky: int,
    px: int,
    py: int,
)
    requires
        cfg.wf(),
        0 <= t < cfg.iteration_spec(),
        0 <= kx < nx_of(cfg, kind, t),
        0 <= ky <= ny_of(cfg, kind, t),
        st.0.len() == cfg.map_w() * cfg.map_h(),
        0 <= px < cfg.map_w(),
        0 <= py < cfg.map_h(),
        px % cfg.step_at(t) != ox_of(cfg, kind, t) || py % cfg.step_at(t) != oy_of(cfg, kind, t),
    ensures
        sweep_cols(cfg, raws, kind, t, st, kx, ky).0[px * cfg.map_h() + py] == st.0[px
            * cfg.map_h() + py],
    decreases ky,
{
    if ky > 0 {
        lemma_sweep_cols_keeps(cfg, raws, kind, t, st, kx, ky - 1, px, py);
        lemma_sweep_cols_shape(cfg, raws, kind, t, st, kx, ky - 1);
        lemma_ds_layout(cfg, t);
        lemma_sweep_frame(cfg, kind, t);
        let s = cfg.step_at(t);
        let ox = ox_of(cfg, kind, t);
        let oy = oy_of(cfg, kind, t);
        let x = ox + kx * s;
        let y = oy + (ky - 1) * s;
        lemma_mul_inequality(kx, nx_of(cfg, kind, t) - 1, s);
        lemma_mul_inequality(ky - 1, ny_of(cfg, kind, t) - 1, s);
        assert(kx * s >= 0 && (ky - 1) * s >= 0) by (nonlinear_arith)
            requires
                kx >= 0,
                ky - 1 >= 0,
                s >= 1,
        ;
        lemma_cell_index(cfg.map_w(), cfg.map_h(), x, y);
        lemma_cell_index(cfg.map_w(), cfg.map_h(), px, py);
        lemma_small_mod(ox as nat, s as nat);
        lemma_small_mod(oy as nat, s as nat);
        lemma_mod_multiples_vanish(kx, ox, s);
        lemma_mod_multiples_vanish(ky - 1, oy, s);
        assert(s * kx + ox == x && s * (ky - 1) + oy == y) by (nonlinear_arith)
            requires
                x == ox + kx * s,
                y == oy + (ky - 1) * s,
        ;
        lemma_cell_index_inj(cfg.map_h(), x, y, px, py);
    }
}

/// A sweep only touches cells at its own offsets modulo the step: any cell
/// whose coordinates miss an offset is left alone.
proof fn lemma_sweep_rows_keeps(
    cfg: DiamondSquare,
    raws: Seq<u64>,
    kind: Sweep,
    t: int,
    st: (Seq<int>, int),
    kx: int,
    px: int,
    py: int,
)
    requires
        cfg.wf(),
        0 <= t < cfg.iteration_spec(),
        0 <= kx <= nx_of(cfg, kind, t),
        st.0.len() == cfg.map_w() * cfg.map_h(),
        0 <= px < cfg.map_w(),
        0 <= py < cfg.map_h(),
        px % cfg.step_at(t) != ox_of(cfg, kind, t) || py % cfg.step_at(t) != oy_of(cfg, kind, t),
    ensures
        sweep_rows(cfg, raws, kind, t, st, kx).0[px * cfg.map_h() + py] == st.0[px * cfg.map_h()
            + py],
    decreases kx,
{
    if kx > 0 {
        lemma_sweep_rows_keeps(cfg, raws, kind, t, st, kx - 1, px, py);
        lemma_sweep_rows_shape(cfg, raws, kind, t, st, kx - 1);
        lemma_sweep_cols_keeps(
            cfg,
            raws,
            kind,
            t,
            sweep_rows(cfg, raws, kind, t, st, kx - 1),
            kx - 1,
            ny_of(cfg, kind, t),
            px,
            py,
        );
    }
}

/// No subdivision pass ever touches a lattice point: the cell at
/// `(kx, ky)` steps of the initial lattice keeps the height seeding gave
/// it, through every pass.
proof fn lemma_ds_iters_keeps(cfg: DiamondSquare, raws: Seq<u64>, t: int, kx: int, ky: int)
    requires
        cfg.wf(),
        0 <= t <= cfg.iteration_spec(),
        0 <= kx <= cfg.width_spec(),
        0 <= ky <= cfg.height_spec(),
    ensures
        ds_iters(cfg, raws, t).0[(kx * cfg.step0()) * cfg.map_h() + ky * cfg.step0()] == ds_iters(
            cfg,
            raws,
            0,
        ).0[(kx * cfg.step0()) * cfg.map_h() + ky * cfg.step0()],
    decreases t,
{
    if t > 0 {
        lemma_ds_iters_keeps(cfg, raws, t - 1, kx, ky);
        lemma_ds_layout(cfg, t - 1);
        lemma_ds_iters_shape(cfg, raws, t - 1);
        let px = kx * cfg.step0();
        let py = ky * cfg.step0();
        let s = cfg.step_at(t - 1);
        lemma_pow2_pos(cfg.iteration as nat);
        lemma_mul_inequality(kx, cfg.width_spec(), cfg.step0());
        lemma_mul_inequality(ky, cfg.height_spec(), cfg.step0());
        assert(px >= 0 && py >= 0) by (nonlinear_arith)
            requires
                kx >= 0,
                ky >= 0,
                cfg.step0() >= 1,
                px == kx * cfg.step0(),
                py == ky * cfg.step0(),
        ;
        lemma_pow2_adds((t - 1) as nat, (cfg.iteration_spec() - (t - 1)) as nat);
        assert(px == (kx * (pow2((t - 1) as nat) as int)) * s && py == (ky * (pow2(
            (t - 1) as nat,
        ) as int)) * s) by (nonlinear_arith)
            requires
                cfg.step0() == (pow2((t - 1) as nat) as int) * s,
                px == kx * cfg.step0(),
                py == ky * cfg.step0(),
        ;
        lemma_mod_multiples_basic(kx * (pow2((t - 1) as nat) as int), s);
        lemma_mod_multiples_basic(ky * (pow2((t - 1) as nat) as int), s);
        let p = ds_iters(cfg, raws, t - 1);
        let d = sweep_rows(cfg, raws, Sweep::Diamond, t - 1, p, nx_of(cfg, Sweep::Diamond, t - 1));
        let e = sweep_rows(
            cfg,
            raws,
            Sweep::SquareEven,
            t - 1,
            d,
            nx_of(cfg, Sweep::SquareEven, t - 1),
        );
        lemma_sweep_rows_shape(cfg, raws, Sweep::Diamond, t - 1, p, nx_of(
            cfg,
            Sweep::Diamond,
            t - 1,
        ));
        lemma_sweep_rows_shape(cfg, raws, Sweep::SquareEven, t - 1, d, nx_of(
            cfg,
            Sweep::SquareEven,
            t - 1,
        ));
        lemma_sweep_rows_keeps(cfg, raws, Sweep::Diamond, t - 1, p, nx_of(
            cfg,
            Sweep::Diamond,
            t - 1,
        ), px, py);
        lemma_sweep_rows_keeps(cfg, raws, Sweep::SquareEven, t - 1, d, nx_of(
            cfg,
            Sweep::SquareEven,
            t - 1,
        ), px, py);
        lemma_sweep_rows_keeps(cfg, raws, Sweep::SquareOdd, t - 1, e, nx_of(
            cfg,
            Sweep::SquareOdd,
            t - 1,
        ), px, py);
    }
}

/// Within one lattice row, each seeded point keeps the draw it was given.
proof fn lemma_seed_cols_value(
    cfg: DiamondSquare,
    raws: Seq<u64>,
    st: (Seq<int>, int),
    kx: int,
    ky: int,
    qy: int,
)
    requires
        cfg.wf(),
        0 <= kx <= cfg.width_spec(),
        0 <= qy < ky <= cfg.height_spec() + 1,
        st.0.len() == cfg.map_w() * cfg.map_h(),
    ensures
        seed_cols(cfg, raws, st, kx, ky).0[(kx * cfg.step0()) * cfg.map_h() + qy * cfg.step0()]
            == sample_of(raw_at(raws, st.1 + qy), cfg.lo_spec(), cfg.hi_spec()),
    decreases ky,
{
    lemma_pow2_pos(cfg.iteration as nat);
    lemma_seed_cols_shape(cfg, raws, st, kx, ky - 1);
    lemma_mul_inequality(kx, cfg.width_spec(), cfg.step0());
    lemma_mul_inequality(ky - 1, cfg.height_spec(), cfg.step0());
    assert(kx * cfg.step0() >= 0 && (ky - 1) * cfg.step0() >= 0 && qy * cfg.step0() >= 0)
        by (nonlinear_arith)
        requires
            kx >= 0,
            ky - 1 >= 0,
            qy >= 0,
            cfg.step0() >= 1,
    ;
    lemma_cell_index(
        cfg.map_w(),
        cfg.map_h(),
        kx * cfg.step0(),
        (ky - 1) * cfg.step0(),
    );
    lemma_mul_inequality(qy, cfg.height_spec(), cfg.step0());
    lemma_cell_index(cfg.map_w(), cfg.map_h(), kx * cfg.step0(), qy * cfg.step0());
    if qy == ky - 1 {
    } else {
        lemma_seed_cols_value(cfg, raws, st, kx, ky - 1, qy);
        assert(qy * cfg.step0() != (ky - 1) * cfg.step0()) by (nonlinear_arith)
            requires
                qy < ky - 1,
                cfg.step0() >= 1,
        ;
        lemma_cell_index_inj(
            cfg.map_h(),
            kx * cfg.step0(),
            (ky - 1) * cfg.step0(),
            kx * cfg.step0(),
            qy * cfg.step0(),
        );
    }
}

/// A later lattice row never touches an earlier one.
proof fn lemma_seed_cols_keeps(
    cfg: DiamondSquare,
    raws: Seq<u64>,
    st: (Seq<int>, int),
    kx: int,
    ky: int,
    qx: int,
    qy: int,
)
    requires
        cfg.wf(),
        0 <= kx <= cfg.width_spec(),
        0 <= ky <= cfg.height_spec() + 1,
        0 <= qx <= cfg.width_spec(),
        0 <= qy <= cfg.height_spec(),
        qx != kx,
        st.0.len() == cfg.map_w() * cfg.map_h(),
    ensures
        seed_cols(cfg, raws, st, kx, ky).0[(qx * cfg.step0()) * cfg.map_h() + qy * cfg.step0()]
            == st.0[(qx * cfg.step0()) * cfg.map_h() + qy * cfg.step0()],
    decreases ky,
{
    lemma_pow2_pos(cfg.iteration as nat);
    if ky > 0 {
        lemma_seed_cols_keeps(cfg, raws, st, kx, ky - 1, qx, qy);
        lemma_seed_cols_shape(cfg, raws, st, kx, ky - 1);
        lemma_mul_inequality(kx, cfg.width_spec(), cfg.step0());
        lemma_mul_inequality(ky - 1, cfg.height_spec(), cfg.step0());
        lemma_mul_inequality(qx, cfg.width_spec(), cfg.step0());
        lemma_mul_inequality(qy, cfg.height_spec(), cfg.step0());
        assert(kx * cfg.step0() >= 0 && (ky - 1) * cfg.step0() >= 0 && qx * cfg.step0() >= 0 && qy
            * cfg.step0() >= 0 && kx * cfg.step0() != qx * cfg.step0()) by (nonlinear_arith)
            requires
                kx >= 0,
                ky - 1 >= 0,
                qx >= 0,
                qy >= 0,
                kx != qx,
                cfg.step0() >= 1,
        ;
        lemma_cell_index(
            cfg.map_w(),
            cfg.map_h(),
            kx * cfg.step0(),
            (ky - 1) * cfg.step0(),
        );
        lemma_cell_index(cfg.map_w(), cfg.map_h(), qx * cfg.step0(), qy * cfg.step0());
        lemma_cell_index_inj(
            cfg.map_h(),
            kx * cfg.step0(),
            (ky - 1) * cfg.step0(),
            qx * cfg.step0(),
            qy * cfg.step0(),
        );
    }
}

/// Each seeded lattice point holds the draw of its row-major position.
proof fn lemma_seed_rows_value(
    cfg: DiamondSquare,
    raws: Seq<u64>,
    st: (Seq<int>, int),
    kx: int,
    qx: int,
    qy: int,
)
    requires
        cfg.wf(),
        0 <= qx < kx <= cfg.width_spec() + 1,
        0 <= qy <= cfg.height_spec(),
        st.0.len() == cfg.map_w() * cfg.map_h(),
    ensures
        seed_rows(cfg, raws, st, kx).0[(qx * cfg.step0()) * cfg.map_h() + qy * cfg.step0()]
            == sample_of(
            raw_at(raws, st.1 + qx * (cfg.height_spec() + 1) + qy),
            cfg.lo_spec(),
            cfg.hi_spec(),
        ),
    decreases kx,
{
    lemma_seed_rows_shape(cfg, raws, st, kx - 1);
    if qx == kx - 1 {
        lemma_seed_cols_value(
            cfg,
            raws,
            seed_rows(cfg, raws, st, kx - 1),
            kx - 1,
            cfg.height_spec() + 1,
            qy,
        );
    } else {
        lemma_seed_rows_value(cfg, raws, st, kx - 1, qx, qy);
        lemma_seed_cols_keeps(
            cfg,
            raws,
            seed_rows(cfg, raws, st, kx - 1),
            kx - 1,
            cfg.height_spec() + 1,
            qx,
            qy,
        );
    }
}

/// Lattice preservation: in the finished grid, the height at every lattice
/// point (both coordinates multiples of the initial step) is exactly the
/// value the seeding phase drew for it — no subdivision pass overwrites a
/// seeded point. The seeded value is the draw at the point's row-major
/// lattice position, mapped onto the sampling interval.
pub proof fn lemma_lattice_preserved(cfg: DiamondSquare, kx: int, ky: int)
    requires
        cfg.wf(),
        0 <= kx <= cfg.width_spec(),
        0 <= ky <= cfg.height_spec(),
    ensures
        ds_cells(cfg)[(kx * cfg.step0()) * cfg.map_h() + ky * cfg.step0()] == sample_of(
            raw_at(
                raw_stream(cfg.seed_spec(), 2 * cfg.map_w() * cfg.map_h()),
                kx * (cfg.height_spec() + 1) + ky,
            ),
            cfg.lo_spec(),
            cfg.hi_spec(),
        ),
{
    let raws = raw_stream(cfg.seed_spec(), 2 * cfg.map_w() * cfg.map_h());
    lemma_ds_iters_keeps(cfg, raws, cfg.iteration_spec(), kx, ky);
    let w = cfg.map_w();
    let h = cfg.map_h();
    lemma_pow2_pos(cfg.iteration as nat);
    assert(w * h >= 1) by (nonlinear_arith)
        requires
            w >= 1,
            h >= 1,
    ;
    lemma_seed_rows_value(
        cfg,
        raws,
        (zero_seq((w * h) as nat), 0),
        cfg.width_spec() + 1,
        kx,
        ky,
    );
}

/// Reads the height at grid cell `(x, y)`.
fn cell_at(grid: &Vec<i64>, w: usize, h: usize, x: usize, y: usize) -> (v: i64)
    requires
        grid@.len() == w * h,
        x < w,
        y < h,
    ensures
        v as int == ints_of(grid@)[(x as int) * (h as int) + y as int],
{
    proof {
        vstd::std_specs::vec::axiom_spec_len(grid);
        lemma_cell_index(w as int, h as int, x as int, y as int);
    }
    grid[x * h + y]
}

/// Writes the height at grid cell `(x, y)`.
fn put_cell(grid: &mut Vec<i64>, w: usize, h: usize, x: usize, y: usize, v: i64)
    requires
        old(grid)@.len() == w * h,
        x < w,
        y < h,
    ensures
        final(grid)@.len() == old(grid)@.len(),
        ints_of(final(grid)@) == ints_of(old(grid)@).update(
            (x as int) * (h as int) + y as int,
            v as int,
        ),
{
    proof {
        vstd::std_specs::vec::axiom_spec_len(grid);
        lemma_cell_index(w as int, h as int, x as int, y as int);
    }
    let ghost gpre = grid@;
    grid.set(x * h + y, v);
    proof {
        lemma_ints_of_update(gpre, (x as int) * (h as int) + y as int, v);
    }
}

impl DiamondSquare {
    /// Runs one sweep of pass `t` over the whole grid, consuming one draw
    /// per cell it fills.
    fn run_sweep(
        &self,
        grid: &mut Vec<i64>,
        si: &mut usize,
        raws: &Vec<u64>,
        w: usize,
        h: usize,
        step: usize,
        t: u32,
        kind: Sweep,
        Ghost(st): Ghost<(Seq<int>, int)>,
    )
        requires
            self.wf(),
            (t as int) < self.iteration_spec(),
            w as int == self.map_w(),
            h as int == self.map_h(),
            step as int == self.step_at(t as int),
            old(grid)@.len() == w * h,
            ints_of(old(grid)@) == st.0,
            (*old(si)) as int == st.1,
            st.1 >= 0,
            st.1 + nx_of(*self, kind, t as int) * ny_of(*self, kind, t as int) <= 2 * ((w as int)
                * (h as int)),
        ensures
            final(grid)@.len() == old(grid)@.len(),
            ints_of(final(grid)@) == sweep_rows(
                *self,
                raws@,
                kind,
                t as int,
                st,
                nx_of(*self, kind, t as int),
            ).0,
            (*final(si)) as int == sweep_rows(
                *self,
                raws@,
                kind,
                t as int,
                st,
                nx_of(*self, kind, t as int),
            ).1,
    {
        proof {
            lemma_ds_layout(*self, t as int);
            lemma_sweep_frame(*self, kind, t as int);
            lemma_mul_is_commutative(self.cw_at(t as int), step as int);
            lemma_div_multiples_vanish(self.cw_at(t as int), step as int);
            lemma_mul_is_commutative(self.ch_at(t as int), step as int);
            lemma_div_multiples_vanish(self.ch_at(t as int), step as int);
            assert((w as int) * (h as int) <= 16385 * 16385) by (nonlinear_arith)
                requires
                    1 <= w as int <= 16385,
                    1 <= h as int <= 16385,
            ;
            assert(step as int <= self.cw_at(t as int) * (step as int) && step as int
                <= self.ch_at(t as int) * (step as int)) by (nonlinear_arith)
                requires
                    self.cw_at(t as int) >= 1,
                    self.ch_at(t as int) >= 1,
                    step as int >= 0,
            ;
        }
        let half = step / 2;
        let cw = (w - 1) / step;
        let ch = (h - 1) / step;
        let nx = match kind {
            Sweep::Diamond => cw,
            Sweep::SquareEven => cw,
            Sweep::SquareOdd => cw + 1,
        };
        let ny = match kind {
            Sweep::Diamond => ch,
            Sweep::SquareEven => ch + 1,
            Sweep::SquareOdd => ch,
        };
        let ox = match kind {
            Sweep::Diamond => half,
            Sweep::SquareEven => half,
            Sweep::SquareOdd => 0,
        };
        let oy = match kind {
            Sweep::Diamond => half,
            Sweep::SquareEven => 0,
            Sweep::SquareOdd => half,
        };
        let mut kx: usize = 0;
        while kx < nx
            invariant
                self.wf(),
                (t as int) < self.iteration_spec(),
                w as int == self.map_w(),
                h as int == self.map_h(),
                step as int == self.step_at(t as int),
                step == 2 * half,
                half >= 1,
                step <= w - 1,
                step <= h - 1,
                (w as int) * (h as int) <= 16385 * 16385,
                cw as int == self.cw_at(t as int),
                ch as int == self.ch_at(t as int),
                (cw as int) * (step as int) == w - 1,
                (ch as int) * (step as int) == h - 1,
                nx as int == nx_of(*self, kind, t as int),
                ny as int == ny_of(*self, kind, t as int),
                ox as int == ox_of(*self, kind, t as int),
                oy as int == oy_of(*self, kind, t as int),
                ox + (nx - 1) * step <= w - 1,
                oy + (ny - 1) * step <= h - 1,
                kx <= nx,
                grid@.len() == w * h,
                st.0.len() == (w as int) * (h as int),
                st.1 >= 0,
                st.1 + (nx as int) * (ny as int) <= 2 * ((w as int) * (h as int)),
                ints_of(grid@) == sweep_rows(*self, raws@, kind, t as int, st, kx as int).0,
                *si as int == sweep_rows(*self, raws@, kind, t as int, st, kx as int).1,
                *si as int == st.1 + (kx as int) * (ny as int),
            decreases nx - kx,
        {
            let ghost strow = sweep_rows(*self, raws@, kind, t as int, st, kx as int);
            proof {
                lemma_mul_inequality(kx as int + 1, nx as int, ny as int);
                assert((kx as int + 1) * (ny as int) == (kx as int) * (ny as int) + ny as int)
                    by (nonlinear_arith);
            }
            let mut ky: usize = 0;
            while ky < ny
                invariant
                    self.wf(),
                    (t as int) < self.iteration_spec(),
                    w as int == self.map_w(),
                    h as int == self.map_h(),
                    step as int == self.step_at(t as int),
                    step == 2 * half,
                    half >= 1,
                    step <= w - 1,
                    step <= h - 1,
                    (w as int) * (h as int) <= 16385 * 16385,
                    cw as int == self.cw_at(t as int),
                    ch as int == self.ch_at(t as int),
                    (cw as int) * (step as int) == w - 1,
                    (ch as int) * (step as int) == h - 1,
                    nx as int == nx_of(*self, kind, t as int),
                    ny as int == ny_of(*self, kind, t as int),
                    ox as int == ox_of(*self, kind, t as int),
                    oy as int == oy_of(*self, kind, t as int),
                    ox + (nx - 1) * step <= w - 1,
                    oy + (ny - 1) * step <= h - 1,
                    kx < nx,
                    ky <= ny,
                    grid@.len() == w * h,
                    st.0.len() == (w as int) * (h as int),
                    st.1 >= 0,
                    st.1 + (nx as int) * (ny as int) <= 2 * ((w as int) * (h as int)),
                    strow == sweep_rows(*self, raws@, kind, t as int, st, kx as int),
                    strow.1 == st.1 + (kx as int) * (ny as int),
                    (kx as int + 1) * (ny as int) <= (nx as int) * (ny as int),
                    (kx as int + 1) * (ny as int) == (kx as int) * (ny as int) + ny as int,
                    ints_of(grid@) == sweep_cols(
                        *self,
                        raws@,
                        kind,
                        t as int,
                        strow,
                        kx as int,
                        ky as int,
                    ).0,
                    *si as int == sweep_cols(
                        *self,
                        raws@,
                        kind,
                        t as int,
                        strow,
                        kx as int,
                        ky as int,
                    ).1,
                    *si as int == strow.1 + ky as int,
                decreases ny - ky,
            {
                proof {
                    lemma_mul_inequality(kx as int, nx as int - 1, step as int);
                    lemma_mul_inequality(ky as int, ny as int - 1, step as int);
                    assert((nx as int - 1) * (step as int) == (nx as int) * (step as int)
                        - step as int) by (nonlinear_arith);
                    assert((ny as int - 1) * (step as int) == (ny as int) * (step as int)
                        - step as int) by (nonlinear_arith);
                    assert((kx as int) * (step as int) >= 0 && (ky as int) * (step as int) >= 0)
                        by (nonlinear_arith)
                        requires
                            kx as int >= 0,
                            ky as int >= 0,
                            step as int >= 0,
                    ;
                }
                let x = ox + kx * step;
                let y = oy + ky * step;
                let sum: i128 = match kind {
                    Sweep::Diamond => {
                        let a = cell_at(grid, w, h, x - half, y - half);
                        let b = cell_at(grid, w, h, x - half, y + half);
                        let c = cell_at(grid, w, h, x + half, y - half);
                        let d = cell_at(grid, w, h, x + half, y + half);
                        (a as i128) + (b as i128) + (c as i128) + (d as i128)
                    },
                    Sweep::SquareEven => {
                        let a = cell_at(grid, w, h, x - half, y);
                        let b = cell_at(grid, w, h, x + half, y);
                        let c = cell_at(grid, w, h, x, (y + h - half) % h);
                        let d = cell_at(grid, w, h, x, (y + half) % h);
                        (a as i128) + (b as i128) + (c as i128) + (d as i128)
                    },
                    Sweep::SquareOdd => {
                        let a = cell_at(grid, w, h, (x + w - half) % w, y);
                        let b = cell_at(grid, w, h, (x + half) % w, y);
                        let c = cell_at(grid, w, h, x, y - half);
                        let d = cell_at(grid, w, h, x, y + half);
                        (a as i128) + (b as i128) + (c as i128) + (d as i128)
                    },
                };
                let j = jitter_in(stream_get(raws, *si), self.roughness);
                let v = perturb_sum(sum, 4, j);
                put_cell(grid, w, h, x, y, v);
                *si = *si + 1;
                ky = ky + 1;
            }
            kx = kx + 1;
        }
    }

    /// Generates the grid of heights that this configuration fixes,
    /// row-major by the first coordinate. The result is exactly
    /// [`ds_cells`] of the configuration: generation is deterministic, and
    /// two calls return the same grid.
    pub fn generate(&self) -> (out: Vec<i64>)
        ensures
            out@.len() == self.map_w() * self.map_h(),
            ints_of(out@) == ds_cells(*self),
    {
        proof {
            use_type_invariant(self);
            lemma_pow2_pos(self.iteration as nat);
        }
        let s0 = pow2_usize(self.iteration);
        let w = self.width * s0 + 1;
        let h = self.height * s0 + 1;
        proof {
            assert((w as int) * (h as int) <= 16385 * 16385) by (nonlinear_arith)
                requires
                    1 <= w as int <= 16385,
                    1 <= h as int <= 16385,
            ;
        }
        let total = w * h;
        let n = 2 * total;
        let raws = draw_raws(self.seed, n);
        let ghost rs = raws@;
        let mut grid = zero_vec(total);
        let mut si: usize = 0;
        let ghost st0 = (zero_seq(((w as int) * (h as int)) as nat), 0int);
        let mut kx: usize = 0;
        while kx < self.width + 1
            invariant
                self.wf(),
                s0 as int == self.step0(),
                s0 >= 1,
                w as int == self.map_w(),
                h as int == self.map_h(),
                (w as int) * (h as int) <= 16385 * 16385,
                total as int == (w as int) * (h as int),
                raws@ == rs,
                kx <= self.width + 1,
                grid@.len() == total,
                st0 == (zero_seq(((w as int) * (h as int)) as nat), 0int),
                (kx as int) * (self.height_spec() + 1) <= (w as int) * (h as int),
                ints_of(grid@) == seed_rows(*self, rs, st0, kx as int).0,
                si as int == seed_rows(*self, rs, st0, kx as int).1,
                si as int == (kx as int) * (self.height_spec() + 1),
            decreases self.width + 1 - kx,
        {
            let ghost strow = seed_rows(*self, rs, st0, kx as int);
            proof {
                assert(self.width_spec() + 1 <= w as int && self.height_spec() + 1 <= h as int)
                    by (nonlinear_arith)
                    requires
                        self.width_spec() >= 1,
                        self.height_spec() >= 1,
                        s0 as int >= 1,
                        w as int == self.width_spec() * (s0 as int) + 1,
                        h as int == self.height_spec() * (s0 as int) + 1,
                ;
                lemma_mul_inequality(kx as int + 1, self.width_spec() + 1, self.height_spec() + 1);
                assert((kx as int + 1) * (self.height_spec() + 1) == (kx as int) * (
                self.height_spec() + 1) + (self.height_spec() + 1)) by (nonlinear_arith);
                assert((self.width_spec() + 1) * (self.height_spec() + 1) <= (w as int) * (
                h as int)) by (nonlinear_arith)
                    requires
                        0 <= self.width_spec() + 1 <= w as int,
                        0 <= self.height_spec() + 1 <= h as int,
                ;
            }
            let mut ky: usize = 0;
            while ky < self.height + 1
                invariant
                    self.wf(),
                    s0 as int == self.step0(),
                    s0 >= 1,
                    w as int == self.map_w(),
                    h as int == self.map_h(),
                    (w as int) * (h as int) <= 16385 * 16385,
                    total as int == (w as int) * (h as int),
                    raws@ == rs,
                    kx < self.width + 1,
                    ky <= self.height + 1,
                    grid@.len() == total,
                    strow == seed_rows(*self, rs, st0, kx as int),
                    strow.1 == (kx as int) * (self.height_spec() + 1),
                    strow.1 + (self.height_spec() + 1) <= (w as int) * (h as int),
                    ints_of(grid@) == seed_cols(*self, rs, strow, kx as int, ky as int).0,
                    si as int == seed_cols(*self, rs, strow, kx as int, ky as int).1,
                    si as int == strow.1 + ky as int,
                decreases self.height + 1 - ky,
            {
                let v = sample_in(stream_get(&raws, si), self.lo, self.hi);
                proof {
                    lemma_mul_inequality(kx as int, self.width_spec(), s0 as int);
                    lemma_mul_inequality(ky as int, self.height_spec(), s0 as int);
                    assert((kx as int) * (s0 as int) >= 0 && (ky as int) * (s0 as int) >= 0)
                        by (nonlinear_arith)
                        requires
                            kx as int >= 0,
                            ky as int >= 0,
                            s0 as int >= 0,
                    ;
                }
                put_cell(&mut grid, w, h, kx * s0, ky * s0, v);
                si = si + 1;
                ky = ky + 1;
            }
            kx = kx + 1;
        }
        let mut step = s0;
        let mut t: u32 = 0;
        while t < self.iteration
            invariant
                self.wf(),
                w as int == self.map_w(),
                h as int == self.map_h(),
                (w as int) * (h as int) <= 16385 * 16385,
                total as int == (w as int) * (h as int),
                raws@ == rs,
                t <= self.iteration,
                step as int == self.step_at(t as int),
                grid@.len() == total,
                ints_of(grid@) == ds_iters(*self, rs, t as int).0,
                si as int == ds_iters(*self, rs, t as int).1,
            decreases self.iteration - t,
        {
            let ghost stt = ds_iters(*self, rs, t as int);
            let ghost ti = t as int;
            let ghost cw = self.cw_at(ti);
            let ghost ch = self.ch_at(ti);
            let ghost wi = w as int;
            let ghost hi = h as int;
            proof {
                lemma_ds_layout(*self, ti);
                lemma_ds_iters_shape(*self, rs, ti);
                assert(2 * cw * (step as int / 2) == wi - 1 && 2 * ch * (step as int / 2) == hi
                    - 1) by (nonlinear_arith)
                    requires
                        cw * (step as int) == wi - 1,
                        ch * (step as int) == hi - 1,
                        step as int == 2 * (step as int / 2),
                ;
                assert(2 * cw <= 2 * cw * (step as int / 2) && 2 * ch <= 2 * ch * (step as int
                    / 2)) by (nonlinear_arith)
                    requires
                        cw >= 1,
                        ch >= 1,
                        step as int / 2 >= 1,
                ;
                assert(4 * (cw * ch) == (2 * cw) * (2 * ch)) by (nonlinear_arith);
                assert(cw * ch >= 1) by (nonlinear_arith)
                    requires
                        cw >= 1,
                        ch >= 1,
                ;
                assert((2 * cw) * (2 * ch) + (2 * cw) + (2 * ch) <= wi * hi - 1)
                    by (nonlinear_arith)
                    requires
                        1 <= 2 * cw <= wi - 1,
                        1 <= 2 * ch <= hi - 1,
                        wi >= 2,
                        hi >= 2,
                ;
                assert(cw * (ch + 1) == cw * ch + cw && (cw + 1) * ch == cw * ch + ch)
                    by (nonlinear_arith);
            }
            self.run_sweep(&mut grid, &mut si, &raws, w, h, step, t, Sweep::Diamond, Ghost(stt));
            let ghost std_ = sweep_rows(*self, rs, Sweep::Diamond, ti, stt, nx_of(
                *self,
                Sweep::Diamond,
                ti,
            ));
            proof {
                lemma_sweep_rows_shape(*self, rs, Sweep::Diamond, ti, stt, cw);
            }
            self.run_sweep(&mut grid, &mut si, &raws, w, h, step, t, Sweep::SquareEven, Ghost(std_));
            let ghost ste_ = sweep_rows(*self, rs, Sweep::SquareEven, ti, std_, nx_of(
                *self,
                Sweep::SquareEven,
                ti,
            ));
            proof {
                lemma_sweep_rows_shape(*self, rs, Sweep::SquareEven, ti, std_, cw);
            }
            self.run_sweep(&mut grid, &mut si, &raws, w, h, step, t, Sweep::SquareOdd, Ghost(ste_));
            step = step / 2;
            t = t + 1;
        }
        proof {
            assert(2 * self.map_w() * self.map_h() == 2 * (self.map_w() * self.map_h()))
                by (nonlinear_arith);
        }
        grid
    }
}


impl Default for DiamondSquare {
    /// The configuration of the documentation examples: a four by four
    /// base, two passes, a roughness of 1.1 (eleven hundred thousandths),
    /// heights drawn from one unit below zero up to one unit, and seed 42.
    fn default() -> (r: Self)
        ensures
            r.width_spec() == 4,
            r.height_spec() == 4,
            r.iteration_spec() == 2,
            r.roughness_spec() == 1100,
            r.lo_spec() == -1000,
            r.hi_spec() == 1000,
            r.seed_spec() == 42,
    {
        proof {
            lemma2_to64();
            assert(4int * (pow2(2) as int) == 16);
        }
        DiamondSquare {
            width: 4,
            height: 4,
            iteration: 2,
            roughness: 1100,
            lo: -1000,
            hi: 1000,
            seed: 42,
        }
    }
}

impl DiamondSquare {
    /// A configuration with the given base size and every other field at
    /// its default; rejected like [`DiamondSquare::set_size`].
    pub fn new(width: usize, height: usize) -> (r: TerrainResult<Self>)
        ensures
            side_ok(width as int, 2) && side_ok(height as int, 2) ==> r is Ok
                && r->Ok_0.width_spec() == width as int && r->Ok_0.height_spec() == height as int
                && r->Ok_0.iteration_spec() == 2 && r->Ok_0.roughness_spec() == 1100
                && r->Ok_0.lo_spec() == -1000 && r->Ok_0.hi_spec() == 1000
                && r->Ok_0.seed_spec() == 42,
            !(side_ok(width as int, 2) && side_ok(height as int, 2)) ==> r is Err
                && r->Err_0.is_invalid_range(),
    {
        DiamondSquare::default().with_size(width, height)
    }

    /// The base size, width first.
    pub fn get_size(&self) -> (r: (usize, usize))
        ensures
            r.0 as int == self.width_spec(),
            r.1 as int == self.height_spec(),
    {
        (self.width, self.height)
    }

    /// The size of the grid that [`DiamondSquare::generate`] returns,
    /// width first: each base side doubled once per pass, plus one.
    pub fn get_map_size(&self) -> (r: (usize, usize))
        ensures
            r.0 as int == self.map_w(),
            r.1 as int == self.map_h(),
    {
        proof {
            use_type_invariant(self);
        }
        let s0 = pow2_usize(self.iteration);
        (self.width * s0 + 1, self.height * s0 + 1)
    }

    /// Replaces the base size. Accepted exactly when both sides are
    /// positive and, doubled once per configured pass, stay within the
    /// accepted side cap; otherwise nothing changes and `InvalidRange`
    /// comes back.
    pub fn set_size(&mut self, width: usize, height: usize) -> (r: TerrainResult<()>)
        ensures
            final(self).iteration_spec() == old(self).iteration_spec(),
            final(self).roughness_spec() == old(self).roughness_spec(),
            final(self).lo_spec() == old(self).lo_spec(),
            final(self).hi_spec() == old(self).hi_spec(),
            final(self).seed_spec() == old(self).seed_spec(),
            side_ok(width as int, old(self).iteration_spec()) && side_ok(
                height as int,
                old(self).iteration_spec(),
            ) ==> r is Ok && final(self).width_spec() == width as int && final(self).height_spec()
                == height as int,
            !(side_ok(width as int, old(self).iteration_spec()) && side_ok(
                height as int,
                old(self).iteration_spec(),
            )) ==> r is Err && r->Err_0.is_invalid_range() && final(self).width_spec() == old(
                self,
            ).width_spec() && final(self).height_spec() == old(self).height_spec(),
    {
        proof {
            use_type_invariant(&*self);
        }
        if check_side(width, self.iteration) && check_side(height, self.iteration) {
            self.width = width;
            self.height = height;
            Ok(())
        } else {
            Err(
                TerrainError::invalid_range(
                    "size must be positive and keep the final grid within the side cap".to_owned(),
                ),
            )
        }
    }

    /// Builder form of [`DiamondSquare::set_size`].
    pub fn with_size(self, width: usize, height: usize) -> (r: TerrainResult<Self>)
        ensures
            side_ok(width as int, self.iteration_spec()) && side_ok(
                height as int,
                self.iteration_spec(),
            ) ==> r is Ok && r->Ok_0.width_spec() == width as int && r->Ok_0.height_spec()
                == height as int && r->Ok_0.iteration_spec() == self.iteration_spec()
                && r->Ok_0.roughness_spec() == self.roughness_spec() && r->Ok_0.lo_spec()
                == self.lo_spec() && r->Ok_0.hi_spec() == self.hi_spec() && r->Ok_0.seed_spec()
                == self.seed_spec(),
            !(side_ok(width as int, self.iteration_spec()) && side_ok(
                height as int,
                self.iteration_spec(),
            )) ==> r is Err && r->Err_0.is_invalid_range(),
    {
        let mut cfg = self;
        match cfg.set_size(width, height) {
            Ok(()) => Ok(cfg),
            Err(e) => Err(e),
        }
    }

    /// The number of subdivision passes.
    pub fn get_iteration(&self) -> (r: u32)
        ensures
            r as int == self.iteration_spec(),
    {
        self.iteration
    }

    /// Replaces the iteration count. Accepted exactly when it stays below
    /// thirty and both base sides, doubled once per pass, stay within the
    /// accepted side cap; otherwise nothing changes and `InvalidRange`
    /// comes back.
    pub fn set_iteration(&mut self, iteration: u32) -> (r: TerrainResult<()>)
        ensures
            final(self).width_spec() == old(self).width_spec(),
            final(self).height_spec() == old(self).height_spec(),
            final(self).roughness_spec() == old(self).roughness_spec(),
            final(self).lo_spec() == old(self).lo_spec(),
            final(self).hi_spec() == old(self).hi_spec(),
            final(self).seed_spec() == old(self).seed_spec(),
            iteration < 30 && side_ok(old(self).width_spec(), iteration as int) && side_ok(
                old(self).height_spec(),
                iteration as int,
            ) ==> r is Ok && final(self).iteration_spec() == iteration as int,
            !(iteration < 30 && side_ok(old(self).width_spec(), iteration as int) && side_ok(
                old(self).height_spec(),
                iteration as int,
            )) ==> r is Err && r->Err_0.is_invalid_range() && final(self).iteration_spec() == old(
                self,
            ).iteration_spec(),
    {
        proof {
            use_type_invariant(&*self);
        }
        if iteration < 30 && check_side(self.width, iteration) && check_side(
            self.height,
            iteration,
        ) {
            self.iteration = iteration;
            Ok(())
        } else {
            Err(TerrainError::invalid_range("iteration too high, out of memory".to_owned()))
        }
    }

    /// Builder form of [`DiamondSquare::set_iteration`].
    pub fn with_iteration(self, iteration: u32) -> (r: TerrainResult<Self>)
        ensures
            iteration < 30 && side_ok(self.width_spec(), iteration as int) && side_ok(
                self.height_spec(),
                iteration as int,
            ) ==> r is Ok && r->Ok_0.iteration_spec() == iteration as int && r->Ok_0.width_spec()
                == self.width_spec() && r->Ok_0.height_spec() == self.height_spec()
                && r->Ok_0.roughness_spec() == self.roughness_spec() && r->Ok_0.lo_spec()
                == self.lo_spec() && r->Ok_0.hi_spec() == self.hi_spec() && r->Ok_0.seed_spec()
                == self.seed_spec(),
            !(iteration < 30 && side_ok(self.width_spec(), iteration as int) && side_ok(
                self.height_spec(),
                iteration as int,
            )) ==> r is Err && r->Err_0.is_invalid_range(),
    {
        let mut cfg = self;
        match cfg.set_iteration(iteration) {
            Ok(()) => Ok(cfg),
            Err(e) => Err(e),
        }
    }

    /// The roughness, in thousandths.
    pub fn get_roughness(&self) -> (r: i64)
        ensures
            r as int == self.roughness_spec(),
    {
        self.roughness
    }

    /// Replaces the roughness, given in thousandths. Accepted exactly for
    /// factors from one (no jitter) up to one thousand units; otherwise
    /// nothing changes and `InvalidRange` comes back.
    pub fn set_roughness(&mut self, roughness: i64) -> (r: TerrainResult<()>)
        ensures
            final(self).width_spec() == old(self).width_spec(),
            final(self).height_spec() == old(self).height_spec(),
            final(self).iteration_spec() == old(self).iteration_spec(),
            final(self).lo_spec() == old(self).lo_spec(),
            final(self).hi_spec() == old(self).hi_spec(),
            final(self).seed_spec() == old(self).seed_spec(),
            SCALE <= roughness <= MAX_ROUGHNESS ==> r is Ok && final(self).roughness_spec()
                == roughness as int,
            !(SCALE <= roughness <= MAX_ROUGHNESS) ==> r is Err && r->Err_0.is_invalid_range()
                && final(self).roughness_spec() == old(self).roughness_spec(),
    {
        proof {
            use_type_invariant(&*self);
        }
        if SCALE <= roughness && roughness <= MAX_ROUGHNESS {
            self.roughness = roughness;
            Ok(())
        } else {
            Err(
                TerrainError::invalid_range(
                    "roughness must lie between one and one thousand units".to_owned(),
                ),
            )
        }
    }

    /// Builder form of [`DiamondSquare::set_roughness`].
    pub fn with_roughness(self, roughness: i64) -> (r: TerrainResult<Self>)
        ensures
            SCALE <= roughness <= MAX_ROUGHNESS ==> r is Ok && r->Ok_0.roughness_spec()
                == roughness as int && r->Ok_0.width_spec() == self.width_spec()
                && r->Ok_0.height_spec() == self.height_spec() && r->Ok_0.iteration_spec()
                == self.iteration_spec() && r->Ok_0.lo_spec() == self.lo_spec()
                && r->Ok_0.hi_spec() == self.hi_spec() && r->Ok_0.seed_spec() == self.seed_spec(),
            !(SCALE <= roughness <= MAX_ROUGHNESS) ==> r is Err && r->Err_0.is_invalid_range(),
    {
        let mut cfg = self;
        match cfg.set_roughness(roughness) {
            Ok(()) => Ok(cfg),
            Err(e) => Err(e),
        }
    }

    /// The sampling interval, lower bound first.
    pub fn get_range(&self) -> (r: (i64, i64))
        ensures
            r.0 as int == self.lo_spec(),
            r.1 as int == self.hi_spec(),
            r.0 < r.1,
    {
        proof {
            use_type_invariant(self);
        }
        (self.lo, self.hi)
    }

    /// Replaces the sampling interval, in milli-units. Accepted exactly
    /// when the bounds are ordered and lie within the height limit;
    /// otherwise nothing changes and `InvalidRange` comes back.
    pub fn set_range(&mut self, lo: i64, hi: i64) -> (r: TerrainResult<()>)
        ensures
            final(self).width_spec() == old(self).width_spec(),
            final(self).height_spec() == old(self).height_spec(),
            final(self).iteration_spec() == old(self).iteration_spec(),
            final(self).roughness_spec() == old(self).roughness_spec(),
            final(self).seed_spec() == old(self).seed_spec(),
            -HEIGHT_LIMIT <= lo < hi <= HEIGHT_LIMIT ==> r is Ok && final(self).lo_spec()
                == lo as int && final(self).hi_spec() == hi as int,
            !(-HEIGHT_LIMIT <= lo < hi <= HEIGHT_LIMIT) ==> r is Err
                && r->Err_0.is_invalid_range() && final(self).lo_spec() == old(self).lo_spec()
                && final(self).hi_spec() == old(self).hi_spec(),
    {
        proof {
            use_type_invariant(&*self);
        }
        if -HEIGHT_LIMIT <= lo && lo < hi && hi <= HEIGHT_LIMIT {
            *self = DiamondSquare { lo, hi, ..*self };
            Ok(())
        } else {
            Err(
                TerrainError::invalid_range(
                    "range bounds must be ordered and lie within the height limit".to_owned(),
                ),
            )
        }
    }

    /// Builder form of [`DiamondSquare::set_range`].
    pub fn with_range(self, lo: i64, hi: i64) -> (r: TerrainResult<Self>)
        ensures
            -HEIGHT_LIMIT <= lo < hi <= HEIGHT_LIMIT ==> r is Ok && r->Ok_0.lo_spec() == lo as int
                && r->Ok_0.hi_spec() == hi as int && r->Ok_0.width_spec() == self.width_spec()
                && r->Ok_0.height_spec() == self.height_spec() && r->Ok_0.iteration_spec()
                == self.iteration_spec() && r->Ok_0.roughness_spec() == self.roughness_spec()
                && r->Ok_0.seed_spec() == self.seed_spec(),
            !(-HEIGHT_LIMIT <= lo < hi <= HEIGHT_LIMIT) ==> r is Err
                && r->Err_0.is_invalid_range(),
    {
        let mut cfg = self;
        match cfg.set_range(lo, hi) {
            Ok(()) => Ok(cfg),
            Err(e) => Err(e),
        }
    }

    /// The seed.
    pub fn get_seed(&self) -> (r: u64)
        ensures
            r == self.seed_spec(),
    {
        self.seed
    }

    /// Replaces the seed; every seed is accepted.
    pub fn set_seed(&mut self, seed: u64)
        ensures
            final(self).width_spec() == old(self).width_spec(),
            final(self).height_spec() == old(self).height_spec(),
            final(self).iteration_spec() == old(self).iteration_spec(),
            final(self).roughness_spec() == old(self).roughness_spec(),
            final(self).lo_spec() == old(self).lo_spec(),
            final(self).hi_spec() == old(self).hi_spec(),
            final(self).seed_spec() == seed,
    {
        proof {
            use_type_invariant(&*self);
        }
        self.seed = seed;
    }

    /// Builder form of [`DiamondSquare::set_seed`].
    pub fn with_seed(self, seed: u64) -> (r: Self)
        ensures
            r.width_spec() == self.width_spec(),
            r.height_spec() == self.height_spec(),
            r.iteration_spec() == self.iteration_spec(),
            r.roughness_spec() == self.roughness_spec(),
            r.lo_spec() == self.lo_spec(),
            r.hi_spec() == self.hi_spec(),
            r.seed_spec() == seed,
    {
        let mut cfg = self;
        cfg.set_seed(seed);
        cfg
    }

    /// Generates the grid and wraps it with its exact height range: the
    /// terrain of this configuration. The range bounds are the true
    /// minimum and maximum over all cells, so every cell lies within them.
    pub fn as_terrain(&self) -> (r: GridTerrain)
        ensures
            r.cells() == ds_cells(*self),
            r.width_spec() == self.map_w(),
            r.height_spec() == self.map_h(),
            r.start_spec() == seq_min(ds_cells(*self)),
            r.end_spec() == seq_max(ds_cells(*self)),
    {
        proof {
            use_type_invariant(self);
        }
        let cells = self.generate();
        let (w, h) = self.get_map_size();
        proof {
            assert((w as int) * (h as int) >= 1) by (nonlinear_arith)
                requires
                    w as int >= 1,
                    h as int >= 1,
            ;
        }
        let (mn, mx) = scan_range(&cells);
        GridTerrain::from_parts(cells, w, h, mn, mx)
    }
}

impl GridTerrain {
    /// The terrain of a two-dimensional configuration: shorthand for
    /// [`DiamondSquare::as_terrain`].
    pub fn diamond_square(config: &DiamondSquare) -> (r: GridTerrain)
        ensures
            r.cells() == ds_cells(*config),
            r.width_spec() == config.map_w(),
            r.height_spec() == config.map_h(),
            r.start_spec() == seq_min(ds_cells(*config)),
            r.end_spec() == seq_max(ds_cells(*config)),
    {
        config.as_terrain()
    }
}


/// The height that the lattice enlargement puts at cell `(x, y)`: grids
/// built from a caller-supplied base matrix duplicate the first column and
/// row onto the last (the wrap seam), place the matrix values on the
/// lattice, and leave every other cell at zero.
pub closed spec fn enlarged_at(
    base: Seq<int>,
    bw: int,
    bh: int,
    s: int,
    w: int,
    h: int,
    x: int,
    y: int,
) -> int {
    let xx = if x == w - 1 {
        0int
    } else {
        x
    };
    let yy = if y == h - 1 {
        0int
    } else {
        y
    };
    if xx % s == 0 && yy % s == 0 && xx / s < bw && yy / s < bh {
        base[(xx / s) * bh + yy / s]
    } else {
        0
    }
}

impl DiamondSquare {
    /// Spreads a base matrix of `base_w * base_h` heights onto the
    /// enlarged lattice: value `(i, j)` of the matrix lands at cell
    /// `(i * 2^iteration, j * 2^iteration)`, the first column and row are
    /// duplicated onto the last so the seam wraps, and every other cell is
    /// zero.
    fn enlarge_map(&self, matrix: &Vec<i64>, base_w: usize, base_h: usize) -> (out: Vec<i64>)
        requires
            self.wf(),
            side_ok(base_w as int, self.iteration_spec()),
            side_ok(base_h as int, self.iteration_spec()),
            base_w <= MAX_MAP_SIDE,
            base_h <= MAX_MAP_SIDE,
            matrix@.len() == base_w * base_h,
        ensures
            out@.len() == ((base_w as int) * self.step0() + 1) * ((base_h as int) * self.step0()
                + 1),
            forall|x: int, y: int|
                0 <= x < (base_w as int) * self.step0() + 1 && 0 <= y < (base_h as int)
                    * self.step0() + 1 ==> #[trigger] ints_of(out@)[x * ((base_h as int)
                    * self.step0() + 1) + y] == enlarged_at(
                    ints_of(matrix@),
                    base_w as int,
                    base_h as int,
                    self.step0(),
                    (base_w as int) * self.step0() + 1,
                    (base_h as int) * self.step0() + 1,
                    x,
                    y,
                ),
    {
        let s0 = pow2_usize(self.iteration);
        let w = base_w * s0 + 1;
        let h = base_h * s0 + 1;
        let ghost bi = ints_of(matrix@);
        let ghost wi = w as int;
        let ghost hi = h as int;
        proof {
            assert((w as int) * (h as int) <= 0x10000001 * 0x10000001) by (nonlinear_arith)
                requires
                    1 <= w as int <= 0x10000001,
                    1 <= h as int <= 0x10000001,
            ;
        }
        let mut out: Vec<i64> = Vec::new();
        let mut x: usize = 0;
        while x < w
            invariant
                self.wf(),
                s0 as int == self.step0(),
                s0 >= 1,
                wi == (base_w as int) * self.step0() + 1,
                hi == (base_h as int) * self.step0() + 1,
                w as int == wi,
                h as int == hi,
                wi * hi <= 0x10000001 * 0x10000001,
                matrix@.len() == base_w * base_h,
                bi == ints_of(matrix@),
                x <= w,
                out@.len() == (x as int) * hi,
                forall|px: int, py: int|
                    0 <= px < x && 0 <= py < hi ==> #[trigger] ints_of(out@)[px * hi + py]
                        == enlarged_at(bi, base_w as int, base_h as int, s0 as int, wi, hi, px, py),
            decreases w - x,
        {
            proof {
                lemma_mul_inequality(x as int + 1, wi, hi);
                assert((x as int + 1) * hi == (x as int) * hi + hi) by (nonlinear_arith);
                assert((x as int) * hi >= 0) by (nonlinear_arith)
                    requires
                        x as int >= 0,
                        hi >= 0,
                ;
            }
            let mut y: usize = 0;
            while y < h
                invariant
                    self.wf(),
                    s0 as int == self.step0(),
                    s0 >= 1,
                    wi == (base_w as int) * self.step0() + 1,
                    hi == (base_h as int) * self.step0() + 1,
                    w as int == wi,
                    h as int == hi,
                    wi * hi <= 0x10000001 * 0x10000001,
                    matrix@.len() == base_w * base_h,
                    bi == ints_of(matrix@),
                    x < w,
                    y <= h,
                    (x as int + 1) * hi == (x as int) * hi + hi,
                    (x as int) * hi >= 0,
                    out@.len() == (x as int) * hi + y as int,
                    forall|px: int, py: int|
                        0 <= py < hi && (0 <= px < x || (px == x as int && 0 <= py < y))
                            ==> #[trigger] ints_of(out@)[px * hi + py] == enlarged_at(
                            bi,
                            base_w as int,
                            base_h as int,
                            s0 as int,
                            wi,
                            hi,
                            px,
                            py,
                        ),
                decreases h - y,
            {
                let xx = if x == w - 1 {
                    0
                } else {
                    x
                };
                let yy = if y == h - 1 {
                    0
                } else {
                    y
                };
                let v = if xx % s0 == 0 && yy % s0 == 0 {
                    let qx = xx / s0;
                    let qy = yy / s0;
                    if qx < base_w && qy < base_h {
                        proof {
                            vstd::std_specs::vec::axiom_spec_len(matrix);
                            lemma_cell_index(base_w as int, base_h as int, qx as int, qy as int);
                        }
                        matrix[qx * base_h + qy]
                    } else {
                        0
                    }
                } else {
                    0
                };
                let ghost gpre = out@;
                out.push(v);
                proof {
                    assert forall|px: int, py: int|
                        0 <= py < hi && 0 <= px < x implies #[trigger] (px * hi + py) < (
                    x as int) * hi by {
                        lemma_mul_inequality(px + 1, x as int, hi);
                        assert((px + 1) * hi == px * hi + hi) by (nonlinear_arith);
                    };
                    assert(out@[(x as int) * hi + y as int] == v);
                    assert(ints_of(out@)[(x as int) * hi + y as int] == v as int);
                    assert(v as int == enlarged_at(
                        bi,
                        base_w as int,
                        base_h as int,
                        s0 as int,
                        wi,
                        hi,
                        x as int,
                        y as int,
                    ));
                    assert(forall|i: int| 0 <= i < gpre.len() ==> #[trigger] ints_of(out@)[i]
                        == ints_of(gpre)[i]);
                }
                y = y + 1;
            }
            x = x + 1;
        }
        proof {
            assert(out@.len() == wi * hi) by (nonlinear_arith)
                requires
                    out@.len() == (w as int) * hi,
                    w as int == wi,
            ;
        }
        out
    }

    /// Enlarges a caller-supplied base matrix of `base_w * base_h` heights
    /// onto the full lattice of this configuration's iteration count, with
    /// the wrap seam duplicated, as [`DiamondSquare::enlarge_map`]
    /// describes. Accepted exactly when both base dimensions are positive
    /// and stay within the accepted side cap after doubling, and the matrix
    /// holds exactly one height per base cell; otherwise `InvalidRange`
    /// comes back.
    pub fn generate_by_array(&self, matrix: &Vec<i64>, base_w: usize, base_h: usize) -> (r:
        TerrainResult<Vec<i64>>)
        ensures
            side_ok(base_w as int, self.iteration_spec()) && side_ok(
                base_h as int,
                self.iteration_spec(),
            ) && matrix@.len() == (base_w as int) * (base_h as int) ==> r is Ok
                && r->Ok_0@.len() == ((base_w as int) * self.step0() + 1) * ((base_h as int)
                * self.step0() + 1) && forall|x: int, y: int|
                0 <= x < (base_w as int) * self.step0() + 1 && 0 <= y < (base_h as int)
                    * self.step0() + 1 ==> #[trigger] ints_of(r->Ok_0@)[x * ((base_h as int)
                    * self.step0() + 1) + y] == enlarged_at(
                    ints_of(matrix@),
                    base_w as int,
                    base_h as int,
                    self.step0(),
                    (base_w as int) * self.step0() + 1,
                    (base_h as int) * self.step0() + 1,
                    x,
                    y,
                ),
            !(side_ok(base_w as int, self.iteration_spec()) && side_ok(
                base_h as int,
                self.iteration_spec(),
            ) && matrix@.len() == (base_w as int) * (base_h as int)) ==> r is Err
                && r->Err_0.is_invalid_range(),
    {
        proof {
            use_type_invariant(self);
        }
        if check_side(base_w, self.iteration) && check_side(base_h, self.iteration) {
            proof {
                assert((base_w as int) * (base_h as int) <= 16384 * 16384) by (nonlinear_arith)
                    requires
                        1 <= base_w as int <= 16384,
                        1 <= base_h as int <= 16384,
                ;
            }
            if matrix.len() == base_w * base_h {
                return Ok(self.enlarge_map(matrix, base_w, base_h));
            }
        }
        Err(
            TerrainError::invalid_range(
                "base matrix must hold one height per cell of a size within the side cap"
                    .to_owned(),
            ),
        )
    }
}


/// Every seeded height lies within the saturation cap.
proof fn lemma_seed_cols_bounds(
    cfg: DiamondSquare,
    raws: Seq<u64>,
    st: (Seq<int>, int),
    kx: int,
    ky: int,
    i: int,
)
    requires
        cfg.wf(),
        0 <= kx <= cfg.width_spec(),
        0 <= ky <= cfg.height_spec() + 1,
        st.0.len() == cfg.map_w() * cfg.map_h(),
        0 <= i < st.0.len(),
        -VALUE_CAP <= st.0[i] <= VALUE_CAP,
    ensures
        -VALUE_CAP <= seed_cols(cfg, raws, st, kx, ky).0[i] <= VALUE_CAP,
    decreases ky,
{
    lemma_pow2_pos(cfg.iteration as nat);
    if ky > 0 {
        lemma_seed_cols_bounds(cfg, raws, st, kx, ky - 1, i);
        lemma_seed_cols_shape(cfg, raws, st, kx, ky - 1);
        let prev = seed_cols(cfg, raws, st, kx, ky - 1);
        vstd::arithmetic::div_mod::lemma_mod_bound(
            raw_at(raws, prev.1) as int,
            cfg.hi_spec() - cfg.lo_spec(),
        );
        lemma_mul_inequality(kx, cfg.width_spec(), cfg.step0());
        lemma_mul_inequality(ky - 1, cfg.height_spec(), cfg.step0());
        assert(kx * cfg.step0() >= 0 && (ky - 1) * cfg.step0() >= 0) by (nonlinear_arith)
            requires
                kx >= 0,
                ky - 1 >= 0,
                cfg.step0() >= 1,
        ;
        lemma_cell_index(
            cfg.map_w(),
            cfg.map_h(),
            kx * cfg.step0(),
            (ky - 1) * cfg.step0(),
        );
    }
}

/// Every height after seeding whole lattice rows lies within the cap.
proof fn lemma_seed_rows_bounds(
    cfg: DiamondSquare,
    raws: Seq<u64>,
    st: (Seq<int>, int),
    kx: int,
    i: int,
)
    requires
        cfg.wf(),
        0 <= kx <= cfg.width_spec() + 1,
        st.0.len() == cfg.map_w() * cfg.map_h(),
        0 <= i < st.0.len(),
        -VALUE_CAP <= st.0[i] <= VALUE_CAP,
    ensures
        -VALUE_CAP <= seed_rows(cfg, raws, st, kx).0[i] <= VALUE_CAP,
    decreases kx,
{
    if kx > 0 {
        lemma_seed_rows_bounds(cfg, raws, st, kx - 1, i);
        lemma_seed_rows_shape(cfg, raws, st, kx - 1);
        lemma_seed_cols_bounds(
            cfg,
            raws,
            seed_rows(cfg, raws, st, kx - 1),
            kx - 1,
            cfg.height_spec() + 1,
            i,
        );
    }
}

/// Every height after a sweep row lies within the cap.
proof fn lemma_sweep_cols_bounds(
    cfg: DiamondSquare,
    raws: Seq<u64>,
    kind: Sweep,
    t: int,
    st: (Seq<int>, int),
    kx: int,
    ky: int,
    i: int,
)
    requires
        cfg.wf(),
        0 <= t < cfg.iteration_spec(),
        0 <= kx < nx_of(cfg, kind, t),
        0 <= ky <= ny_of(cfg, kind, t),
        st.0.len() == cfg.map_w() * cfg.map_h(),
        0 <= i < st.0.len(),
        -VALUE_CAP <= st.0[i] <= VALUE_CAP,
    ensures
        -VALUE_CAP <= sweep_cols(cfg, raws, kind, t, st, kx, ky).0[i] <= VALUE_CAP,
    decreases ky,
{
    if ky > 0 {
        lemma_sweep_cols_bounds(cfg, raws, kind, t, st, kx, ky - 1, i);
        lemma_sweep_cols_shape(cfg, raws, kind, t, st, kx, ky - 1);
        lemma_ds_layout(cfg, t);
        lemma_sweep_frame(cfg, kind, t);
        let s = cfg.step_at(t);
        lemma_mul_inequality(kx, nx_of(cfg, kind, t) - 1, s);
        lemma_mul_inequality(ky - 1, ny_of(cfg, kind, t) - 1, s);
        assert(kx * s >= 0 && (ky - 1) * s >= 0) by (nonlinear_arith)
            requires
                kx >= 0,
                ky - 1 >= 0,
                s >= 1,
        ;
        lemma_cell_index(
            cfg.map_w(),
            cfg.map_h(),
            ox_of(cfg, kind, t) + kx * s,
            oy_of(cfg, kind, t) + (ky - 1) * s,
        );
    }
}

/// Every height after a full sweep lies within the cap.
proof fn lemma_sweep_rows_bounds(
    cfg: DiamondSquare,
    raws: Seq<u64>,
    kind: Sweep,
    t: int,
    st: (Seq<int>, int),
    kx: int,
    i: int,
)
    requires
        cfg.wf(),
        0 <= t < cfg.iteration_spec(),
        0 <= kx <= nx_of(cfg, kind, t),
        st.0.len() == cfg.map_w() * cfg.map_h(),
        0 <= i < st.0.len(),
        -VALUE_CAP <= st.0[i] <= VALUE_CAP,
    ensures
        -VALUE_CAP <= sweep_rows(cfg, raws, kind, t, st, kx).0[i] <= VALUE_CAP,
    decreases kx,
{
    if kx > 0 {
        lemma_sweep_rows_bounds(cfg, raws, kind, t, st, kx - 1, i);
        lemma_sweep_rows_shape(cfg, raws, kind, t, st, kx - 1);
        lemma_sweep_cols_bounds(
            cfg,
            raws,
            kind,
            t,
            sweep_rows(cfg, raws, kind, t, st, kx - 1),
            kx - 1,
            ny_of(cfg, kind, t),
            i,
        );
    }
}

/// Every height after the seeding phase and `t` passes lies within the cap.
proof fn lemma_ds_iters_bounds(cfg: DiamondSquare, raws: Seq<u64>, t: int, i: int)
    requires
        cfg.wf(),
        0 <= t <= cfg.iteration_spec(),
        0 <= i < cfg.map_w() * cfg.map_h(),
    ensures
        -VALUE_CAP <= ds_iters(cfg, raws, t).0[i] <= VALUE_CAP,
    decreases t,
{
    lemma_ds_iters_shape(cfg, raws, t);
    if t <= 0 {
        lemma_seed_rows_bounds(
            cfg,
            raws,
            (zero_seq((cfg.map_w() * cfg.map_h()) as nat), 0),
            cfg.width_spec() + 1,
            i,
        );
    } else {
        lemma_ds_iters_bounds(cfg, raws, t - 1, i);
        lemma_ds_iters_shape(cfg, raws, t - 1);
        let p = ds_iters(cfg, raws, t - 1);
        let d = sweep_rows(cfg, raws, Sweep::Diamond, t - 1, p, nx_of(cfg, Sweep::Diamond, t - 1));
        let e = sweep_rows(
            cfg,
            raws,
            Sweep::SquareEven,
            t - 1,
            d,
            nx_of(cfg, Sweep::SquareEven, t - 1),
        );
        lemma_sweep_rows_shape(cfg, raws, Sweep::Diamond, t - 1, p, nx_of(
            cfg,
            Sweep::Diamond,
            t - 1,
        ));
        lemma_sweep_rows_shape(cfg, raws, Sweep::SquareEven, t - 1, d, nx_of(
            cfg,
            Sweep::SquareEven,
            t - 1,
        ));
        lemma_sweep_rows_bounds(cfg, raws, Sweep::Diamond, t - 1, p, nx_of(
            cfg,
            Sweep::Diamond,
            t - 1,
        ), i);
        lemma_sweep_rows_bounds(cfg, raws, Sweep::SquareEven, t - 1, d, nx_of(
            cfg,
            Sweep::SquareEven,
            t - 1,
        ), i);
        lemma_sweep_rows_bounds(cfg, raws, Sweep::SquareOdd, t - 1, e, nx_of(
            cfg,
            Sweep::SquareOdd,
            t - 1,
        ), i);
    }
}

/// A sweep row leaves every cell outside its own grid column alone.
proof fn lemma_sweep_cols_keeps_other(
    cfg: DiamondSquare,
    raws: Seq<u64>,
    kind: Sweep,
    t: int,
    st: (Seq<int>, int),
    kx: int,
    ky: int,
    px: int,
    py: int,
)
    requires
        cfg.wf(),
        0 <= t < cfg.iteration_spec(),
        0 <= kx < nx_of(cfg, kind, t),
        0 <= ky <= ny_of(cfg, kind, t),
        st.0.len() == cfg.map_w() * cfg.map_h(),
        0 <= px < cfg.map_w(),
        0 <= py < cfg.map_h(),
        px != ox_of(cfg, kind, t) + kx * cfg.step_at(t),
    ensures
        sweep_cols(cfg, raws, kind, t, st, kx, ky).0[px * cfg.map_h() + py] == st.0[px
            * cfg.map_h() + py],
    decreases ky,
{
    if ky > 0 {
        lemma_sweep_cols_keeps_other(cfg, raws, kind, t, st, kx, ky - 1, px, py);
        lemma_sweep_cols_shape(cfg, raws, kind, t, st, kx, ky - 1);
        lemma_ds_layout(cfg, t);
        lemma_sweep_frame(cfg, kind, t);
        let s = cfg.step_at(t);
        let x = ox_of(cfg, kind, t) + kx * s;
        let y = oy_of(cfg, kind, t) + (ky - 1) * s;
        lemma_mul_inequality(kx, nx_of(cfg, kind, t) - 1, s);
        lemma_mul_inequality(ky - 1, ny_of(cfg, kind, t) - 1, s);
        assert(kx * s >= 0 && (ky - 1) * s >= 0) by (nonlinear_arith)
            requires
                kx >= 0,
                ky - 1 >= 0,
                s >= 1,
        ;
        lemma_cell_index(cfg.map_w(), cfg.map_h(), x, y);
        lemma_cell_index(cfg.map_w(), cfg.map_h(), px, py);
        lemma_cell_index_inj(cfg.map_h(), x, y, px, py);
    }
}

/// What a diamond sweep row writes: cell `qy` of the row takes the
/// perturbed average of the four corners as they stood when the row began,
/// under the `qy`-th draw the row consumes.
proof fn lemma_dia_cols_value(
    cfg: DiamondSquare,
    raws: Seq<u64>,
    t: int,
    st: (Seq<int>, int),
    kx: int,
    ky: int,
    qy: int,
)
    requires
        cfg.wf(),
        0 <= t < cfg.iteration_spec(),
        0 <= kx < nx_of(cfg, Sweep::Diamond, t),
        0 <= qy < ky <= ny_of(cfg, Sweep::Diamond, t),
        st.0.len() == cfg.map_w() * cfg.map_h(),
    ensures
        sweep_cols(cfg, raws, Sweep::Diamond, t, st, kx, ky).0[(cfg.step_at(t) / 2 + kx
            * cfg.step_at(t)) * cfg.map_h() + (cfg.step_at(t) / 2 + qy * cfg.step_at(t))]
            == perturbed_average(
            st.0[(kx * cfg.step_at(t)) * cfg.map_h() + qy * cfg.step_at(t)] + st.0[(kx
                * cfg.step_at(t)) * cfg.map_h() + (qy + 1) * cfg.step_at(t)] + st.0[((kx + 1)
                * cfg.step_at(t)) * cfg.map_h() + qy * cfg.step_at(t)] + st.0[((kx + 1)
                * cfg.step_at(t)) * cfg.map_h() + (qy + 1) * cfg.step_at(t)],
            4,
            jitter_of(raw_at(raws, st.1 + qy), cfg.roughness_spec()),
        ),
    decreases ky,
{
    lemma_ds_layout(cfg, t);
    lemma_sweep_frame(cfg, Sweep::Diamond, t);
    lemma_sweep_cols_shape(cfg, raws, Sweep::Diamond, t, st, kx, ky - 1);
    let s = cfg.step_at(t);
    let half = s / 2;
    let h = cfg.map_h();
    let x = half + kx * s;
    lemma_mul_inequality(kx + 1, nx_of(cfg, Sweep::Diamond, t), s);
    lemma_mul_inequality(ky, ny_of(cfg, Sweep::Diamond, t), s);
    lemma_mul_inequality(qy + 1, ny_of(cfg, Sweep::Diamond, t), s);
    assert((kx + 1) * s == kx * s + s && (ky - 1) * s == ky * s - s && (qy + 1) * s == qy * s
        + s) by (nonlinear_arith);
    assert(kx * s >= 0 && qy * s >= 0 && (ky - 1) * s >= 0) by (nonlinear_arith)
        requires
            kx >= 0,
            qy >= 0,
            ky - 1 >= 0,
            s >= 1,
    ;
    vstd::arithmetic::div_mod::lemma_mod_multiples_basic(kx, s);
    vstd::arithmetic::div_mod::lemma_mod_multiples_basic(kx + 1, s);
    vstd::arithmetic::div_mod::lemma_mod_multiples_basic(qy, s);
    vstd::arithmetic::div_mod::lemma_mod_multiples_basic(qy + 1, s);
    assert(kx * s == s * kx && (kx + 1) * s == s * (kx + 1) && qy * s == s * qy && (qy + 1) * s
        == s * (qy + 1)) by (nonlinear_arith);
    if qy == ky - 1 {
        let prev = sweep_cols(cfg, raws, Sweep::Diamond, t, st, kx, ky - 1);
        let y = half + (ky - 1) * s;
        lemma_cell_index(cfg.map_w(), h, x, y);
        lemma_sweep_cols_keeps(cfg, raws, Sweep::Diamond, t, st, kx, ky - 1, kx * s, qy * s);
        lemma_sweep_cols_keeps(cfg, raws, Sweep::Diamond, t, st, kx, ky - 1, kx * s, (qy + 1) * s);
        lemma_sweep_cols_keeps(cfg, raws, Sweep::Diamond, t, st, kx, ky - 1, (kx + 1) * s, qy * s);
        lemma_sweep_cols_keeps(
            cfg,
            raws,
            Sweep::Diamond,
            t,
            st,
            kx,
            ky - 1,
            (kx + 1) * s,
            (qy + 1) * s,
        );
        assert(x - half == kx * s && x + half == (kx + 1) * s && y - half == qy * s && y + half
            == (qy + 1) * s) by (nonlinear_arith)
            requires
                x == half + kx * s,
                y == half + (ky - 1) * s,
                qy == ky - 1,
                s == 2 * half,
                (kx + 1) * s == kx * s + s,
                (qy + 1) * s == qy * s + s,
        ;
    } else {
        lemma_dia_cols_value(cfg, raws, t, st, kx, ky - 1, qy);
        let yw = half + (ky - 1) * s;
        let yq = half + qy * s;
        lemma_cell_index(cfg.map_w(), h, x, yw);
        lemma_cell_index(cfg.map_w(), h, x, yq);
        assert(yq != yw) by (nonlinear_arith)
            requires
                qy < ky - 1,
                s >= 1,
                yq == half + qy * s,
                yw == half + (ky - 1) * s,
        ;
        lemma_cell_index_inj(h, x, yw, x, yq);
    }
}

/// What a diamond sweep writes: the cell in sweep row `qx` at sweep column
/// `qy` takes the perturbed average of its four corners as they stood when
/// the sweep began, under the draw at the cell's row-major sweep position.
proof fn lemma_dia_rows_value(
    cfg: DiamondSquare,
    raws: Seq<u64>,
    t: int,
    st: (Seq<int>, int),
    kx: int,
    qx: int,
    qy: int,
)
    requires
        cfg.wf(),
        0 <= t < cfg.iteration_spec(),
        0 <= qx < kx <= nx_of(cfg, Sweep::Diamond, t),
        0 <= qy < ny_of(cfg, Sweep::Diamond, t),
        st.0.len() == cfg.map_w() * cfg.map_h(),
    ensures
        sweep_rows(cfg, raws, Sweep::Diamond, t, st, kx).0[(cfg.step_at(t) / 2 + qx * cfg.step_at(
            t,
        )) * cfg.map_h() + (cfg.step_at(t) / 2 + qy * cfg.step_at(t))] == perturbed_average(
            st.0[(qx * cfg.step_at(t)) * cfg.map_h() + qy * cfg.step_at(t)] + st.0[(qx
                * cfg.step_at(t)) * cfg.map_h() + (qy + 1) * cfg.step_at(t)] + st.0[((qx + 1)
                * cfg.step_at(t)) * cfg.map_h() + qy * cfg.step_at(t)] + st.0[((qx + 1)
                * cfg.step_at(t)) * cfg.map_h() + (qy + 1) * cfg.step_at(t)],
            4,
            jitter_of(
                raw_at(raws, st.1 + qx * ny_of(cfg, Sweep::Diamond, t) + qy),
                cfg.roughness_spec(),
            ),
        ),
    decreases kx,
{
    lemma_ds_layout(cfg, t);
    lemma_sweep_frame(cfg, Sweep::Diamond, t);
    lemma_sweep_rows_shape(cfg, raws, Sweep::Diamond, t, st, kx - 1);
    let s = cfg.step_at(t);
    let half = s / 2;
    let h = cfg.map_h();
    let ny = ny_of(cfg, Sweep::Diamond, t);
    let strow = sweep_rows(cfg, raws, Sweep::Diamond, t, st, kx - 1);
    lemma_mul_inequality(qx + 1, nx_of(cfg, Sweep::Diamond, t), s);
    lemma_mul_inequality(qy + 1, ny, s);
    assert((qx + 1) * s == qx * s + s && (qy + 1) * s == qy * s + s) by (nonlinear_arith);
    assert(qx * s >= 0 && qy * s >= 0) by (nonlinear_arith)
        requires
            qx >= 0,
            qy >= 0,
            s >= 1,
    ;
    if qx == kx - 1 {
        lemma_dia_cols_value(cfg, raws, t, strow, kx - 1, ny, qy);
        vstd::arithmetic::div_mod::lemma_mod_multiples_basic(qx, s);
        vstd::arithmetic::div_mod::lemma_mod_multiples_basic(qx + 1, s);
        vstd::arithmetic::div_mod::lemma_mod_multiples_basic(qy, s);
        vstd::arithmetic::div_mod::lemma_mod_multiples_basic(qy + 1, s);
        assert(qx * s == s * qx && (qx + 1) * s == s * (qx + 1) && qy * s == s * qy && (qy + 1) * s
            == s * (qy + 1)) by (nonlinear_arith);
        lemma_sweep_rows_keeps(cfg, raws, Sweep::Diamond, t, st, kx - 1, qx * s, qy * s);
        lemma_sweep_rows_keeps(cfg, raws, Sweep::Diamond, t, st, kx - 1, qx * s, (qy + 1) * s);
        lemma_sweep_rows_keeps(cfg, raws, Sweep::Diamond, t, st, kx - 1, (qx + 1) * s, qy * s);
        lemma_sweep_rows_keeps(
            cfg,
            raws,
            Sweep::Diamond,
            t,
            st,
            kx - 1,
            (qx + 1) * s,
            (qy + 1) * s,
        );
        assert(strow.1 + qy == st.1 + qx * ny + qy);
    } else {
        lemma_dia_rows_value(cfg, raws, t, st, kx - 1, qx, qy);
        let xq = half + qx * s;
        let xw = half + (kx - 1) * s;
        assert(xq != xw) by (nonlinear_arith)
            requires
                qx < kx - 1,
                s >= 1,
                xq == half + qx * s,
                xw == half + (kx - 1) * s,
        ;
        lemma_mul_inequality(kx - 1, nx_of(cfg, Sweep::Diamond, t) - 1, s);
        assert((kx - 1) * s >= 0) by (nonlinear_arith)
            requires
                kx - 1 >= 0,
                s >= 1,
        ;
        lemma_mul_inequality(qy, ny - 1, s);
        lemma_sweep_cols_keeps_other(
            cfg,
            raws,
            Sweep::Diamond,
            t,
            strow,
            kx - 1,
            ny,
            xq,
            half + qy * s,
        );
    }
}

/// Roughness degeneracy, end to end: with a roughness of exactly one, the
/// diamond cells of the finest pass of the finished grid are the plain
/// floor averages of their four corners — the jitter contributes nothing.
pub proof fn lemma_unit_roughness_diamonds(cfg: DiamondSquare, qx: int, qy: int)
    requires
        cfg.wf(),
        cfg.roughness_spec() == SCALE as int,
        cfg.iteration_spec() >= 1,
        0 <= qx < (cfg.map_w() - 1) / 2,
        0 <= qy < (cfg.map_h() - 1) / 2,
    ensures
        ds_cells(cfg)[(2 * qx + 1) * cfg.map_h() + (2 * qy + 1)] == (ds_cells(cfg)[(2 * qx)
            * cfg.map_h() + 2 * qy] + ds_cells(cfg)[(2 * qx) * cfg.map_h() + (2 * qy + 2)]
            + ds_cells(cfg)[(2 * qx + 2) * cfg.map_h() + 2 * qy] + ds_cells(cfg)[(2 * qx + 2)
            * cfg.map_h() + (2 * qy + 2)]) / 4,
{
    let raws = raw_stream(cfg.seed_spec(), 2 * cfg.map_w() * cfg.map_h());
    let tt = cfg.iteration_spec();
    let t = tt - 1;
    let stp = ds_iters(cfg, raws, t);
    lemma_ds_layout(cfg, t);
    lemma_ds_iters_shape(cfg, raws, t);
    let s = cfg.step_at(t);
    let half = s / 2;
    let h = cfg.map_h();
    let w = cfg.map_w();
    let cw = cfg.cw_at(t);
    let ch = cfg.ch_at(t);
    assert(s == 2) by {
        assert(pow2(1) == 2) by {
            lemma2_to64();
        }
    }
    assert((w - 1) / 2 == cw && (h - 1) / 2 == ch) by {
        lemma_mul_is_commutative(cw, 2);
        lemma_mul_is_commutative(ch, 2);
        lemma_div_multiples_vanish(cw, 2);
        lemma_div_multiples_vanish(ch, 2);
    }
    lemma_dia_rows_value(cfg, raws, t, stp, cw, qx, qy);
    lemma_unit_roughness_no_jitter(raw_at(raws, stp.1 + qx * ch + qy));
    assert(2 * qx == qx * 2 && 2 * qx + 1 == half + qx * 2 && 2 * qx + 2 == (qx + 1) * 2 && 2 * qy
        == qy * 2 && 2 * qy + 1 == half + qy * 2 && 2 * qy + 2 == (qy + 1) * 2)
        by (nonlinear_arith)
        requires
            half == 1,
    ;
    lemma_mul_inequality(qx + 1, cw, 2);
    lemma_mul_inequality(qy + 1, ch, 2);
    assert((qx + 1) * 2 == qx * 2 + 2 && (qy + 1) * 2 == qy * 2 + 2) by (nonlinear_arith);
    assert(qx * 2 >= 0 && qy * 2 >= 0) by (nonlinear_arith)
        requires
            qx >= 0,
            qy >= 0,
    ;
    lemma_cell_index(w, h, 2 * qx, 2 * qy);
    lemma_cell_index(w, h, 2 * qx, 2 * qy + 2);
    lemma_cell_index(w, h, 2 * qx + 2, 2 * qy);
    lemma_cell_index(w, h, 2 * qx + 2, 2 * qy + 2);
    lemma_ds_iters_bounds(cfg, raws, t, (2 * qx) * h + 2 * qy);
    lemma_ds_iters_bounds(cfg, raws, t, (2 * qx) * h + (2 * qy + 2));
    lemma_ds_iters_bounds(cfg, raws, t, (2 * qx + 2) * h + 2 * qy);
    lemma_ds_iters_bounds(cfg, raws, t, (2 * qx + 2) * h + (2 * qy + 2));
    lemma_unit_jitter_is_average(
        stp.0[(2 * qx) * h + 2 * qy] + stp.0[(2 * qx) * h + (2 * qy + 2)] + stp.0[(2 * qx + 2) * h
            + 2 * qy] + stp.0[(2 * qx + 2) * h + (2 * qy + 2)],
        4,
    );
    let d = sweep_rows(cfg, raws, Sweep::Diamond, t, stp, nx_of(cfg, Sweep::Diamond, t));
    let e = sweep_rows(cfg, raws, Sweep::SquareEven, t, d, nx_of(cfg, Sweep::SquareEven, t));
    lemma_sweep_rows_shape(cfg, raws, Sweep::Diamond, t, stp, nx_of(cfg, Sweep::Diamond, t));
    lemma_sweep_rows_shape(cfg, raws, Sweep::SquareEven, t, d, nx_of(cfg, Sweep::SquareEven, t));
    vstd::arithmetic::div_mod::lemma_mod_multiples_basic(qx, 2);
    vstd::arithmetic::div_mod::lemma_mod_multiples_basic(qx + 1, 2);
    vstd::arithmetic::div_mod::lemma_mod_multiples_basic(qy, 2);
    vstd::arithmetic::div_mod::lemma_mod_multiples_basic(qy + 1, 2);
    lemma_mod_multiples_vanish(qx, 1, 2);
    lemma_mod_multiples_vanish(qy, 1, 2);
    assert(2 * qx + 1 == 2 * qx + 1 && (2 * qx + 1) % 2 == 1 && (2 * qy + 1) % 2 == 1) by {
        lemma_small_mod(1nat, 2nat);
    }
    // The diamond cell survives the two square sweeps of the same pass.
    lemma_sweep_rows_keeps(cfg, raws, Sweep::SquareEven, t, d, nx_of(cfg, Sweep::SquareEven, t), 2
        * qx + 1, 2 * qy + 1);
    lemma_sweep_rows_keeps(cfg, raws, Sweep::SquareOdd, t, e, nx_of(cfg, Sweep::SquareOdd, t), 2
        * qx + 1, 2 * qy + 1);
    // The corners survive all three sweeps of the pass.
    lemma_sweep_rows_keeps(cfg, raws, Sweep::Diamond, t, stp, nx_of(cfg, Sweep::Diamond, t), 2
        * qx, 2 * qy);
    lemma_sweep_rows_keeps(cfg, raws, Sweep::Diamond, t, stp, nx_of(cfg, Sweep::Diamond, t), 2
        * qx, 2 * qy + 2);
    lemma_sweep_rows_keeps(cfg, raws, Sweep::Diamond, t, stp, nx_of(cfg, Sweep::Diamond, t), 2
        * qx + 2, 2 * qy);
    lemma_sweep_rows_keeps(cfg, raws, Sweep::Diamond, t, stp, nx_of(cfg, Sweep::Diamond, t), 2
        * qx + 2, 2 * qy + 2);
    lemma_sweep_rows_keeps(cfg, raws, Sweep::SquareEven, t, d, nx_of(cfg, Sweep::SquareEven, t), 2
        * qx, 2 * qy);
    lemma_sweep_rows_keeps(cfg, raws, Sweep::SquareEven, t, d, nx_of(cfg, Sweep::SquareEven, t), 2
        * qx, 2 * qy + 2);
    lemma_sweep_rows_keeps(cfg, raws, Sweep::SquareEven, t, d, nx_of(cfg, Sweep::SquareEven, t), 2
        * qx + 2, 2 * qy);
    lemma_sweep_rows_keeps(cfg, raws, Sweep::SquareEven, t, d, nx_of(cfg, Sweep::SquareEven, t), 2
        * qx + 2, 2 * qy + 2);
    lemma_sweep_rows_keeps(cfg, raws, Sweep::SquareOdd, t, e, nx_of(cfg, Sweep::SquareOdd, t), 2
        * qx, 2 * qy);
    lemma_sweep_rows_keeps(cfg, raws, Sweep::SquareOdd, t, e, nx_of(cfg, Sweep::SquareOdd, t), 2
        * qx, 2 * qy + 2);
    lemma_sweep_rows_keeps(cfg, raws, Sweep::SquareOdd, t, e, nx_of(cfg, Sweep::SquareOdd, t), 2
        * qx + 2, 2 * qy);
    lemma_sweep_rows_keeps(cfg, raws, Sweep::SquareOdd, t, e, nx_of(cfg, Sweep::SquareOdd, t), 2
        * qx + 2, 2 * qy + 2);
}

} // verus!
