//! Midpoint displacement: the one-dimensional subdivision engine.
//!
//! A validated configuration fixes a row of heights exactly. A coarse
//! lattice of `length + 1` points at multiples of `2^iteration` is seeded
//! from the uniform sampler; then each pass halves the step and fills every
//! midpoint with the perturbed average of its two already-computed
//! neighbors, until the step reaches one. The full model of the computation
//! is the specification function [`md_cells`]: generation is a function of
//! the configuration alone, seed included.

use crate::errors::{TerrainError, TerrainResult};
use crate::fixed::{
    check_side, ints_of, lemma_ints_of_update, lemma_unit_jitter_is_average, perturb_sum,
    perturbed_average, pow2_usize, side_ok, zero_seq, zero_vec, HEIGHT_LIMIT, MAX_MAP_SIDE,
    MAX_ROUGHNESS, SCALE, VALUE_CAP,
};
use crate::grid::GridTerrain;
use crate::range::{scan_range, seq_max, seq_min};
use crate::sampler::{
    draw_raws, jitter_in, jitter_of, lemma_unit_roughness_no_jitter, raw_at, raw_stream,
    sample_in, sample_of, stream_get,
};
use vstd::arithmetic::div_mod::lemma_div_multiples_vanish;
use vstd::arithmetic::mul::{lemma_mul_inequality, lemma_mul_is_commutative};
use vstd::arithmetic::power2::{
    lemma_pow2_adds, lemma_pow2_pos, lemma_pow2_strictly_increases, lemma_pow2_unfold, pow2,
};
use vstd::prelude::*;

verus! {

/// Configuration of the one-dimensional engine: base length, iteration
/// count, roughness and sampling interval in milli-units, and the seed.
#[derive(Clone, Copy, Debug, PartialEq, Eq, Structural)]
pub struct MidpointDisplacement {
    length: usize,
    iteration: u32,
    roughness: i64,
    lo: i64,
    hi: i64,
    seed: u64,
}

impl MidpointDisplacement {
    /// Base number of segments, before subdivision.
    pub closed spec fn length_spec(&self) -> int {
        self.length as int
    }

    /// Number of subdivision passes.
    pub closed spec fn iteration_spec(&self) -> int {
        self.iteration as int
    }

    /// Roughness in thousandths: the upper end of the jitter interval.
    pub closed spec fn roughness_spec(&self) -> int {
        self.roughness as int
    }

    /// Lower end of the sampling interval, in milli-units.
    pub closed spec fn lo_spec(&self) -> int {
        self.lo as int
    }

    /// Upper end of the sampling interval, in milli-units.
    pub closed spec fn hi_spec(&self) -> int {
        self.hi as int
    }

    /// The seed.
    pub closed spec fn seed_spec(&self) -> u64 {
        self.seed
    }

    /// The initial lattice step: two to the iteration count.
    pub closed spec fn step0(&self) -> int {
        pow2(self.iteration as nat) as int
    }

    /// Length of the generated row: the base length times two to the
    /// iteration count, plus one.
    pub closed spec fn map_length_spec(&self) -> int {
        self.length_spec() * self.step0() + 1
    }

    /// The step before pass `t`: halved once per pass.
    pub closed spec fn step_at(&self, t: int) -> int {
        pow2((self.iteration - t) as nat) as int
    }

    /// How many midpoints pass `t` fills.
    pub closed spec fn count_at(&self, t: int) -> int {
        self.length_spec() * (pow2(t as nat) as int)
    }

    /// What a validated configuration guarantees: a positive base length, a
    /// final row no longer than the accepted cap, a roughness between one
    /// and one thousand units, and an ordered sampling interval within the
    /// height limit.
    #[verifier::type_invariant]
    pub closed spec fn wf(&self) -> bool {
        &&& 1 <= self.length <= MAX_MAP_SIDE
        &&& self.iteration < 30
        &&& self.length_spec() * self.step0() <= MAX_MAP_SIDE as int
        &&& SCALE <= self.roughness <= MAX_ROUGHNESS
        &&& -HEIGHT_LIMIT <= self.lo < self.hi <= HEIGHT_LIMIT
    }
}

/// The row after the first `k` lattice points are seeded: point `i` sits at
/// position `i * 2^iteration` and takes the `i`-th draw, mapped onto the
/// sampling interval.
pub(crate) closed spec fn md_seeded(cfg: MidpointDisplacement, raws: Seq<u64>, k: int) -> (Seq<
    int,
>, int)
    decreases k,
{
    if k <= 0 {
        (zero_seq(cfg.map_length_spec() as nat), 0)
    } else {
        let prev = md_seeded(cfg, raws, k - 1);
        let v = sample_of(raw_at(raws, prev.1), cfg.lo_spec(), cfg.hi_spec());
        (prev.0.update((k - 1) * cfg.step0(), v), prev.1 + 1)
    }
}

/// The row after the first `k` midpoints of pass `t` are filled, starting
/// from the state `st`: midpoint `i` sits at `half + i * step` and takes the
/// perturbed average of its two neighbors at distance `half`.
pub(crate) closed spec fn md_pass(
    cfg: MidpointDisplacement,
    raws: Seq<u64>,
    t: int,
    st: (Seq<int>, int),
    k: int,
) -> (Seq<int>, int)
    decreases k,
{
    if k <= 0 {
        st
    } else {
        let prev = md_pass(cfg, raws, t, st, k - 1);
        let s = cfg.step_at(t);
        let half = s / 2;
        let x = half + (k - 1) * s;
        let sum = prev.0[x - half] + prev.0[x + half];
        let j = jitter_of(raw_at(raws, prev.1), cfg.roughness_spec());
        (prev.0.update(x, perturbed_average(sum, 2, j)), prev.1 + 1)
    }
}

/// The row after the seeding phase and the first `t` subdivision passes.
pub(crate) closed spec fn md_iters(cfg: MidpointDisplacement, raws: Seq<u64>, t: int) -> (Seq<
    int,
>, int)
    decreases t,
{
    if t <= 0 {
        md_seeded(cfg, raws, cfg.length_spec() + 1)
    } else {
        md_pass(cfg, raws, t - 1, md_iters(cfg, raws, t - 1), cfg.count_at(t - 1))
    }
}

/// The full row that a configuration fixes: every pass applied to the
/// seeded lattice, drawing from the stream of the configured seed.
pub closed spec fn md_cells(cfg: MidpointDisplacement) -> Seq<int> {
    md_iters(cfg, raw_stream(cfg.seed_spec(), 2 * cfg.map_length_spec()), cfg.iteration_spec()).0
}

/// How pass `t` is laid out on a well-formed configuration: the step is an
/// even positive power of two, and the midpoints tile the row exactly.
proof fn lemma_md_layout(cfg: MidpointDisplacement, t: int)
    requires
        cfg.wf(),
        0 <= t < cfg.iteration_spec(),
    ensures
        cfg.step_at(t) == 2 * (cfg.step_at(t) / 2),
        cfg.step_at(t) / 2 == cfg.step_at(t + 1),
        cfg.step_at(t + 1) >= 1,
        cfg.count_at(t) >= 1,
        cfg.count_at(t) * cfg.step_at(t) == cfg.map_length_spec() - 1,
        cfg.count_at(t) <= cfg.map_length_spec() - 1,
{
    let ti = t;
    let ii = cfg.iteration_spec();
    let l = cfg.length_spec();
    let pt = pow2(ti as nat) as int;
    let ps = pow2((ii - ti) as nat) as int;
    lemma_pow2_unfold((ii - ti) as nat);
    lemma_pow2_pos((ii - ti - 1) as nat);
    lemma_pow2_pos(ti as nat);
    lemma_pow2_adds(ti as nat, (ii - ti) as nat);
    assert(l * (pow2(ii as nat) as int) == (l * pt) * ps) by (nonlinear_arith)
        requires
            pt * ps == pow2(ii as nat) as int,
    ;
    assert(cfg.count_at(t) >= 1 && cfg.count_at(t) <= (l * pt) * ps) by (nonlinear_arith)
        requires
            l >= 1,
            pt >= 1,
            ps >= 1,
            cfg.count_at(t) == l * pt,
    ;
}

/// Seeding consumes one draw per lattice point and keeps the row length.
proof fn lemma_md_seeded_shape(cfg: MidpointDisplacement, raws: Seq<u64>, k: int)
    requires
        cfg.wf(),
        0 <= k <= cfg.length_spec() + 1,
    ensures
        md_seeded(cfg, raws, k).1 == k,
        md_seeded(cfg, raws, k).0.len() == cfg.map_length_spec(),
    decreases k,
{
    lemma_pow2_pos(cfg.iteration as nat);
    assert(cfg.length_spec() * cfg.step0() >= 1) by (nonlinear_arith)
        requires
            cfg.length_spec() >= 1,
            cfg.step0() >= 1,
    ;
    if k > 0 {
        lemma_md_seeded_shape(cfg, raws, k - 1);
        lemma_mul_inequality(k - 1, cfg.length_spec(), cfg.step0());
        assert((k - 1) * cfg.step0() >= 0) by (nonlinear_arith)
            requires
                k - 1 >= 0,
                cfg.step0() >= 1,
        ;
    }
}

/// A pass consumes one draw per midpoint and keeps the row length.
proof fn lemma_md_pass_shape(
    cfg: MidpointDisplacement,
    raws: Seq<u64>,
    t: int,
    st: (Seq<int>, int),
    k: int,
)
    requires
        cfg.wf(),
        0 <= t < cfg.iteration_spec(),
        0 <= k <= cfg.count_at(t),
        st.0.len() == cfg.map_length_spec(),
    ensures
        md_pass(cfg, raws, t, st, k).1 == st.1 + k,
        md_pass(cfg, raws, t, st, k).0.len() == st.0.len(),
    decreases k,
{
    if k > 0 {
        lemma_md_pass_shape(cfg, raws, t, st, k - 1);
        lemma_md_layout(cfg, t);
        let s = cfg.step_at(t);
        lemma_mul_inequality(k, cfg.count_at(t), s);
        assert((k - 1) * s == k * s - s) by (nonlinear_arith);
        assert((k - 1) * s >= 0) by (nonlinear_arith)
            requires
                k - 1 >= 0,
                s >= 1,
        ;
    }
}

/// After the seeding phase and `t` passes, the number of draws consumed is
/// one per filled position so far, which stays within the row length: the
/// stream generation asks for is never exhausted.
proof fn lemma_md_iters_shape(cfg: MidpointDisplacement, raws: Seq<u64>, t: int)
    requires
        cfg.wf(),
        0 <= t <= cfg.iteration_spec(),
    ensures
        md_iters(cfg, raws, t).1 == cfg.length_spec() * (pow2(t as nat) as int) + 1,
        md_iters(cfg, raws, t).0.len() == cfg.map_length_spec(),
        md_iters(cfg, raws, t).1 <= cfg.map_length_spec(),
    decreases t,
{
    let l = cfg.length_spec();
    if t <= 0 {
        lemma_md_seeded_shape(cfg, raws, l + 1);
        lemma_pow2_pos(cfg.iteration as nat);
        vstd::arithmetic::power2::lemma2_to64();
        assert(l * 1 == l) by (nonlinear_arith);
        assert(l * 1 <= l * cfg.step0()) by (nonlinear_arith)
            requires
                l >= 0,
                1 <= cfg.step0(),
        ;
    } else {
        lemma_md_iters_shape(cfg, raws, t - 1);
        lemma_md_layout(cfg, t - 1);
        lemma_md_pass_shape(cfg, raws, t - 1, md_iters(cfg, raws, t - 1), cfg.count_at(t - 1));
        lemma_pow2_unfold(t as nat);
        assert(l * (pow2((t - 1) as nat) as int) + l * (pow2((t - 1) as nat) as int) == l * (pow2(
            t as nat,
        ) as int)) by (nonlinear_arith)
            requires
                pow2(t as nat) == 2 * pow2((t - 1) as nat),
        ;
        if t < cfg.iteration_spec() {
            lemma_pow2_strictly_increases(t as nat, cfg.iteration as nat);
        }
        assert(l * (pow2(t as nat) as int) <= l * cfg.step0()) by (nonlinear_arith)
            requires
                l >= 0,
                pow2(t as nat) as int <= cfg.step0(),
        ;
    }
}

impl MidpointDisplacement {
    /// Generates the row of heights that this configuration fixes. The
    /// result is exactly [`md_cells`] of the configuration: generation is
    /// deterministic, and two calls return the same row.
    pub fn generate(&self) -> (out: Vec<i64>)
        ensures
            out@.len() == self.map_length_spec(),
            ints_of(out@) == md_cells(*self),
    {
        proof {
            use_type_invariant(self);
            lemma_pow2_pos(self.iteration as nat);
        }
        let s0 = pow2_usize(self.iteration);
        let len = self.length * s0 + 1;
        let n = 2 * len;
        let raws = draw_raws(self.seed, n);
        let ghost rs = raws@;
        let mut grid = zero_vec(len);
        let mut si: usize = 0;
        let mut k: usize = 0;
        while k < self.length + 1
            invariant
                self.wf(),
                s0 as int == self.step0(),
                s0 >= 1,
                len as int == self.map_length_spec(),
                raws@ == rs,
                k <= self.length + 1,
                si == k,
                grid@.len() == len,
                ints_of(grid@) == md_seeded(*self, rs, k as int).0,
                si as int == md_seeded(*self, rs, k as int).1,
            decreases self.length + 1 - k,
        {
            let v = sample_in(stream_get(&raws, si), self.lo, self.hi);
            proof {
                lemma_mul_inequality(k as int, self.length as int, s0 as int);
            }
            let ghost gpre = grid@;
            grid.set(k * s0, v);
            proof {
                lemma_ints_of_update(gpre, k as int * s0 as int, v);
            }
            si = si + 1;
            k = k + 1;
        }
        proof {
            lemma_md_iters_shape(*self, rs, 0);
        }
        let mut step = s0;
        let mut t: u32 = 0;
        while t < self.iteration
            invariant
                self.wf(),
                len as int == self.map_length_spec(),
                raws@ == rs,
                t <= self.iteration,
                step as int == self.step_at(t as int),
                grid@.len() == len,
                ints_of(grid@) == md_iters(*self, rs, t as int).0,
                si as int == md_iters(*self, rs, t as int).1,
                si <= len,
            decreases self.iteration - t,
        {
            proof {
                lemma_md_layout(*self, t as int);
            }
            let half = step / 2;
            let count = (len - 1) / step;
            let ghost st_t = md_iters(*self, rs, t as int);
            proof {
                lemma_mul_is_commutative(self.count_at(t as int), step as int);
                lemma_div_multiples_vanish(self.count_at(t as int), step as int);
                lemma_md_iters_shape(*self, rs, t as int);
                lemma_md_iters_shape(*self, rs, t as int + 1);
                lemma_md_pass_shape(*self, rs, t as int, st_t, self.count_at(t as int));
            }
            let mut k: usize = 0;
            while k < count
                invariant
                    self.wf(),
                    len as int == self.map_length_spec(),
                    raws@ == rs,
                    t < self.iteration,
                    step as int == self.step_at(t as int),
                    step == 2 * half,
                    half >= 1,
                    count as int == self.count_at(t as int),
                    (count as int) * (step as int) == len - 1,
                    k <= count,
                    st_t == md_iters(*self, rs, t as int),
                    0 <= st_t.1,
                    st_t.1 + count <= len,
                    grid@.len() == len,
                    ints_of(grid@) == md_pass(*self, rs, t as int, st_t, k as int).0,
                    si as int == md_pass(*self, rs, t as int, st_t, k as int).1,
                    si as int == st_t.1 + k,
                decreases count - k,
            {
                proof {
                    lemma_mul_inequality(k as int + 1, count as int, step as int);
                    assert((k as int + 1) * (step as int) == k as int * (step as int)
                        + step as int) by (nonlinear_arith);
                    assert(k as int * (step as int) >= 0) by (nonlinear_arith)
                        requires
                            k as int >= 0,
                            step as int >= 0,
                    ;
                }
                let x = half + k * step;
                let left = grid[x - half];
                let right = grid[x + half];
                let j = jitter_in(stream_get(&raws, si), self.roughness);
                let v = perturb_sum((left as i128) + (right as i128), 2, j);
                let ghost gpre = grid@;
                grid.set(x, v);
                proof {
                    lemma_ints_of_update(gpre, x as int, v);
                }
                si = si + 1;
                k = k + 1;
            }
            step = half;
            t = t + 1;
        }
        grid
    }
}

impl Default for MidpointDisplacement {
    /// The configuration of the documentation examples: four base
    /// segments, two passes, a roughness of 1.1 (eleven hundred
    /// thousandths), heights drawn from one unit below zero up to one
    /// unit, and seed 42.
    fn default() -> (r: Self)
        ensures
            r.length_spec() == 4,
            r.iteration_spec() == 2,
            r.roughness_spec() == 1100,
            r.lo_spec() == -1000,
            r.hi_spec() == 1000,
            r.seed_spec() == 42,
    {
        proof {
            vstd::arithmetic::power2::lemma2_to64();
            assert(4int * (pow2(2) as int) == 16);
        }
        MidpointDisplacement {
            length: 4,
            iteration: 2,
            roughness: 1100,
            lo: -1000,
            hi: 1000,
            seed: 42,
        }
    }
}

impl MidpointDisplacement {
    /// The base number of segments.
    pub fn get_length(&self) -> (r: usize)
        ensures
            r as int == self.length_spec(),
    {
        self.length
    }

    /// The length of the row that [`MidpointDisplacement::generate`]
    /// returns: the base length doubled once per pass, plus one.
    pub fn get_map_length(&self) -> (r: usize)
        ensures
            r as int == self.map_length_spec(),
    {
        proof {
            use_type_invariant(self);
        }
        let s0 = pow2_usize(self.iteration);
        self.length * s0 + 1
    }

    /// Replaces the base length. Accepted exactly when it is positive and,
    /// doubled once per configured pass, stays within the accepted side
    /// cap; otherwise nothing changes and `InvalidRange` comes back.
    pub fn set_length(&mut self, length: usize) -> (r: TerrainResult<()>)
        ensures
            final(self).iteration_spec() == old(self).iteration_spec(),
            final(self).roughness_spec() == old(self).roughness_spec(),
            final(self).lo_spec() == old(self).lo_spec(),
            final(self).hi_spec() == old(self).hi_spec(),
            final(self).seed_spec() == old(self).seed_spec(),
            side_ok(length as int, old(self).iteration_spec()) ==> r is Ok
                && final(self).length_spec() == length as int,
            !side_ok(length as int, old(self).iteration_spec()) ==> r is Err
                && r->Err_0.is_invalid_range() && final(self).length_spec() == old(
                self,
            ).length_spec(),
    {
        proof {
            use_type_invariant(&*self);
        }
        if check_side(length, self.iteration) {
            self.length = length;
            Ok(())
        } else {
            Err(
                TerrainError::invalid_range(
                    "length must be positive and keep the final row within the side cap".to_owned(),
                ),
            )
        }
    }

    /// Builder form of [`MidpointDisplacement::set_length`].
    pub fn with_length(self, length: usize) -> (r: TerrainResult<Self>)
        ensures
            side_ok(length as int, self.iteration_spec()) ==> r is Ok && r->Ok_0.length_spec()
                == length as int && r->Ok_0.iteration_spec() == self.iteration_spec()
                && r->Ok_0.roughness_spec() == self.roughness_spec() && r->Ok_0.lo_spec()
                == self.lo_spec() && r->Ok_0.hi_spec() == self.hi_spec() && r->Ok_0.seed_spec()
                == self.seed_spec(),
            !side_ok(length as int, self.iteration_spec()) ==> r is Err
                && r->Err_0.is_invalid_range(),
    {
        let mut cfg = self;
        match cfg.set_length(length) {
            Ok(()) => Ok(cfg),
            Err(e) => Err(e),
        }
    }

    /// The number of subdivision passes.
    pub fn get_iteration(&self) -> (r: u32)
        ensures
            r as int == self.iteration_spec(),
    {
        self.iteration
    }

    /// Replaces the iteration count. Accepted exactly when it stays below
    /// thirty and the base length, doubled once per pass, stays within the
    /// accepted side cap; otherwise nothing changes and `InvalidRange`
    /// comes back.
    pub fn set_iteration(&mut self, iteration: u32) -> (r: TerrainResult<()>)
        ensures
            final(self).length_spec() == old(self).length_spec(),
            final(self).roughness_spec() == old(self).roughness_spec(),
            final(self).lo_spec() == old(self).lo_spec(),
            final(self).hi_spec() == old(self).hi_spec(),
            final(self).seed_spec() == old(self).seed_spec(),
            iteration < 30 && side_ok(old(self).length_spec(), iteration as int) ==> r is Ok
                && final(self).iteration_spec() == iteration as int,
            !(iteration < 30 && side_ok(old(self).length_spec(), iteration as int)) ==> r is Err
                && r->Err_0.is_invalid_range() && final(self).iteration_spec() == old(
                self,
            ).iteration_spec(),
    {
        proof {
            use_type_invariant(&*self);
        }
        if iteration < 30 && check_side(self.length, iteration) {
            self.iteration = iteration;
            Ok(())
        } else {
            Err(TerrainError::invalid_range("iteration too high, out of memory".to_owned()))
        }
    }

    /// Builder form of [`MidpointDisplacement::set_iteration`].
    pub fn with_iteration(self, iteration: u32) -> (r: TerrainResult<Self>)
        ensures
            iteration < 30 && side_ok(self.length_spec(), iteration as int) ==> r is Ok
                && r->Ok_0.iteration_spec() == iteration as int && r->Ok_0.length_spec()
                == self.length_spec() && r->Ok_0.roughness_spec() == self.roughness_spec()
                && r->Ok_0.lo_spec() == self.lo_spec() && r->Ok_0.hi_spec() == self.hi_spec()
                && r->Ok_0.seed_spec() == self.seed_spec(),
            !(iteration < 30 && side_ok(self.length_spec(), iteration as int)) ==> r is Err
                && r->Err_0.is_invalid_range(),
    {
        let mut cfg = self;
        match cfg.set_iteration(iteration) {
            Ok(()) => Ok(cfg),
            Err(e) => Err(e),
        }
    }

    /// The roughness, in thousandths.
    pub fn get_roughness(&self) -> (r: i64)
        ensures
            r as int == self.roughness_spec(),
    {
        self.roughness
    }

    /// Replaces the roughness, given in thousandths. Accepted exactly for
    /// factors from one (no jitter) up to one thousand units; otherwise
    /// nothing changes and `InvalidRange` comes back.
    pub fn set_roughness(&mut self, roughness: i64) -> (r: TerrainResult<()>)
        ensures
            final(self).length_spec() == old(self).length_spec(),
            final(self).iteration_spec() == old(self).iteration_spec(),
            final(self).lo_spec() == old(self).lo_spec(),
            final(self).hi_spec() == old(self).hi_spec(),
            final(self).seed_spec() == old(self).seed_spec(),
            SCALE <= roughness <= MAX_ROUGHNESS ==> r is Ok && final(self).roughness_spec()
                == roughness as int,
            !(SCALE <= roughness <= MAX_ROUGHNESS) ==> r is Err && r->Err_0.is_invalid_range()
                && final(self).roughness_spec() == old(self).roughness_spec(),
    {
        proof {
            use_type_invariant(&*self);
        }
        if SCALE <= roughness && roughness <= MAX_ROUGHNESS {
            self.roughness = roughness;
            Ok(())
        } else {
            Err(
                TerrainError::invalid_range(
                    "roughness must lie between one and one thousand units".to_owned(),
                ),
            )
        }
    }

    /// Builder form of [`MidpointDisplacement::set_roughness`].
    pub fn with_roughness(self, roughness: i64) -> (r: TerrainResult<Self>)
        ensures
            SCALE <= roughness <= MAX_ROUGHNESS ==> r is Ok && r->Ok_0.roughness_spec()
                == roughness as int && r->Ok_0.length_spec() == self.length_spec()
                && r->Ok_0.iteration_spec() == self.iteration_spec() && r->Ok_0.lo_spec()
                == self.lo_spec() && r->Ok_0.hi_spec() == self.hi_spec() && r->Ok_0.seed_spec()
                == self.seed_spec(),
            !(SCALE <= roughness <= MAX_ROUGHNESS) ==> r is Err && r->Err_0.is_invalid_range(),
    {
        let mut cfg = self;
        match cfg.set_roughness(roughness) {
            Ok(()) => Ok(cfg),
            Err(e) => Err(e),
        }
    }

    /// The sampling interval, lower bound first.
    pub fn get_range(&self) -> (r: (i64, i64))
        ensures
            r.0 as int == self.lo_spec(),
            r.1 as int == self.hi_spec(),
            r.0 < r.1,
    {
        proof {
            use_type_invariant(self);
        }
        (self.lo, self.hi)
    }

    /// Replaces the sampling interval, in milli-units. Accepted exactly
    /// when the bounds are ordered and lie within the height limit;
    /// otherwise nothing changes and `InvalidRange` comes back.
    pub fn set_range(&mut self, lo: i64, hi: i64) -> (r: TerrainResult<()>)
        ensures
            final(self).length_spec() == old(self).length_spec(),
            final(self).iteration_spec() == old(self).iteration_spec(),
            final(self).roughness_spec() == old(self).roughness_spec(),
            final(self).seed_spec() == old(self).seed_spec(),
            -HEIGHT_LIMIT <= lo < hi <= HEIGHT_LIMIT ==> r is Ok && final(self).lo_spec()
                == lo as int && final(self).hi_spec() == hi as int,
            !(-HEIGHT_LIMIT <= lo < hi <= HEIGHT_LIMIT) ==> r is Err
                && r->Err_0.is_invalid_range() && final(self).lo_spec() == old(self).lo_spec()
                && final(self).hi_spec() == old(self).hi_spec(),
    {
        proof {
            use_type_invariant(&*self);
        }
        if -HEIGHT_LIMIT <= lo && lo < hi && hi <= HEIGHT_LIMIT {
            *self = MidpointDisplacement { lo, hi, ..*self };
            Ok(())
        } else {
            Err(
                TerrainError::invalid_range(
                    "range bounds must be ordered and lie within the height limit".to_owned(),
                ),
            )
        }
    }

    /// Builder form of [`MidpointDisplacement::set_range`].
    pub fn with_range(self, lo: i64, hi: i64) -> (r: TerrainResult<Self>)
        ensures
            -HEIGHT_LIMIT <= lo < hi <= HEIGHT_LIMIT ==> r is Ok && r->Ok_0.lo_spec() == lo as int
                && r->Ok_0.hi_spec() == hi as int && r->Ok_0.length_spec() == self.length_spec()
                && r->Ok_0.iteration_spec() == self.iteration_spec() && r->Ok_0.roughness_spec()
                == self.roughness_spec() && r->Ok_0.seed_spec() == self.seed_spec(),
            !(-HEIGHT_LIMIT <= lo < hi <= HEIGHT_LIMIT) ==> r is Err
                && r->Err_0.is_invalid_range(),
    {
        let mut cfg = self;
        match cfg.set_range(lo, hi) {
            Ok(()) => Ok(cfg),
            Err(e) => Err(e),
        }
    }

    /// The seed.
    pub fn get_seed(&self) -> (r: u64)
        ensures
            r == self.seed_spec(),
    {
        self.seed
    }

    /// Replaces the seed; every seed is accepted.
    pub fn set_seed(&mut self, seed: u64)
        ensures
            final(self).length_spec() == old(self).length_spec(),
            final(self).iteration_spec() == old(self).iteration_spec(),
            final(self).roughness_spec() == old(self).roughness_spec(),
            final(self).lo_spec() == old(self).lo_spec(),
            final(self).hi_spec() == old(self).hi_spec(),
            final(self).seed_spec() == seed,
    {
        proof {
            use_type_invariant(&*self);
        }
        self.seed = seed;
    }

    /// Builder form of [`MidpointDisplacement::set_seed`].
    pub fn with_seed(self, seed: u64) -> (r: Self)
        ensures
            r.length_spec() == self.length_spec(),
            r.iteration_spec() == self.iteration_spec(),
            r.roughness_spec() == self.roughness_spec(),
            r.lo_spec() == self.lo_spec(),
            r.hi_spec() == self.hi_spec(),
            r.seed_spec() == seed,
    {
        let mut cfg = self;
        cfg.set_seed(seed);
        cfg
    }
}

impl GridTerrain {
    /// The terrain of a one-dimensional configuration: the generated row
    /// as a grid of height one, wrapped with its exact height range. The
    /// range bounds are the true minimum and maximum over all cells, so
    /// every cell lies within them.
    pub fn mid_point_displacement(config: &MidpointDisplacement) -> (r: GridTerrain)
        ensures
            r.cells() == md_cells(*config),
            r.width_spec() == config.map_length_spec(),
            r.height_spec() == 1,
            r.start_spec() == seq_min(md_cells(*config)),
            r.end_spec() == seq_max(md_cells(*config)),
    {
        proof {
            use_type_invariant(config);
        }
        let cells = config.generate();
        let len = config.get_map_length();
        let (mn, mx) = scan_range(&cells);
        proof {
            assert(len * 1 == len) by (nonlinear_arith);
        }
        GridTerrain::from_parts(cells, len, 1, mn, mx)
    }
}


/// A pass never touches a cell whose position is a multiple of the step.
proof fn lemma_md_pass_keeps(
    cfg: MidpointDisplacement,
    raws: Seq<u64>,
    t: int,
    st: (Seq<int>, int),
    k: int,
    p: int,
)
    requires
        cfg.wf(),
        0 <= t < cfg.iteration_spec(),
        0 <= k <= cfg.count_at(t),
        st.0.len() == cfg.map_length_spec(),
        0 <= p < cfg.map_length_spec(),
        p % cfg.step_at(t) == 0,
    ensures
        md_pass(cfg, raws, t, st, k).0[p] == st.0[p],
    decreases k,
{
    if k > 0 {
        lemma_md_pass_keeps(cfg, raws, t, st, k - 1, p);
        lemma_md_pass_shape(cfg, raws, t, st, k - 1);
        lemma_md_layout(cfg, t);
        let s = cfg.step_at(t);
        let half = s / 2;
        let x = half + (k - 1) * s;
        lemma_mul_inequality(k, cfg.count_at(t), s);
        assert((k - 1) * s == k * s - s) by (nonlinear_arith);
        assert((k - 1) * s >= 0) by (nonlinear_arith)
            requires
                k - 1 >= 0,
                s >= 1,
        ;
        vstd::arithmetic::div_mod::lemma_small_mod(half as nat, s as nat);
        vstd::arithmetic::div_mod::lemma_mod_multiples_vanish(k - 1, half, s);
        assert(s * (k - 1) + half == x) by (nonlinear_arith)
            requires
                x == half + (k - 1) * s,
        ;
    }
}

/// No subdivision pass ever touches a lattice point.
proof fn lemma_md_iters_keeps(cfg: MidpointDisplacement, raws: Seq<u64>, t: int, q: int)
    requires
        cfg.wf(),
        0 <= t <= cfg.iteration_spec(),
        0 <= q <= cfg.length_spec(),
    ensures
        md_iters(cfg, raws, t).0[q * cfg.step0()] == md_iters(cfg, raws, 0).0[q * cfg.step0()],
    decreases t,
{
    if t > 0 {
        lemma_md_iters_keeps(cfg, raws, t - 1, q);
        lemma_md_layout(cfg, t - 1);
        lemma_md_iters_shape(cfg, raws, t - 1);
        lemma_pow2_pos(cfg.iteration as nat);
        let p = q * cfg.step0();
        let s = cfg.step_at(t - 1);
        lemma_mul_inequality(q, cfg.length_spec(), cfg.step0());
        assert(p >= 0) by (nonlinear_arith)
            requires
                q >= 0,
                cfg.step0() >= 1,
                p == q * cfg.step0(),
        ;
        lemma_pow2_adds((t - 1) as nat, (cfg.iteration_spec() - (t - 1)) as nat);
        assert(p == (q * (pow2((t - 1) as nat) as int)) * s) by (nonlinear_arith)
            requires
                cfg.step0() == (pow2((t - 1) as nat) as int) * s,
                p == q * cfg.step0(),
        ;
        vstd::arithmetic::div_mod::lemma_mod_multiples_basic(
            q * (pow2((t - 1) as nat) as int),
            s,
        );
        lemma_md_pass_keeps(cfg, raws, t - 1, md_iters(cfg, raws, t - 1), cfg.count_at(t - 1), p);
    }
}

/// Each seeded lattice point holds the draw of its position.
proof fn lemma_md_seeded_value(cfg: MidpointDisplacement, raws: Seq<u64>, k: int, q: int)
    requires
        cfg.wf(),
        0 <= q < k <= cfg.length_spec() + 1,
    ensures
        md_seeded(cfg, raws, k).0[q * cfg.step0()] == sample_of(
            raw_at(raws, q),
            cfg.lo_spec(),
            cfg.hi_spec(),
        ),
    decreases k,
{
    lemma_pow2_pos(cfg.iteration as nat);
    lemma_md_seeded_shape(cfg, raws, k - 1);
    lemma_mul_inequality(k - 1, cfg.length_spec(), cfg.step0());
    lemma_mul_inequality(q, cfg.length_spec(), cfg.step0());
    assert((k - 1) * cfg.step0() >= 0 && q * cfg.step0() >= 0) by (nonlinear_arith)
        requires
            k - 1 >= 0,
            q >= 0,
            cfg.step0() >= 1,
    ;
    assert(cfg.length_spec() * cfg.step0() >= 1) by (nonlinear_arith)
        requires
            cfg.length_spec() >= 1,
            cfg.step0() >= 1,
    ;
    if q == k - 1 {
    } else {
        lemma_md_seeded_value(cfg, raws, k - 1, q);
        assert(q * cfg.step0() != (k - 1) * cfg.step0()) by (nonlinear_arith)
            requires
                q < k - 1,
                cfg.step0() >= 1,
        ;
    }
}

/// Lattice preservation: in the finished row, the height at every lattice
/// point (a multiple of the initial step) is exactly the value the seeding
/// phase drew for it — no subdivision pass overwrites a seeded point. The
/// seeded value is the draw at the point's lattice position, mapped onto
/// the sampling interval.
pub proof fn lemma_md_lattice_preserved(cfg: MidpointDisplacement, q: int)
    requires
        cfg.wf(),
        0 <= q <= cfg.length_spec(),
    ensures
        md_cells(cfg)[q * cfg.step0()] == sample_of(
            raw_at(raw_stream(cfg.seed_spec(), 2 * cfg.map_length_spec()), q),
            cfg.lo_spec(),
            cfg.hi_spec(),
        ),
{
    let raws = raw_stream(cfg.seed_spec(), 2 * cfg.map_length_spec());
    lemma_md_iters_keeps(cfg, raws, cfg.iteration_spec(), q);
    lemma_md_seeded_value(cfg, raws, cfg.length_spec() + 1, q);
}


/// Every seeded height lies within the saturation cap.
proof fn lemma_md_seeded_bounds(cfg: MidpointDisplacement, raws: Seq<u64>, k: int, i: int)
    requires
        cfg.wf(),
        0 <= k <= cfg.length_spec() + 1,
        0 <= i < cfg.map_length_spec(),
    ensures
        -VALUE_CAP <= md_seeded(cfg, raws, k).0[i] <= VALUE_CAP,
    decreases k,
{
    lemma_md_seeded_shape(cfg, raws, k);
    if k <= 0 {
    } else {
        lemma_md_seeded_bounds(cfg, raws, k - 1, i);
        lemma_md_seeded_shape(cfg, raws, k - 1);
        let prev = md_seeded(cfg, raws, k - 1);
        let v = sample_of(raw_at(raws, prev.1), cfg.lo_spec(), cfg.hi_spec());
        vstd::arithmetic::div_mod::lemma_mod_bound(
            raw_at(raws, prev.1) as int,
            cfg.hi_spec() - cfg.lo_spec(),
        );
        lemma_pow2_pos(cfg.iteration as nat);
        lemma_mul_inequality(k - 1, cfg.length_spec(), cfg.step0());
        assert((k - 1) * cfg.step0() >= 0) by (nonlinear_arith)
            requires
                k - 1 >= 0,
                cfg.step0() >= 1,
        ;
        assert(cfg.length_spec() * cfg.step0() >= 1) by (nonlinear_arith)
            requires
                cfg.length_spec() >= 1,
                cfg.step0() >= 1,
        ;
    }
}

/// Every height after a pass lies within the saturation cap.
proof fn lemma_md_pass_bounds(
    cfg: MidpointDisplacement,
    raws: Seq<u64>,
    t: int,
    st: (Seq<int>, int),
    k: int,
    i: int,
)
    requires
        cfg.wf(),
        0 <= t < cfg.iteration_spec(),
        0 <= k <= cfg.count_at(t),
        st.0.len() == cfg.map_length_spec(),
        0 <= i < cfg.map_length_spec(),
        -VALUE_CAP <= st.0[i] <= VALUE_CAP,
    ensures
        -VALUE_CAP <= md_pass(cfg, raws, t, st, k).0[i] <= VALUE_CAP,
    decreases k,
{
    if k > 0 {
        lemma_md_pass_bounds(cfg, raws, t, st, k - 1, i);
        lemma_md_pass_shape(cfg, raws, t, st, k - 1);
        lemma_md_layout(cfg, t);
        let s = cfg.step_at(t);
        lemma_mul_inequality(k, cfg.count_at(t), s);
        assert((k - 1) * s == k * s - s) by (nonlinear_arith);
        assert((k - 1) * s >= 0) by (nonlinear_arith)
            requires
                k - 1 >= 0,
                s >= 1,
        ;
    }
}

/// Every height after the seeding phase and `t` passes lies within the
/// saturation cap.
proof fn lemma_md_iters_bounds(cfg: MidpointDisplacement, raws: Seq<u64>, t: int, i: int)
    requires
        cfg.wf(),
        0 <= t <= cfg.iteration_spec(),
        0 <= i < cfg.map_length_spec(),
    ensures
        -VALUE_CAP <= md_iters(cfg, raws, t).0[i] <= VALUE_CAP,
    decreases t,
{
    if t <= 0 {
        lemma_md_seeded_bounds(cfg, raws, cfg.length_spec() + 1, i);
    } else {
        lemma_md_iters_bounds(cfg, raws, t - 1, i);
        lemma_md_iters_shape(cfg, raws, t - 1);
        assert forall|j: int| 0 <= j < cfg.map_length_spec() implies -VALUE_CAP <= #[trigger] md_iters(
            cfg,
            raws,
            t - 1,
        ).0[j] <= VALUE_CAP by {
            lemma_md_iters_bounds(cfg, raws, t - 1, j);
        };
        lemma_md_pass_bounds(
            cfg,
            raws,
            t - 1,
            md_iters(cfg, raws, t - 1),
            cfg.count_at(t - 1),
            i,
        );
    }
}

/// What a pass writes: midpoint `q` of pass `t` takes the perturbed
/// average of the two step-aligned neighbors as they stood before the
/// pass, under the `q`-th draw the pass consumes.
proof fn lemma_md_pass_value(
    cfg: MidpointDisplacement,
    raws: Seq<u64>,
    t: int,
    st: (Seq<int>, int),
    k: int,
    q: int,
)
    requires
        cfg.wf(),
        0 <= t < cfg.iteration_spec(),
        0 <= q < k <= cfg.count_at(t),
        st.0.len() == cfg.map_length_spec(),
    ensures
        md_pass(cfg, raws, t, st, k).0[cfg.step_at(t) / 2 + q * cfg.step_at(t)]
            == perturbed_average(
            st.0[q * cfg.step_at(t)] + st.0[(q + 1) * cfg.step_at(t)],
            2,
            jitter_of(raw_at(raws, st.1 + q), cfg.roughness_spec()),
        ),
    decreases k,
{
    lemma_md_layout(cfg, t);
    let s = cfg.step_at(t);
    let half = s / 2;
    lemma_md_pass_shape(cfg, raws, t, st, k - 1);
    lemma_mul_inequality(k, cfg.count_at(t), s);
    lemma_mul_inequality(q + 1, cfg.count_at(t), s);
    assert((k - 1) * s == k * s - s && (q + 1) * s == q * s + s) by (nonlinear_arith);
    assert((k - 1) * s >= 0 && q * s >= 0) by (nonlinear_arith)
        requires
            k - 1 >= 0,
            q >= 0,
            s >= 1,
    ;
    if q == k - 1 {
        let prev = md_pass(cfg, raws, t, st, k - 1);
        let x = half + (k - 1) * s;
        vstd::arithmetic::div_mod::lemma_mod_multiples_basic(k - 1, s);
        vstd::arithmetic::div_mod::lemma_mod_multiples_basic(k, s);
        assert((k - 1) * s == s * (k - 1) && k * s == s * k) by (nonlinear_arith);
        lemma_md_pass_keeps(cfg, raws, t, st, k - 1, (k - 1) * s);
        lemma_md_pass_keeps(cfg, raws, t, st, k - 1, k * s);
        assert(x - half == (k - 1) * s);
        assert(x + half == k * s) by (nonlinear_arith)
            requires
                x == half + (k - 1) * s,
                s == 2 * half,
        ;
        assert(q * s == (k - 1) * s && (q + 1) * s == k * s);
    } else {
        lemma_md_pass_value(cfg, raws, t, st, k - 1, q);
        lemma_mul_inequality(q, k - 2, s);
        assert(half + q * s != half + (k - 1) * s) by (nonlinear_arith)
            requires
                q < k - 1,
                s >= 1,
        ;
    }
}

/// Roughness degeneracy, end to end: with a roughness of exactly one, the
/// midpoints of the finest pass of the finished row are the plain floor
/// averages of their immediate neighbors — the jitter contributes nothing.
pub proof fn lemma_unit_roughness_midpoints(cfg: MidpointDisplacement, q: int)
    requires
        cfg.wf(),
        cfg.roughness_spec() == SCALE as int,
        cfg.iteration_spec() >= 1,
        0 <= q < (cfg.map_length_spec() - 1) / 2,
    ensures
        md_cells(cfg)[2 * q + 1] == (md_cells(cfg)[2 * q] + md_cells(cfg)[2 * q + 2]) / 2,
{
    let raws = raw_stream(cfg.seed_spec(), 2 * cfg.map_length_spec());
    let tt = cfg.iteration_spec();
    let t = tt - 1;
    let stp = md_iters(cfg, raws, t);
    lemma_md_layout(cfg, t);
    lemma_md_iters_shape(cfg, raws, t);
    let s = cfg.step_at(t);
    let count = cfg.count_at(t);
    assert(s == 2) by {
        assert(pow2(1) == 2) by {
            vstd::arithmetic::power2::lemma2_to64();
        }
    }
    assert(count * 2 == cfg.map_length_spec() - 1);
    assert((cfg.map_length_spec() - 1) / 2 == count) by {
        lemma_mul_is_commutative(count, 2);
        lemma_div_multiples_vanish(count, 2);
    }
    lemma_md_pass_value(cfg, raws, t, stp, count, q);
    lemma_unit_roughness_no_jitter(raw_at(raws, stp.1 + q));
    assert(q * 2 == 2 * q && (q + 1) * 2 == 2 * q + 2) by (nonlinear_arith);
    lemma_md_iters_bounds(cfg, raws, t, 2 * q);
    lemma_md_iters_bounds(cfg, raws, t, 2 * q + 2);
    lemma_unit_jitter_is_average(stp.0[2 * q] + stp.0[2 * q + 2], 2);
    vstd::arithmetic::div_mod::lemma_mod_multiples_basic(q, 2);
    vstd::arithmetic::div_mod::lemma_mod_multiples_basic(q + 1, 2);
    assert(2 * q == q * 2 % 2 + 2 * q) by (nonlinear_arith);
    assert((2 * q) % 2 == 0 && (2 * q + 2) % 2 == 0) by {
        assert(2 * q == q * 2 && 2 * q + 2 == (q + 1) * 2) by (nonlinear_arith);
    }
    lemma_md_pass_keeps(cfg, raws, t, stp, count, 2 * q);
    lemma_md_pass_keeps(cfg, raws, t, stp, count, 2 * q + 2);
}

} // verus!
