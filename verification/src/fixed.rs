//! Fixed-point height arithmetic.
//!
//! Heights are `i64` values in milli-units: `SCALE` (one thousand) stands for
//! one unit. The interpolation rule of both subdivision engines is defined
//! here: the floor average of the neighbor heights, scaled by a jitter factor
//! given in thousandths, and saturated at `VALUE_CAP` so that the rule is
//! total over `i64` inputs. Quotients follow Euclidean division (the
//! remainder is never negative), which is what the executable code computes.

use vstd::arithmetic::div_mod::{
    lemma_div_is_ordered, lemma_div_multiples_vanish, lemma_div_nonincreasing,
    lemma_div_pos_is_pos, lemma_fundamental_div_mod, lemma_fundamental_div_mod_converse,
    lemma_mod_bound,
};
use vstd::arithmetic::mul::lemma_mul_inequality;
use vstd::arithmetic::power2::{lemma2_to64, lemma_pow2_strictly_increases, pow2};
use vstd::prelude::*;

verus! {

/// One height unit, in milli-units: the fixed-point scale of the library.
pub const SCALE: i64 = 1000;

/// Largest magnitude accepted for a sampling-interval endpoint, in
/// milli-units (two to the thirtieth).
pub const HEIGHT_LIMIT: i64 = 0x4000_0000;

/// Saturation cap for interpolated heights (two to the sixtieth, in
/// milli-units). Interpolation never leaves `[-VALUE_CAP, VALUE_CAP]`, which
/// keeps every height representable however the jitter compounds.
pub const VALUE_CAP: i64 = 0x1000_0000_0000_0000;

/// Largest accepted roughness, in thousandths: a jitter factor of one
/// thousand units.
pub const MAX_ROUGHNESS: i64 = 1_000_000;

/// Largest accepted final side of a grid: base size times two to the
/// iteration count may not pass this, which bounds the memory generation
/// takes.
pub const MAX_MAP_SIDE: usize = 16384;

/// The heights a buffer holds, as unbounded integers.
pub open spec fn ints_of(s: Seq<i64>) -> Seq<int> {
    Seq::new(s.len(), |i: int| s[i] as int)
}

/// `n` zero heights: the sentinel fill of a freshly allocated grid.
pub open spec fn zero_seq(n: nat) -> Seq<int> {
    Seq::new(n, |i: int| 0int)
}

/// `v` pulled into `[-VALUE_CAP, VALUE_CAP]`.
pub open spec fn clamp_cap(v: int) -> int {
    if v > VALUE_CAP as int {
        VALUE_CAP as int
    } else if v < -(VALUE_CAP as int) {
        -(VALUE_CAP as int)
    } else {
        v
    }
}

/// The interpolation rule: the floor average of `count` neighbor heights
/// whose sum is `sum`, scaled by `jitter` thousandths, saturated at the cap.
pub open spec fn perturbed_average(sum: int, count: int, jitter: int) -> int {
    clamp_cap(sum / count * jitter / (SCALE as int))
}

/// Euclidean division of `a` by a small positive divisor `d`: the unique
/// quotient whose remainder lies in `[0, d)`.
pub(crate) fn ediv_i128(a: i128, d: i128) -> (q: i128)
    requires
        1 <= d <= 0x1_0000_0000_0000_0000,
        -0x4000_0000_0000_0000_0000_0000_0000_0000 <= a,
    ensures
        q == a as int / d as int,
{
    if a >= 0 {
        let qu = (a as u128) / (d as u128);
        proof {
            lemma_div_nonincreasing(a as int, d as int);
        }
        qu as i128
    } else {
        let m = (-a) as u128;
        let du = d as u128;
        let qu = (m + du - 1) / du;
        proof {
            let mi = m as int;
            let di = d as int;
            let qq = (mi + di - 1) / di;
            let rr = (mi + di - 1) % di;
            lemma_fundamental_div_mod(mi + di - 1, di);
            lemma_div_pos_is_pos(mi + di - 1, di);
            assert(a as int == -mi);
            assert(a as int == di * (-qq) + (di - 1 - rr)) by (nonlinear_arith)
                requires
                    mi + di - 1 == di * qq + rr,
                    a as int == -mi,
            ;
            lemma_fundamental_div_mod_converse(a as int, di, -qq, di - 1 - rr);
            lemma_mul_inequality(1, di, qq);
        }
        -(qu as i128)
    }
}

/// Applies the interpolation rule to an already-summed neighborhood.
/// `count` is the number of neighbors summed (two in one dimension, four in
/// two); `jitter` is the drawn factor in thousandths.
pub(crate) fn perturb_sum(sum: i128, count: i128, jitter: i64) -> (v: i64)
    requires
        count == 2 || count == 4,
        1 <= jitter <= MAX_ROUGHNESS,
        -0x8000_0000_0000_0000_0000 <= sum <= 0x8000_0000_0000_0000_0000,
    ensures
        v as int == perturbed_average(sum as int, count as int, jitter as int),
{
    let avg = ediv_i128(sum, count);
    proof {
        lemma_div_is_ordered(-0x8000_0000_0000_0000_0000, sum as int, count as int);
        lemma_div_is_ordered(sum as int, 0x8000_0000_0000_0000_0000, count as int);
        assert((-0x8000_0000_0000_0000_0000int) / 2int == -0x4000_0000_0000_0000_0000int);
        assert((-0x8000_0000_0000_0000_0000int) / 4int == -0x2000_0000_0000_0000_0000int);
        assert(0x8000_0000_0000_0000_0000int / 2int == 0x4000_0000_0000_0000_0000int);
        assert(0x8000_0000_0000_0000_0000int / 4int == 0x2000_0000_0000_0000_0000int);
        assert(avg * jitter <= 0x4000_0000_0000_0000_0000 * 0x100000 && -0x4000_0000_0000_0000_0000
            * 0x100000 <= avg * jitter) by (nonlinear_arith)
            requires
                -0x4000_0000_0000_0000_0000 <= avg <= 0x4000_0000_0000_0000_0000,
                1 <= jitter <= 0x100000,
        ;
    }
    let scaled = ediv_i128(avg * (jitter as i128), SCALE as i128);
    if scaled > VALUE_CAP as i128 {
        VALUE_CAP
    } else if scaled < -(VALUE_CAP as i128) {
        -VALUE_CAP
    } else {
        scaled as i64
    }
}

/// Replacing one height of a buffer replaces the same position of its
/// integer view and nothing else.
pub proof fn lemma_ints_of_update(s: Seq<i64>, i: int, v: i64)
    requires
        0 <= i < s.len(),
    ensures
        ints_of(s.update(i, v)) == ints_of(s).update(i, v as int),
{
    assert(ints_of(s.update(i, v)) =~= ints_of(s).update(i, v as int));
}

/// Two to the power `e`, computed by repeated doubling.
pub(crate) fn pow2_usize(e: u32) -> (r: usize)
    requires
        e < 30,
    ensures
        r as int == pow2(e as nat),
        1 <= r <= 0x2000_0000,
{
    proof {
        lemma2_to64();
    }
    let mut r: usize = 1;
    let mut i: u32 = 0;
    while i < e
        invariant
            i <= e < 30,
            r as int == pow2(i as nat),
        decreases e - i,
    {
        proof {
            lemma2_to64();
            lemma_pow2_strictly_increases(i as nat, 29);
        }
        r = r * 2;
        i += 1;
        assert(r as int == pow2(i as nat)) by {
            vstd::arithmetic::power2::lemma_pow2_unfold(i as nat);
        }
    }
    proof {
        lemma2_to64();
        if e < 29 {
            lemma_pow2_strictly_increases(e as nat, 29);
        }
    }
    r
}

/// A buffer of `n` zero heights.
pub(crate) fn zero_vec(n: usize) -> (v: Vec<i64>)
    ensures
        v@.len() == n,
        ints_of(v@) == zero_seq(n as nat),
{
    let mut v: Vec<i64> = Vec::new();
    let mut i: usize = 0;
    while i < n
        invariant
            v@.len() == i <= n,
            forall|j: int| 0 <= j < i ==> v@[j] == 0i64,
        decreases n - i,
    {
        v.push(0);
        i += 1;
    }
    proof {
        assert(ints_of(v@) =~= zero_seq(n as nat));
    }
    v
}

/// Whether a base side of `base` cells, doubled `iteration` times, stays
/// within the accepted final side.
pub open spec fn side_ok(base: int, iteration: int) -> bool {
    1 <= base && base * (pow2(iteration as nat) as int) <= MAX_MAP_SIDE as int
}

/// Decides [`side_ok`] for a base side and an iteration count.
pub(crate) fn check_side(base: usize, iteration: u32) -> (ok: bool)
    requires
        iteration < 30,
    ensures
        ok <==> side_ok(base as int, iteration as int),
        ok ==> base <= MAX_MAP_SIDE,
{
    if base == 0 {
        return false;
    }
    let s = pow2_usize(iteration);
    let q = MAX_MAP_SIDE / s;
    proof {
        let c = MAX_MAP_SIDE as int;
        let si = s as int;
        lemma_fundamental_div_mod(c, si);
        lemma_mod_bound(c, si);
        if base <= q {
            lemma_mul_inequality(base as int, q as int, si);
        } else {
            lemma_mul_inequality(q + 1, base as int, si);
            assert((q + 1) * si == q * si + si) by (nonlinear_arith);
        }
        assert(q * si == si * q) by (nonlinear_arith);
        assert(base as int * si >= base as int) by (nonlinear_arith)
            requires
                si >= 1,
                base as int >= 0,
        ;
    }
    base <= q
}

/// Two height buffers with the same integer view hold bit-identical
/// heights. Together with the generation contracts, which pin the view of
/// every generated buffer to a function of the configuration alone, two
/// independent runs of an engine on one configuration return identical
/// buffers.
pub proof fn lemma_same_view_same_heights(a: Seq<i64>, b: Seq<i64>)
    requires
        ints_of(a) == ints_of(b),
    ensures
        a == b,
{
    assert(a.len() == ints_of(a).len() && b.len() == ints_of(b).len());
    assert forall|i: int| 0 <= i < a.len() implies a[i] == b[i] by {
        assert(ints_of(a)[i] == a[i] as int && ints_of(b)[i] == b[i] as int);
    };
    assert(a =~= b);
}

/// With the degenerate jitter factor of one thousand thousandths (a roughness
/// of exactly one), the interpolation rule is the plain floor average of the
/// neighbors: no randomness is left in the result.
pub proof fn lemma_unit_jitter_is_average(sum: int, count: int)
    requires
        count == 2 || count == 4,
        -count * (VALUE_CAP as int) <= sum <= count * (VALUE_CAP as int),
    ensures
        perturbed_average(sum, count, SCALE as int) == sum / count,
{
    let avg = sum / count;
    let cap = VALUE_CAP as int;
    lemma_div_is_ordered(-count * cap, sum, count);
    lemma_div_is_ordered(sum, count * cap, count);
    lemma_div_multiples_vanish(cap, count);
    lemma_div_multiples_vanish(-cap, count);
    assert(count * cap / count == cap);
    assert(-count * cap == count * -cap) by (nonlinear_arith);
    assert(-count * cap / count == -cap);
    lemma_div_multiples_vanish(avg, SCALE as int);
    assert(avg * (SCALE as int) == (SCALE as int) * avg) by (nonlinear_arith);
}

} // verus!
