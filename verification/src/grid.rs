//! The terrain container: a finished grid of heights together with the
//! range used to normalize them.
//!
//! The grid is stored row-major by the first coordinate: the cell `(x, y)`
//! lives at buffer position `x * height + y`. Once built, the heights only
//! change through [`GridTerrain::map_height`]; the range bounds may be
//! widened or narrowed afterwards as long as they stay ordered.

use crate::errors::{TerrainError, TerrainResult};
use crate::fixed::{ediv_i128, ints_of, SCALE};
use vstd::arithmetic::div_mod::{
    lemma_div_is_ordered, lemma_div_multiples_vanish, lemma_div_pos_is_pos,
    lemma_multiply_divide_lt,
};
use vstd::arithmetic::mul::lemma_mul_inequality;
use vstd::prelude::*;

verus! {

/// `value` remapped linearly from `[start, end]` onto `[0, SCALE]`
/// thousandths: zero at `start`, one thousand at `end`.
pub open spec fn normed_of(value: int, start: int, end: int) -> int {
    (value - start) * (SCALE as int) / (end - start)
}

/// The 8-bit gray level of `value` within `[start, end]`: the linear remap
/// onto `[0, 255]`, saturated at the ends.
pub open spec fn gray_of(value: int, start: int, end: int) -> int {
    if value <= start {
        0
    } else if value >= end {
        255
    } else {
        (value - start) * 255 / (end - start)
    }
}

/// The gray level of one height: executable counterpart of [`gray_of`].
fn gray_level(v: i64, start: i64, end: i64) -> (r: u8)
    requires
        start < end,
    ensures
        r as int == gray_of(v as int, start as int, end as int),
{
    if v <= start {
        0
    } else if v >= end {
        255
    } else {
        let num = (v as i128) - (start as i128);
        let den = (end as i128) - (start as i128);
        let q = ediv_i128(num * 255, den);
        proof {
            lemma_div_pos_is_pos(num as int * 255, den as int);
            assert(num as int * 255 < den as int * 255) by (nonlinear_arith)
                requires
                    num < den,
            ;
            lemma_multiply_divide_lt(num as int * 255, den as int, 255);
        }
        q as u8
    }
}

/// A finished heightfield: the dense grid of heights and the range its
/// normalization maps onto `[0, 1]` units.
#[derive(Debug)]
pub struct GridTerrain {
    grid: Vec<i64>,
    width: usize,
    height: usize,
    start: i64,
    end: i64,
}

impl GridTerrain {
    /// The heights, row-major by the first coordinate.
    pub closed spec fn cells(&self) -> Seq<int> {
        ints_of(self.grid@)
    }

    /// The heights as stored.
    pub closed spec fn raw_cells(&self) -> Seq<i64> {
        self.grid@
    }

    /// Number of columns.
    pub closed spec fn width_spec(&self) -> int {
        self.width as int
    }

    /// Number of rows per column.
    pub closed spec fn height_spec(&self) -> int {
        self.height as int
    }

    /// Lower bound of the normalization range.
    pub closed spec fn start_spec(&self) -> int {
        self.start as int
    }

    /// Upper bound of the normalization range.
    pub closed spec fn end_spec(&self) -> int {
        self.end as int
    }

    /// The height at cell `(x, y)`.
    pub open spec fn at(&self, x: int, y: int) -> int {
        self.cells()[x * self.height_spec() + y]
    }

    #[verifier::type_invariant]
    spec fn inv(&self) -> bool {
        &&& self.grid@.len() == self.width * self.height
        &&& self.width >= 1
        &&& self.height >= 1
        &&& self.start <= self.end
    }

    /// Wraps a finished buffer and its range. Library-internal: the engines
    /// are the only producers of finished grids.
    pub(crate) fn from_parts(grid: Vec<i64>, width: usize, height: usize, start: i64, end: i64) -> (
        t: Self)
        requires
            grid@.len() == width * height,
            width >= 1,
            height >= 1,
            start <= end,
        ensures
            t.cells() == ints_of(grid@),
            t.width_spec() == width as int,
            t.height_spec() == height as int,
            t.start_spec() == start as int,
            t.end_spec() == end as int,
    {
        GridTerrain { grid, width, height, start, end }
    }

    /// Both dimensions, width first.
    pub fn get_size(&self) -> (r: (usize, usize))
        ensures
            r.0 as int == self.width_spec(),
            r.1 as int == self.height_spec(),
    {
        (self.width, self.height)
    }

    /// Number of columns.
    pub fn get_width(&self) -> (r: usize)
        ensures
            r as int == self.width_spec(),
    {
        self.width
    }

    /// Number of rows per column.
    pub fn get_height(&self) -> (r: usize)
        ensures
            r as int == self.height_spec(),
    {
        self.height
    }

    /// The normalization range, lower bound first.
    pub fn get_range(&self) -> (r: (i64, i64))
        ensures
            r.0 as int == self.start_spec(),
            r.1 as int == self.end_spec(),
            r.0 <= r.1,
    {
        proof {
            use_type_invariant(self);
        }
        (self.start, self.end)
    }

    /// The height at `(x, y)`, or `OutOfBounds` when either coordinate
    /// reaches past the grid.
    pub fn get(&self, x: usize, y: usize) -> (r: TerrainResult<i64>)
        ensures
            x < self.width_spec() && y < self.height_spec() ==> r is Ok && r->Ok_0 as int
                == self.at(x as int, y as int),
            !(x < self.width_spec() && y < self.height_spec()) ==> r is Err
                && r->Err_0.is_out_of_bounds(x, y),
    {
        proof {
            use_type_invariant(self);
        }
        if x < self.width && y < self.height {
            proof {
                vstd::std_specs::vec::axiom_spec_len(&self.grid);
                lemma_mul_inequality(x + 1, self.width as int, self.height as int);
                assert((x + 1) * (self.height as int) == x * (self.height as int)
                    + self.height as int) by (nonlinear_arith);
            }
            let idx = x * self.height + y;
            Ok(self.grid[idx])
        } else {
            Err(TerrainError::out_of_bounds(x, y))
        }
    }

    /// Moves the lower normalization bound to `min`. Accepted exactly when
    /// the range stays non-empty, that is when `min` lies strictly below the
    /// current upper bound; otherwise nothing changes and `InvalidRange`
    /// comes back.
    pub fn set_min(&mut self, min: i64) -> (r: TerrainResult<()>)
        ensures
            final(self).cells() == old(self).cells(),
            final(self).width_spec() == old(self).width_spec(),
            final(self).height_spec() == old(self).height_spec(),
            final(self).end_spec() == old(self).end_spec(),
            (min as int) < old(self).end_spec() ==> r is Ok && final(self).start_spec()
                == min as int,
            (min as int) >= old(self).end_spec() ==> r is Err && r->Err_0.is_invalid_range()
                && final(self).start_spec() == old(self).start_spec(),
    {
        proof {
            use_type_invariant(&*self);
        }
        if min < self.end {
            self.start = min;
            Ok(())
        } else {
            Err(
                TerrainError::invalid_range(
                    "new minimum height does not lie below the current maximum height".to_owned(),
                ),
            )
        }
    }

    /// Moves the upper normalization bound to `max`. Accepted exactly when
    /// `max` lies strictly above the current lower bound; otherwise nothing
    /// changes and `InvalidRange` comes back.
    pub fn set_max(&mut self, max: i64) -> (r: TerrainResult<()>)
        ensures
            final(self).cells() == old(self).cells(),
            final(self).width_spec() == old(self).width_spec(),
            final(self).height_spec() == old(self).height_spec(),
            final(self).start_spec() == old(self).start_spec(),
            (max as int) > old(self).start_spec() ==> r is Ok && final(self).end_spec()
                == max as int,
            (max as int) <= old(self).start_spec() ==> r is Err && r->Err_0.is_invalid_range()
                && final(self).end_spec() == old(self).end_spec(),
    {
        proof {
            use_type_invariant(&*self);
        }
        if max > self.start {
            self.end = max;
            Ok(())
        } else {
            Err(
                TerrainError::invalid_range(
                    "new maximum height does not lie above the current minimum height".to_owned(),
                ),
            )
        }
    }

    /// Remaps `value` from the tracked range onto `[0, SCALE]` thousandths:
    /// the fixed-point normalization to `[0, 1]` units.
    pub fn get_normed(&self, value: i64) -> (r: i64)
        requires
            self.start_spec() < self.end_spec(),
            self.start_spec() <= value as int <= self.end_spec(),
        ensures
            r as int == normed_of(value as int, self.start_spec(), self.end_spec()),
            0 <= r <= SCALE,
    {
        proof {
            use_type_invariant(self);
        }
        let num = (value as i128) - (self.start as i128);
        let den = (self.end as i128) - (self.start as i128);
        let q = ediv_i128(num * 1000, den);
        proof {
            let numi = num as int;
            let deni = den as int;
            lemma_div_pos_is_pos(numi * (SCALE as int), deni);
            lemma_mul_inequality(numi, deni, SCALE as int);
            lemma_div_is_ordered(numi * (SCALE as int), deni * (SCALE as int), deni);
            lemma_div_multiples_vanish(SCALE as int, deni);
            assert(deni * (SCALE as int) == (SCALE as int) * deni) by (nonlinear_arith);
        }
        q as i64
    }

    /// The grid as 8-bit gray levels, row-major by the first coordinate:
    /// each height normalized into the tracked range and scaled onto
    /// `[0, 255]`, saturating outside it. Rejected with `InvalidRange` when
    /// the range is degenerate.
    pub fn as_gray(&self) -> (r: TerrainResult<Vec<u8>>)
        ensures
            self.start_spec() < self.end_spec() ==> r is Ok && r->Ok_0@.len()
                == self.cells().len() && forall|i: int|
                0 <= i < self.cells().len() ==> #[trigger] r->Ok_0@[i] as int == gray_of(
                    self.cells()[i],
                    self.start_spec(),
                    self.end_spec(),
                ),
            self.start_spec() >= self.end_spec() ==> r is Err && r->Err_0.is_invalid_range(),
    {
        proof {
            use_type_invariant(self);
        }
        if self.start >= self.end {
            return Err(
                TerrainError::invalid_range(
                    "cannot map heights to gray levels: the range is empty".to_owned(),
                ),
            );
        }
        let mut out: Vec<u8> = Vec::new();
        let mut i: usize = 0;
        while i < self.grid.len()
            invariant
                self.start < self.end,
                0 <= i <= self.grid@.len(),
                out@.len() == i,
                forall|j: int|
                    0 <= j < i ==> #[trigger] out@[j] as int == gray_of(
                        self.cells()[j],
                        self.start_spec(),
                        self.end_spec(),
                    ),
            decreases self.grid@.len() - i,
        {
            let v = self.grid[i];
            let g = gray_level(v, self.start, self.end);
            out.push(g);
            i += 1;
        }
        Ok(out)
    }

    /// Applies `f` to every height in place. The tracked range is left as it
    /// was: a caller that needs the range of the new heights recomputes it.
    pub fn map_height<F: Fn(i64) -> i64>(&mut self, f: F)
        requires
            forall|v: i64| call_requires(f, (v,)),
        ensures
            final(self).width_spec() == old(self).width_spec(),
            final(self).height_spec() == old(self).height_spec(),
            final(self).start_spec() == old(self).start_spec(),
            final(self).end_spec() == old(self).end_spec(),
            final(self).raw_cells().len() == old(self).raw_cells().len(),
            forall|i: int|
                0 <= i < old(self).raw_cells().len() ==> call_ensures(
                    f,
                    (old(self).raw_cells()[i],),
                    #[trigger] final(self).raw_cells()[i],
                ),
    {
        proof {
            use_type_invariant(&*self);
        }
        let ghost orig = *self;
        let mut out: Vec<i64> = Vec::new();
        let mut i: usize = 0;
        while i < self.grid.len()
            invariant
                forall|v: i64| call_requires(f, (v,)),
                0 <= i <= self.grid@.len(),
                *self == orig,
                orig.inv(),
                out@.len() == i,
                forall|j: int|
                    0 <= j < i ==> call_ensures(f, (orig.grid@[j],), #[trigger] out@[j]),
            decreases self.grid@.len() - i,
        {
            let v = self.grid[i];
            let w = f(v);
            out.push(w);
            i += 1;
        }
        self.grid = out;
    }
}

/// Range containment: in a terrain whose bounds are the true minimum and
/// maximum of its heights — as every terrain the engines build is — every
/// height lies within the tracked range.
pub proof fn lemma_range_contains_all_cells(t: GridTerrain)
    requires
        t.cells().len() >= 1,
        t.start_spec() == crate::range::seq_min(t.cells()),
        t.end_spec() == crate::range::seq_max(t.cells()),
    ensures
        forall|i: int|
            0 <= i < t.cells().len() ==> t.start_spec() <= #[trigger] t.cells()[i]
                <= t.end_spec(),
{
    crate::range::lemma_min_max_contain_all(t.cells());
}

/// Normalization round trip: for any non-degenerate range, the lower bound
/// normalizes to exactly zero and the upper bound to exactly one (one
/// thousand thousandths).
pub proof fn lemma_normalize_round_trip(start: int, end: int)
    requires
        start < end,
    ensures
        normed_of(start, start, end) == 0,
        normed_of(end, start, end) == SCALE as int,
{
    vstd::arithmetic::div_mod::lemma_div_of0(end - start);
    lemma_div_multiples_vanish(SCALE as int, end - start);
}

} // verus!
