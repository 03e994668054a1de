//! Cutting the rows of a raster into bands, one band per worker.
//!
//! A plan is a sequence of bands of equal size, but for the last, which
//! takes the rows that are left. The size is the height divided by the
//! worker count, rounded up, so that a plan never holds more bands than
//! there are workers. Every row lies in one band and in no other: that is
//! what lets each band be rendered without a look at the others.

use vstd::prelude::*;
use vstd::arithmetic::div_mod::{lemma_fundamental_div_mod, lemma_mod_bound};

verus! {

/// A run of consecutive rows of a raster: the rows `top .. top + height`.
#[derive(Clone, Copy, Debug, PartialEq, Eq)]
pub struct Band {
    pub top: usize,
    pub height: usize,
}

impl Band {
    /// The band holds `row`.
    pub open spec fn has_row(self, row: int) -> bool {
        self.top <= row < self.top + self.height
    }
}

/// `total / size`, rounded up; zero where `size` is zero.
pub open spec fn ceil_div(total: nat, size: nat) -> nat {
    if size == 0 {
        0
    } else {
        ((total + size - 1) / (size as int)) as nat
    }
}

/// The `i`-th band of size `rows_per_band` in a raster of `height` rows:
/// it starts at row `i * rows_per_band` and ends where the raster ends, if
/// that comes first.
pub open spec fn band_at(height: usize, rows_per_band: usize, i: int) -> Band {
    let top = i * rows_per_band;
    let rest = height - top;
    Band {
        top: top as usize,
        height: (if rest < rows_per_band { rest } else { rows_per_band as int }) as usize,
    }
}

/// The bands of size `rows_per_band` that a raster of `height` rows is cut
/// into, from the top down. There is none where either number is zero.
pub open spec fn plan(height: usize, rows_per_band: usize) -> Seq<Band> {
    Seq::new(
        ceil_div(height as nat, rows_per_band as nat),
        |i: int| band_at(height, rows_per_band, i),
    )
}

/// The plan for `workers` workers: bands of `height / workers` rows,
/// rounded up.
pub open spec fn plan_for(height: usize, workers: usize) -> Seq<Band> {
    plan(height, ceil_div(height as nat, workers as nat) as usize)
}

/// One of `bands` holds `row`.
pub open spec fn in_some_band(bands: Seq<Band>, row: int) -> bool {
    exists|i: int| 0 <= i < bands.len() && #[trigger] bands[i].has_row(row)
}

/// Every row of a raster of `height` rows lies in one band of `bands` and
/// in no other, and the bands hold no other row.
pub open spec fn covers_rows_once(bands: Seq<Band>, height: int) -> bool {
    &&& forall|row: int| 0 <= row < height ==> #[trigger] in_some_band(bands, row)
    &&& forall|i: int, j: int, row: int|
        0 <= i < bands.len() && 0 <= j < bands.len() && #[trigger] bands[i].has_row(row)
            && #[trigger] bands[j].has_row(row) ==> i == j
    &&& forall|i: int, row: int|
        0 <= i < bands.len() && #[trigger] bands[i].has_row(row) ==> 0 <= row < height
}

/// `ceil_div(total, size)` parts of `size` hold `total`, and one part fewer
/// does not.
pub proof fn lemma_ceil_div_bounds(total: nat, size: nat)
    requires
        size > 0,
    ensures
        total <= ceil_div(total, size) * size < total + size,
{
    let padded = total + size - 1;
    lemma_fundamental_div_mod(padded, size as int);
    lemma_mod_bound(padded, size as int);
    assert(size * (padded / (size as int)) == (padded / (size as int)) * size)
        by (nonlinear_arith);
}

/// `ceil_div(total, size)` is the least count of parts of `size` that hold
/// `total`.
pub proof fn lemma_ceil_div_is_least(total: nat, size: nat, count: nat)
    requires
        size > 0,
        total <= count * size,
    ensures
        ceil_div(total, size) <= count,
{
    lemma_ceil_div_bounds(total, size);
    let least = ceil_div(total, size);
    assert(least <= count) by (nonlinear_arith)
        requires
            least * size < total + size,
            total <= count * size,
            size > 0,
    ;
}

/// The size of the bands for `workers` workers is at most the height, and
/// at least one row where the raster has a row.
pub proof fn lemma_rows_per_band_bounds(height: usize, workers: usize)
    requires
        workers >= 1,
    ensures
        ceil_div(height as nat, workers as nat) <= height,
        height >= 1 ==> ceil_div(height as nat, workers as nat) >= 1,
{
    lemma_ceil_div_bounds(height as nat, workers as nat);
    let rows = ceil_div(height as nat, workers as nat);
    assert(rows <= height && (height >= 1 ==> rows >= 1)) by (nonlinear_arith)
        requires
            height <= rows * workers < height + workers,
            workers >= 1,
    ;
}

/// `total / size`, rounded up.
fn ceil_div_of(total: usize, size: usize) -> (count: usize)
    requires
        size > 0,
    ensures
        count == ceil_div(total as nat, size as nat),
{
    let quotient: usize = total / size;
    let remainder: usize = total % size;
    proof {
        lemma_ceil_div_bounds(total as nat, size as nat);
        lemma_fundamental_div_mod(total as int, size as int);
        let count = ceil_div(total as nat, size as nat);
        assert(remainder == 0 ==> count == quotient) by (nonlinear_arith)
            requires
                total <= count * size < total + size,
                total == size * quotient + remainder,
                0 <= remainder < size,
        ;
        assert(remainder != 0 ==> count == quotient + 1 && quotient + 1 <= total)
            by (nonlinear_arith)
            requires
                total <= count * size < total + size,
                total == size * quotient + remainder,
                0 <= remainder < size,
        ;
    }
    if remainder == 0 {
        quotient
    } else {
        quotient + 1
    }
}

/// The number of rows in each band, but the last, when `height` rows are
/// shared among `workers` workers.
pub fn rows_per_band(height: usize, workers: usize) -> (rows: usize)
    requires
        workers >= 1,
    ensures
        rows == ceil_div(height as nat, workers as nat),
{
    ceil_div_of(height, workers)
}

/// Cuts `height` rows into bands of `rows_per_band` rows; the last band is
/// shorter where `height` is no multiple of the size. With a size of zero
/// there is no band to cut.
pub fn bands_of_size(height: usize, rows_per_band: usize) -> (bands: Vec<Band>)
    ensures
        bands@ == plan(height, rows_per_band),
        rows_per_band >= 1 ==> covers_rows_once(bands@, height as int),
{
    let mut bands: Vec<Band> = Vec::new();
    if rows_per_band == 0 {
        assert(bands@ =~= plan(height, rows_per_band));
        return bands;
    }
    let count: usize = ceil_div_of(height, rows_per_band);
    let mut i: usize = 0;
    proof {
        lemma_ceil_div_bounds(height as nat, rows_per_band as nat);
        lemma_plan_covers_rows_once(height, rows_per_band);
    }
    while i < count
        invariant
            rows_per_band >= 1,
            count == ceil_div(height as nat, rows_per_band as nat),
            height <= count * rows_per_band < height + rows_per_band,
            i <= count,
            bands@.len() == i,
            forall|k: int| 0 <= k < i ==> bands@[k] == band_at(height, rows_per_band, k),
        decreases count - i,
    {
        assert(i * rows_per_band < height) by (nonlinear_arith)
            requires
                i < count,
                count * rows_per_band < height + rows_per_band,
                rows_per_band >= 1,
        ;
        let top: usize = i * rows_per_band;
        let rest: usize = height - top;
        let band_height: usize = if rest < rows_per_band {
            rest
        } else {
            rows_per_band
        };
        bands.push(Band { top, height: band_height });
        i += 1;
    }
    assert(bands@ =~= plan(height, rows_per_band));
    bands
}

/// Cuts `height` rows into bands for `workers` workers. A raster without
/// rows has no band.
pub fn partition(height: usize, workers: usize) -> (bands: Vec<Band>)
    requires
        workers >= 1,
    ensures
        bands@ == plan_for(height, workers),
        covers_rows_once(bands@, height as int),
        bands@.len() <= workers,
{
    proof {
        lemma_plan_for_covers_rows_once(height, workers);
        lemma_no_more_bands_than_workers(height, workers);
    }
    bands_of_size(height, rows_per_band(height, workers))
}

/// Where a band of a plan lies: band `i` starts at row `i * rows_per_band`,
/// is not empty, has `rows_per_band` rows unless it is the last, and ends
/// where the next one starts or, for the last, where the raster ends.
pub proof fn lemma_band_position(height: usize, rows_per_band: usize, i: int)
    requires
        rows_per_band >= 1,
        0 <= i < plan(height, rows_per_band).len(),
    ensures
        plan(height, rows_per_band)[i].top == i * rows_per_band,
        1 <= plan(height, rows_per_band)[i].height <= rows_per_band,
        plan(height, rows_per_band)[i].top + plan(height, rows_per_band)[i].height <= height,
        i + 1 < plan(height, rows_per_band).len() ==> {
            &&& plan(height, rows_per_band)[i].height == rows_per_band
            &&& plan(height, rows_per_band)[i + 1].top == plan(height, rows_per_band)[i].top
                + rows_per_band
        },
        i + 1 == plan(height, rows_per_band).len() ==> plan(height, rows_per_band)[i].top + plan(
            height,
            rows_per_band,
        )[i].height == height,
{
    lemma_ceil_div_bounds(height as nat, rows_per_band as nat);
    let count = ceil_div(height as nat, rows_per_band as nat);
    assert(i * rows_per_band < height && (i + 1 < count ==> (i + 1) * rows_per_band < height)
        && (i + 1) * rows_per_band == i * rows_per_band + rows_per_band && 0 <= i
        * rows_per_band) by (nonlinear_arith)
        requires
            0 <= i < count,
            height <= count * rows_per_band < height + rows_per_band,
            rows_per_band >= 1,
    ;
}

/// Bands of any size cover every row of the raster once, whether or not
/// the size divides the height: row `r` lies in band `r / rows_per_band`.
pub proof fn lemma_plan_covers_rows_once(height: usize, rows_per_band: usize)
    requires
        rows_per_band >= 1,
    ensures
        covers_rows_once(plan(height, rows_per_band), height as int),
{
    let bands = plan(height, rows_per_band);
    let size = rows_per_band as int;
    lemma_ceil_div_bounds(height as nat, rows_per_band as nat);
    assert forall|row: int| 0 <= row < height implies #[trigger] in_some_band(bands, row) by {
        let i = row / size;
        lemma_fundamental_div_mod(row, size);
        lemma_mod_bound(row, size);
        assert(0 <= i < bands.len() && size * i == i * size) by (nonlinear_arith)
            requires
                row == size * i + row % size,
                0 <= row % size < size,
                0 <= row < height,
                height <= bands.len() * size,
        ;
        lemma_band_position(height, rows_per_band, i);
        assert(bands[i].has_row(row));
    }
    assert forall|i: int, j: int, row: int|
        0 <= i < bands.len() && 0 <= j < bands.len() && #[trigger] bands[i].has_row(row)
            && #[trigger] bands[j].has_row(row) implies i == j by {
        lemma_band_position(height, rows_per_band, i);
        lemma_band_position(height, rows_per_band, j);
        assert(i == j) by (nonlinear_arith)
            requires
                i * size <= row < i * size + size,
                j * size <= row < j * size + size,
        ;
    }
    assert forall|i: int, row: int|
        0 <= i < bands.len() && #[trigger] bands[i].has_row(row) implies 0 <= row < height by {
        lemma_band_position(height, rows_per_band, i);
    }
}

/// The plan for any number of workers covers every row of a raster of any
/// height once.
pub proof fn lemma_plan_for_covers_rows_once(height: usize, workers: usize)
    requires
        workers >= 1,
    ensures
        covers_rows_once(plan_for(height, workers), height as int),
{
    lemma_rows_per_band_bounds(height, workers);
    let rows = ceil_div(height as nat, workers as nat);
    if rows >= 1 {
        lemma_plan_covers_rows_once(height, rows as usize);
    } else {
        assert(plan_for(height, workers).len() == 0);
    }
}

/// No band of the plan for any number of workers is empty, and each ends
/// within the raster.
pub proof fn lemma_plan_for_bands_within(height: usize, workers: usize, i: int)
    requires
        workers >= 1,
        0 <= i < plan_for(height, workers).len(),
    ensures
        1 <= plan_for(height, workers)[i].height,
        plan_for(height, workers)[i].top + plan_for(height, workers)[i].height <= height,
{
    lemma_rows_per_band_bounds(height, workers);
    lemma_band_position(height, ceil_div(height as nat, workers as nat) as usize, i);
}

/// A plan holds no more bands than there are workers.
pub proof fn lemma_no_more_bands_than_workers(height: usize, workers: usize)
    requires
        workers >= 1,
    ensures
        plan_for(height, workers).len() <= workers,
{
    lemma_rows_per_band_bounds(height, workers);
    let rows = ceil_div(height as nat, workers as nat);
    if rows >= 1 {
        lemma_ceil_div_bounds(height as nat, workers as nat);
        assert(workers * rows == rows * workers) by (nonlinear_arith);
        lemma_ceil_div_is_least(height as nat, rows, workers as nat);
    }
}

} // verus!
