//! Rendering a raster band by band.
//!
//! Each band of a plan is a raster of its own: its samples are a run of the
//! whole buffer, its bounds are the raster's width and its own height, and
//! its corner points are the points of the pixels at its corners in the
//! whole raster. `schedule` cuts a buffer into one job for each band. Jobs
//! share nothing, so they can be rendered in any order, or at the same time
//! by as many workers; `render_in_bands` renders them one after the other.

use vstd::prelude::*;
use vstd::seq_lib::lemma_flatten_concat;
use crate::bands::{
    ceil_div, in_some_band, lemma_band_position, lemma_plan_for_covers_rows_once,
    lemma_rows_per_band_bounds, partition, plan_for, Band,
};
use crate::render::{accepts_raster, render, renders};

verus! {

/// What one worker is handed: a band, the run of the buffer that holds its
/// samples, its bounds as a raster of its own, and the points at its upper
/// left and lower right corners.
pub struct BandJob<'a, P> {
    pub band: Band,
    pub samples: &'a mut [u8],
    pub bounds: (usize, usize),
    pub upper_left: P,
    pub lower_right: P,
}

impl<'a, P> BandJob<'a, P> {
    /// The job's bounds have the height of its band, and its run holds one
    /// sample for each pixel within them.
    pub open spec fn well_formed(self) -> bool {
        &&& self.bounds.1 == self.band.height
        &&& self.samples@.len() == self.bounds.0 * self.bounds.1
    }
}

/// The run of a row-major buffer that holds the rows of `band`.
pub open spec fn band_samples(buffer: Seq<u8>, width: usize, band: Band) -> Seq<u8> {
    buffer.subrange(band.top * width, (band.top + band.height) * width)
}

/// `corners` are the points of a band's corners: what `point_at` maps the
/// raster's pixels `(0, top)` and `(width, top + height)` to, against the
/// bounds and the corner points of the whole raster.
pub open spec fn are_band_corners<P, M>(
    corners: (P, P),
    bounds: (usize, usize),
    band: Band,
    upper_left: P,
    lower_right: P,
    point_at: M,
) -> bool where M: Fn((usize, usize), (usize, usize), P, P) -> P {
    &&& call_ensures(point_at, (bounds, (0usize, band.top), upper_left, lower_right), corners.0)
    &&& call_ensures(
        point_at,
        (bounds, (bounds.0, (band.top + band.height) as usize), upper_left, lower_right),
        corners.1,
    )
}

/// `point_at` can be called for the corners of `band`.
pub open spec fn accepts_corners<P, M>(
    point_at: M,
    bounds: (usize, usize),
    band: Band,
    upper_left: P,
    lower_right: P,
) -> bool where M: Fn((usize, usize), (usize, usize), P, P) -> P {
    &&& call_requires(point_at, (bounds, (0usize, band.top), upper_left, lower_right))
    &&& call_requires(
        point_at,
        (bounds, (bounds.0, (band.top + band.height) as usize), upper_left, lower_right),
    )
}

/// The corner points of a band, upper left first.
pub fn band_corners<P, M>(
    bounds: (usize, usize),
    band: Band,
    upper_left: P,
    lower_right: P,
    point_at: &M,
) -> (corners: (P, P)) where P: Copy, M: Fn((usize, usize), (usize, usize), P, P) -> P
    requires
        band.top + band.height <= bounds.1,
        accepts_corners(*point_at, bounds, band, upper_left, lower_right),
    ensures
        are_band_corners(corners, bounds, band, upper_left, lower_right, *point_at),
{
    let upper = point_at(bounds, (0, band.top), upper_left, lower_right);
    let lower = point_at(bounds, (bounds.0, band.top + band.height), upper_left, lower_right);
    (upper, lower)
}

/// `samples` is a rendering of `band`: a rendering of a raster with the
/// band's bounds between the band's corner points.
pub open spec fn renders_band<P, M, E>(
    samples: Seq<u8>,
    bounds: (usize, usize),
    band: Band,
    upper_left: P,
    lower_right: P,
    point_at: M,
    escape_time: E,
) -> bool where M: Fn((usize, usize), (usize, usize), P, P) -> P, E: Fn(P, usize) -> Option<usize> {
    exists|corners: (P, P)|
        #![auto]
        are_band_corners(corners, bounds, band, upper_left, lower_right, point_at) && renders(
            samples,
            (bounds.0, band.height),
            corners.0,
            corners.1,
            point_at,
            escape_time,
        )
}

/// `buffer` holds a raster of the given bounds, and the run of each band
/// is a rendering of the band.
pub open spec fn renders_in_bands<P, M, E>(
    buffer: Seq<u8>,
    bounds: (usize, usize),
    bands: Seq<Band>,
    upper_left: P,
    lower_right: P,
    point_at: M,
    escape_time: E,
) -> bool where M: Fn((usize, usize), (usize, usize), P, P) -> P, E: Fn(P, usize) -> Option<usize> {
    &&& buffer.len() == bounds.0 * bounds.1
    &&& forall|i: int|
        0 <= i < bands.len() ==> renders_band(
            band_samples(buffer, bounds.0, #[trigger] bands[i]),
            bounds,
            bands[i],
            upper_left,
            lower_right,
            point_at,
            escape_time,
        )
}

/// `job` is the job for `band` in a raster held by `buffer`: it is well
/// formed, its samples are the band's run, its bounds are the raster's
/// width and the band's height, and its corner points are the band's.
pub open spec fn is_job_for<P, M>(
    job: BandJob<P>,
    band: Band,
    buffer: Seq<u8>,
    bounds: (usize, usize),
    upper_left: P,
    lower_right: P,
    point_at: M,
) -> bool where M: Fn((usize, usize), (usize, usize), P, P) -> P {
    &&& job.well_formed()
    &&& job.band == band
    &&& job.bounds == (bounds.0, band.height)
    &&& job.samples@ == band_samples(buffer, bounds.0, band)
    &&& are_band_corners(
        (job.upper_left, job.lower_right),
        bounds,
        band,
        upper_left,
        lower_right,
        point_at,
    )
}

/// Cuts the buffer into one job for each band of the plan for `workers`
/// workers, from the top down. The runs of the jobs share no sample and
/// leave none out: what the buffer holds in the end is what the jobs' runs
/// hold in the end, one after the other.
pub fn schedule<'a, P, M>(
    pixels: &'a mut [u8],
    bounds: (usize, usize),
    upper_left: P,
    lower_right: P,
    workers: usize,
    point_at: &M,
) -> (jobs: Vec<BandJob<'a, P>>) where P: Copy, M: Fn((usize, usize), (usize, usize), P, P) -> P
    requires
        old(pixels)@.len() == bounds.0 * bounds.1,
        workers >= 1,
        forall|i: int|
            0 <= i < plan_for(bounds.1, workers).len() ==> accepts_corners(
                *point_at,
                bounds,
                #[trigger] plan_for(bounds.1, workers)[i],
                upper_left,
                lower_right,
            ),
    ensures
        jobs@.len() == plan_for(bounds.1, workers).len(),
        forall|i: int|
            0 <= i < jobs@.len() ==> is_job_for(
                #[trigger] jobs@[i],
                plan_for(bounds.1, workers)[i],
                old(pixels)@,
                bounds,
                upper_left,
                lower_right,
                *point_at,
            ),
        final(pixels)@ == Seq::new(jobs@.len(), |i: int| final(jobs@[i].samples)@).flatten(),
{
    let bands = partition(bounds.1, workers);
    let whole: usize = pixels.len();
    let ghost at_first = pixels@;
    let ghost in_the_end: Seq<u8> = final(pixels)@;
    let ghost rows = ceil_div(bounds.1 as nat, workers as nat) as usize;
    let mut jobs: Vec<BandJob<'a, P>> = Vec::new();
    let mut rest: &'a mut [u8] = pixels;
    let mut i: usize = 0;
    proof {
        lemma_rows_per_band_bounds(bounds.1, workers);
        if bands.len() > 0 {
            lemma_band_position(bounds.1, rows, 0);
        } else if bounds.1 > 0 {
            assert(in_some_band(bands@, 0));
        }
        assert(0 * bounds.0 == 0 && (bounds.1 == 0 ==> bounds.0 * bounds.1 == 0))
            by (nonlinear_arith);
        assert(Seq::new(jobs@.len(), |k: int| final(jobs@[k].samples)@).flatten()
            =~= Seq::<u8>::empty());
        assert(rest@ =~= at_first.subrange(0, whole as int));
    }
    while i < bands.len()
        invariant
            i <= bands.len(),
            jobs@.len() == i,
            bands@ == plan_for(bounds.1, workers),
            bands.len() > 0 ==> rows >= 1,
            bands.len() == 0 ==> whole == 0,
            rows == ceil_div(bounds.1 as nat, workers as nat),
            whole == bounds.0 * bounds.1,
            at_first.len() == whole,
            i < bands.len() ==> whole - rest@.len() == bands[i as int].top * bounds.0,
            i == bands.len() ==> rest@.len() == 0,
            rest@.len() <= whole,
            rest@ == at_first.subrange(whole - rest@.len(), whole as int),
            in_the_end == Seq::new(jobs@.len(), |k: int| final(jobs@[k].samples)@).flatten()
                + final(rest)@,
            forall|k: int|
                0 <= k < i ==> is_job_for(
                    #[trigger] jobs@[k],
                    bands[k],
                    at_first,
                    bounds,
                    upper_left,
                    lower_right,
                    *point_at,
                ),
            forall|k: int|
                0 <= k < bands.len() ==> accepts_corners(
                    *point_at,
                    bounds,
                    #[trigger] bands[k],
                    upper_left,
                    lower_right,
                ),
        decreases bands.len() - i,
    {
        let band = bands[i];
        proof {
            lemma_band_position(bounds.1, rows, i as int);
            if i + 1 < bands.len() {
                lemma_band_position(bounds.1, rows, i + 1);
            }
            let width = bounds.0 as int;
            let top = band.top as int;
            let height = band.height as int;
            assert(top * width + height * width == (top + height) * width && (top + height)
                * width <= bounds.1 * width && bounds.1 * width == width * bounds.1 && 0
                <= height * width && height * width == width * height) by (nonlinear_arith)
                requires
                    0 <= top,
                    0 <= height,
                    0 <= width,
                    top + height <= bounds.1,
            ;
        }
        let ghost handed_out = Seq::new(jobs@.len(), |k: int| final(jobs@[k].samples)@);
        let (samples, tail) = rest.split_at_mut(band.height * bounds.0);
        let ghost run_in_the_end = final(samples)@;
        proof {
            assert(samples@ =~= band_samples(at_first, bounds.0, band));
            assert(tail@ =~= at_first.subrange(whole - tail@.len(), whole as int));
        }
        let corners = band_corners(bounds, band, upper_left, lower_right, point_at);
        jobs.push(
            BandJob {
                band,
                samples,
                bounds: (bounds.0, band.height),
                upper_left: corners.0,
                lower_right: corners.1,
            },
        );
        rest = tail;
        i += 1;
        proof {
            let now = Seq::new(jobs@.len(), |k: int| final(jobs@[k].samples)@);
            assert(now =~= handed_out + seq![run_in_the_end]);
            lemma_flatten_concat(handed_out, seq![run_in_the_end]);
            seq![run_in_the_end].lemma_flatten_one_element();
        }
    }
    proof {
        assert(final(rest)@ =~= Seq::<u8>::empty());
    }
    jobs
}

/// Where the runs of the jobs lie once they are put together again: if
/// each run has as many samples as its band has pixels, then together they
/// hold a raster, and the run of band `i` in it is the `i`-th.
pub proof fn lemma_runs_lie_in_place(
    runs: Seq<Seq<u8>>,
    bounds: (usize, usize),
    workers: usize,
    i: int,
)
    requires
        workers >= 1,
        runs.len() == plan_for(bounds.1, workers).len(),
        forall|k: int|
            0 <= k < runs.len() ==> (#[trigger] runs[k]).len() == bounds.0 * plan_for(
                bounds.1,
                workers,
            )[k].height,
        0 <= i < runs.len(),
    ensures
        runs.flatten().len() == bounds.0 * bounds.1,
        band_samples(runs.flatten(), bounds.0, plan_for(bounds.1, workers)[i]) == runs[i],
{
    let bands = plan_for(bounds.1, workers);
    let before = runs.take(i);
    let after = runs.skip(i + 1);
    lemma_runs_length(runs, bounds, workers, i);
    lemma_runs_length(runs, bounds, workers, i + 1);
    lemma_runs_length(runs, bounds, workers, runs.len() as int);
    assert(runs.take(runs.len() as int) =~= runs);
    assert(runs =~= before + seq![runs[i]] + after);
    assert(runs.take(i + 1) =~= before + seq![runs[i]]);
    lemma_flatten_concat(before, seq![runs[i]]);
    lemma_flatten_concat(before + seq![runs[i]], after);
    seq![runs[i]].lemma_flatten_one_element();
    assert(runs.flatten() =~= before.flatten() + runs[i] + after.flatten());
    let width = bounds.0 as int;
    let top = bands[i].top as int;
    let height = bands[i].height as int;
    assert(top * width + width * height == (top + height) * width) by (nonlinear_arith);
    assert(band_samples(runs.flatten(), bounds.0, bands[i]) =~= runs[i]);
}

/// The first `count` runs hold the rows above band `count`, or all rows
/// where there is no such band.
proof fn lemma_runs_length(runs: Seq<Seq<u8>>, bounds: (usize, usize), workers: usize, count: int)
    requires
        workers >= 1,
        runs.len() == plan_for(bounds.1, workers).len(),
        forall|k: int|
            0 <= k < runs.len() ==> (#[trigger] runs[k]).len() == bounds.0 * plan_for(
                bounds.1,
                workers,
            )[k].height,
        0 <= count <= runs.len(),
    ensures
        count < runs.len() ==> runs.take(count).flatten().len() == plan_for(
            bounds.1,
            workers,
        )[count].top * bounds.0,
        count == runs.len() ==> runs.take(count).flatten().len() == bounds.0 * bounds.1,
    decreases count,
{
    let bands = plan_for(bounds.1, workers);
    let rows = ceil_div(bounds.1 as nat, workers as nat) as usize;
    lemma_rows_per_band_bounds(bounds.1, workers);
    if count == 0 {
        assert(runs.take(0) =~= Seq::<Seq<u8>>::empty());
        if runs.len() > 0 {
            lemma_band_position(bounds.1, rows, 0);
        } else if bounds.1 > 0 {
            lemma_plan_for_covers_rows_once(bounds.1, workers);
            assert(in_some_band(bands, 0));
        }
        assert(0 * bounds.0 == 0 && (bounds.1 == 0 ==> bounds.0 * bounds.1 == 0))
            by (nonlinear_arith);
    } else {
        let last = count - 1;
        lemma_runs_length(runs, bounds, workers, last);
        assert(runs.take(count) =~= runs.take(last) + seq![runs[last]]);
        lemma_flatten_concat(runs.take(last), seq![runs[last]]);
        seq![runs[last]].lemma_flatten_one_element();
        lemma_band_position(bounds.1, rows, last);
        let width = bounds.0 as int;
        let top = bands[last].top as int;
        let height = bands[last].height as int;
        assert(top * width + width * height == (top + height) * width && bounds.1 * width
            == width * bounds.1) by (nonlinear_arith);
    }
}

/// The two functions accept `band`: `point_at` can be called for the
/// band's corners, and both accept the band as a raster between any corner
/// points that come back.
pub open spec fn accepts_band<P, M, E>(
    point_at: M,
    escape_time: E,
    bounds: (usize, usize),
    band: Band,
    upper_left: P,
    lower_right: P,
) -> bool where M: Fn((usize, usize), (usize, usize), P, P) -> P, E: Fn(P, usize) -> Option<usize> {
    &&& accepts_corners(point_at, bounds, band, upper_left, lower_right)
    &&& forall|corners: (P, P)|
        #[trigger] are_band_corners(corners, bounds, band, upper_left, lower_right, point_at)
            ==> accepts_raster(
            point_at,
            escape_time,
            (bounds.0, band.height),
            corners.0,
            corners.1,
        )
}

/// When every job is done, the raster is rendered in bands: if the runs
/// are renderings of the bands, each between corner points of its band,
/// then so is the buffer that they make up.
pub proof fn lemma_finished_jobs_render_in_bands<P, M, E>(
    runs: Seq<Seq<u8>>,
    corners: Seq<(P, P)>,
    bounds: (usize, usize),
    workers: usize,
    upper_left: P,
    lower_right: P,
    point_at: M,
    escape_time: E,
) where M: Fn((usize, usize), (usize, usize), P, P) -> P, E: Fn(P, usize) -> Option<usize>
    requires
        workers >= 1,
        runs.len() == plan_for(bounds.1, workers).len(),
        corners.len() == runs.len(),
        forall|i: int|
            0 <= i < runs.len() ==> are_band_corners(
                #[trigger] corners[i],
                bounds,
                plan_for(bounds.1, workers)[i],
                upper_left,
                lower_right,
                point_at,
            ) && renders(
                runs[i],
                (bounds.0, plan_for(bounds.1, workers)[i].height),
                corners[i].0,
                corners[i].1,
                point_at,
                escape_time,
            ),
    ensures
        renders_in_bands(
            runs.flatten(),
            bounds,
            plan_for(bounds.1, workers),
            upper_left,
            lower_right,
            point_at,
            escape_time,
        ),
{
    let bands = plan_for(bounds.1, workers);
    assert forall|k: int| 0 <= k < runs.len() implies (#[trigger] runs[k]).len() == bounds.0
        * bands[k].height by {
        assert(are_band_corners(corners[k], bounds, bands[k], upper_left, lower_right, point_at));
    }
    assert forall|i: int| 0 <= i < bands.len() implies renders_band(
        band_samples(runs.flatten(), bounds.0, #[trigger] bands[i]),
        bounds,
        bands[i],
        upper_left,
        lower_right,
        point_at,
        escape_time,
    ) by {
        lemma_runs_lie_in_place(runs, bounds, workers, i);
        assert(are_band_corners(corners[i], bounds, bands[i], upper_left, lower_right, point_at));
    }
    if bands.len() > 0 {
        lemma_runs_lie_in_place(runs, bounds, workers, 0);
    } else {
        assert(runs.flatten() =~= Seq::<u8>::empty());
        lemma_plan_for_covers_rows_once(bounds.1, workers);
        if bounds.1 > 0 {
            assert(in_some_band(bands, 0));
        }
        assert(bounds.1 == 0 ==> bounds.0 * bounds.1 == 0) by (nonlinear_arith);
    }
}

/// Renders a raster band by band, on the calling thread, with the bands
/// planned for `workers` workers: the buffer is cut into jobs, and each
/// job's band is rendered between its corner points into its own run, the
/// last band first.
pub fn render_in_bands<P, M, E>(
    pixels: &mut [u8],
    bounds: (usize, usize),
    upper_left: P,
    lower_right: P,
    workers: usize,
    point_at: &M,
    escape_time: &E,
) where P: Copy, M: Fn((usize, usize), (usize, usize), P, P) -> P, E: Fn(P, usize) -> Option<usize>
    requires
        old(pixels)@.len() == bounds.0 * bounds.1,
        workers >= 1,
        forall|i: int|
            0 <= i < plan_for(bounds.1, workers).len() ==> accepts_band(
                *point_at,
                *escape_time,
                bounds,
                #[trigger] plan_for(bounds.1, workers)[i],
                upper_left,
                lower_right,
            ),
    ensures
        renders_in_bands(
            final(pixels)@,
            bounds,
            plan_for(bounds.1, workers),
            upper_left,
            lower_right,
            *point_at,
            *escape_time,
        ),
{
    let ghost bands = plan_for(bounds.1, workers);
    let ghost at_first = pixels@;
    let mut jobs = schedule(pixels, bounds, upper_left, lower_right, workers, point_at);
    let ghost all = jobs@;
    while jobs.len() > 0
        invariant
            bands == plan_for(bounds.1, workers),
            all.len() == bands.len(),
            jobs@.len() <= all.len(),
            forall|k: int| 0 <= k < jobs@.len() ==> jobs@[k] == all[k],
            forall|k: int|
                0 <= k < all.len() ==> is_job_for(
                    #[trigger] all[k],
                    bands[k],
                    at_first,
                    bounds,
                    upper_left,
                    lower_right,
                    *point_at,
                ),
            forall|k: int|
                0 <= k < bands.len() ==> accepts_band(
                    *point_at,
                    *escape_time,
                    bounds,
                    #[trigger] bands[k],
                    upper_left,
                    lower_right,
                ),
            forall|k: int|
                jobs@.len() <= k < all.len() ==> renders(
                    final(#[trigger] all[k].samples)@,
                    all[k].bounds,
                    all[k].upper_left,
                    all[k].lower_right,
                    *point_at,
                    *escape_time,
                ),
        decreases jobs@.len(),
    {
        let ghost next = jobs@.len() - 1;
        let job = jobs.pop().unwrap();
        proof {
            assert(job == all[next]);
            assert(is_job_for(
                all[next],
                bands[next],
                at_first,
                bounds,
                upper_left,
                lower_right,
                *point_at,
            ));
            assert(accepts_band(
                *point_at,
                *escape_time,
                bounds,
                bands[next],
                upper_left,
                lower_right,
            ));
        }
        render(
            job.samples,
            job.bounds,
            job.upper_left,
            job.lower_right,
            point_at,
            escape_time,
        );
    }
    proof {
        let runs = Seq::new(all.len(), |k: int| final(all[k].samples)@);
        let corners = Seq::new(all.len(), |k: int| (all[k].upper_left, all[k].lower_right));
        assert forall|i: int| 0 <= i < runs.len() implies are_band_corners(
            #[trigger] corners[i],
            bounds,
            bands[i],
            upper_left,
            lower_right,
            *point_at,
        ) && renders(
            runs[i],
            (bounds.0, bands[i].height),
            corners[i].0,
            corners[i].1,
            *point_at,
            *escape_time,
        ) by {
            assert(is_job_for(
                all[i],
                bands[i],
                at_first,
                bounds,
                upper_left,
                lower_right,
                *point_at,
            ));
        }
        lemma_finished_jobs_render_in_bands(
            runs,
            corners,
            bounds,
            workers,
            upper_left,
            lower_right,
            *point_at,
            *escape_time,
        );
    }
}

} // verus!
