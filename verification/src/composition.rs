//! How the renderings of the bands add up to a raster.
//!
//! The runs of the bands tile the buffer, so a buffer is done when each of
//! its bands is. And as long as no pixel can show two shades, be it in one
//! band or in two, the samples do not depend on how the rows were shared
//! out: one worker or many, the raster is the same.

use vstd::prelude::*;
use crate::bands::{
    covers_rows_once, in_some_band, lemma_plan_for_bands_within, lemma_plan_for_covers_rows_once,
    plan_for, Band,
};
use crate::render::{
    can_show, laid_out, lemma_index_is_a_pixel, lemma_one_layout, pixel_index, renders, shades,
    single_valued,
};
use crate::schedule::{are_band_corners, band_samples, renders_band, renders_in_bands};

verus! {

/// The run of `band` in a buffer of rows of `width` samples holds the
/// sample at `index`.
pub open spec fn in_run(band: Band, width: usize, index: int) -> bool {
    band.top * width <= index < (band.top + band.height) * width
}

/// Every sample of the buffer lies in the run of one band and of no
/// other, for any bands that cover the rows of the raster once: no sample
/// is handed to two workers, and none is left out.
pub proof fn lemma_runs_share_no_sample(bounds: (usize, usize), bands: Seq<Band>, index: int)
    requires
        covers_rows_once(bands, bounds.1 as int),
        0 <= index < bounds.0 * bounds.1,
    ensures
        exists|i: int| 0 <= i < bands.len() && in_run(#[trigger] bands[i], bounds.0, index),
        forall|i: int, j: int|
            0 <= i < bands.len() && 0 <= j < bands.len() && in_run(
                #[trigger] bands[i],
                bounds.0,
                index,
            ) && in_run(#[trigger] bands[j], bounds.0, index) ==> i == j,
{
    lemma_index_is_a_pixel(bounds, index);
    let width = bounds.0 as int;
    let row = index / width;
    let column = index % width;
    assert(in_some_band(bands, row));
    let holder = choose|i: int| 0 <= i < bands.len() && #[trigger] bands[i].has_row(row);
    assert(in_run(bands[holder], bounds.0, index)) by (nonlinear_arith)
        requires
            bands[holder].top <= row < bands[holder].top + bands[holder].height,
            index == row * width + column,
            0 <= column < width,
            width == bounds.0,
    ;
    assert forall|i: int| 0 <= i < bands.len() && in_run(#[trigger] bands[i], bounds.0, index)
        implies bands[i].has_row(row) by {
        assert(bands[i].top <= row < bands[i].top + bands[i].height) by (nonlinear_arith)
            requires
                bands[i].top * width <= index < (bands[i].top + bands[i].height) * width,
                index == row * width + column,
                0 <= column < width,
        ;
    }
}

/// The run of a band that lies within the raster lies within the buffer,
/// and the sample of the band's pixel `(column, row)` is the sample of the
/// raster's pixel `(column, top + row)`.
pub proof fn lemma_band_pixel(
    buffer: Seq<u8>,
    bounds: (usize, usize),
    band: Band,
    column: usize,
    row: usize,
)
    requires
        buffer.len() == bounds.0 * bounds.1,
        band.top + band.height <= bounds.1,
        column < bounds.0,
        row < band.height,
    ensures
        0 <= band.top * bounds.0 <= (band.top + band.height) * bounds.0 <= buffer.len(),
        band_samples(buffer, bounds.0, band).len() == bounds.0 * band.height,
        0 <= pixel_index(bounds.0, column, row) < bounds.0 * band.height,
        band_samples(buffer, bounds.0, band)[pixel_index(bounds.0, column, row)]
            == buffer[pixel_index(bounds.0, column, (band.top + row) as usize)],
{
    let width = bounds.0 as int;
    let height = bounds.1 as int;
    let top = band.top as int;
    let rows = band.height as int;
    let c = column as int;
    let r = row as int;
    assert(0 <= top * width <= (top + rows) * width <= width * height && (top + rows) * width
        - top * width == width * rows && 0 <= r * width + c < width * rows && top * width + (r
        * width + c) == (top + r) * width + c) by (nonlinear_arith)
        requires
            0 <= top,
            0 <= r < rows,
            top + rows <= height,
            0 <= c < width,
    ;
}

/// What `allowed` admits, seen from a band that starts at row `top`: row
/// `r` of the band is row `top + r` of the raster.
pub open spec fn seen_from(allowed: spec_fn((usize, usize), u8) -> bool, top: usize) -> spec_fn(
    (usize, usize),
    u8,
) -> bool {
    |pixel: (usize, usize), sample: u8| allowed((pixel.0, (top + pixel.1) as usize), sample)
}

/// `buffer` holds a raster of the given bounds, and the run of each band
/// is laid out, as a raster of its own, with samples that `allowed` admits
/// for the band's pixels.
pub open spec fn laid_out_in_bands(
    buffer: Seq<u8>,
    bounds: (usize, usize),
    bands: Seq<Band>,
    allowed: spec_fn((usize, usize), u8) -> bool,
) -> bool {
    &&& buffer.len() == bounds.0 * bounds.1
    &&& forall|i: int|
        0 <= i < bands.len() ==> laid_out(
            band_samples(buffer, bounds.0, #[trigger] bands[i]),
            (bounds.0, bands[i].height),
            seen_from(allowed, bands[i].top),
        )
}

/// A buffer whose bands are each laid out is laid out as a whole, for any
/// bands that cover the rows of the raster once: when every band is done,
/// every pixel of the raster is.
pub proof fn lemma_bands_make_the_raster(
    buffer: Seq<u8>,
    bounds: (usize, usize),
    bands: Seq<Band>,
    allowed: spec_fn((usize, usize), u8) -> bool,
)
    requires
        covers_rows_once(bands, bounds.1 as int),
        laid_out_in_bands(buffer, bounds, bands, allowed),
    ensures
        laid_out(buffer, bounds, allowed),
{
    assert forall|column: usize, row: usize| column < bounds.0 && row < bounds.1 implies allowed(
        (column, row),
        #[trigger] buffer[pixel_index(bounds.0, column, row)],
    ) by {
        assert(in_some_band(bands, row as int));
        let i = choose|i: int| 0 <= i < bands.len() && #[trigger] bands[i].has_row(row as int);
        let band = bands[i];
        assert(band.has_row(band.top + band.height - 1));
        let local = (row - band.top) as usize;
        lemma_band_pixel(buffer, bounds, band, column, local);
        let samples = band_samples(buffer, bounds.0, band);
        assert(laid_out(samples, (bounds.0, band.height), seen_from(allowed, band.top)));
        assert(seen_from(allowed, band.top)(
            (column, local),
            samples[pixel_index(bounds.0, column, local)],
        ));
    }
}

/// `sample` is a shade that the two functions can give a pixel of the
/// raster when it is rendered as a pixel of `band`.
pub open spec fn can_show_in_band<P, M, E>(
    point_at: M,
    escape_time: E,
    bounds: (usize, usize),
    band: Band,
    upper_left: P,
    lower_right: P,
    pixel: (usize, usize),
    sample: u8,
) -> bool where M: Fn((usize, usize), (usize, usize), P, P) -> P, E: Fn(P, usize) -> Option<usize> {
    &&& band.top + band.height <= bounds.1
    &&& band.has_row(pixel.1 as int)
    &&& exists|corners: (P, P)|
        #![auto]
        are_band_corners(corners, bounds, band, upper_left, lower_right, point_at) && can_show(
            point_at,
            escape_time,
            (bounds.0, band.height),
            corners.0,
            corners.1,
            (pixel.0, (pixel.1 - band.top) as usize),
            sample,
        )
}

/// The shades that the two functions can give each pixel of a raster,
/// whatever the band it is rendered in.
pub open spec fn band_shades<P, M, E>(
    point_at: M,
    escape_time: E,
    bounds: (usize, usize),
    upper_left: P,
    lower_right: P,
) -> spec_fn((usize, usize), u8) -> bool where
    M: Fn((usize, usize), (usize, usize), P, P) -> P,
    E: Fn(P, usize) -> Option<usize>,
 {
    |pixel: (usize, usize), sample: u8|
        exists|band: Band|
            #![auto]
            can_show_in_band(
                point_at,
                escape_time,
                bounds,
                band,
                upper_left,
                lower_right,
                pixel,
                sample,
            )
}

/// In a raster rendered in bands, each band is laid out with shades that
/// its pixels can show in a band.
proof fn lemma_band_renderings_are_laid_out<P, M, E>(
    buffer: Seq<u8>,
    bounds: (usize, usize),
    workers: usize,
    upper_left: P,
    lower_right: P,
    point_at: M,
    escape_time: E,
) where M: Fn((usize, usize), (usize, usize), P, P) -> P, E: Fn(P, usize) -> Option<usize>
    requires
        workers >= 1,
        renders_in_bands(
            buffer,
            bounds,
            plan_for(bounds.1, workers),
            upper_left,
            lower_right,
            point_at,
            escape_time,
        ),
    ensures
        laid_out_in_bands(
            buffer,
            bounds,
            plan_for(bounds.1, workers),
            band_shades(point_at, escape_time, bounds, upper_left, lower_right),
        ),
{
    let bands = plan_for(bounds.1, workers);
    let allowed = band_shades(point_at, escape_time, bounds, upper_left, lower_right);
    assert forall|i: int| 0 <= i < bands.len() implies laid_out(
        band_samples(buffer, bounds.0, #[trigger] bands[i]),
        (bounds.0, bands[i].height),
        seen_from(allowed, bands[i].top),
    ) by {
        let band = bands[i];
        let samples = band_samples(buffer, bounds.0, band);
        let band_bounds = (bounds.0, band.height);
        lemma_plan_for_bands_within(bounds.1, workers, i);
        assert(renders_band(
            samples,
            bounds,
            band,
            upper_left,
            lower_right,
            point_at,
            escape_time,
        ));
        let corners = choose|corners: (P, P)|
            #![auto]
            are_band_corners(corners, bounds, band, upper_left, lower_right, point_at) && renders(
                samples,
                band_bounds,
                corners.0,
                corners.1,
                point_at,
                escape_time,
            );
        let within = shades(point_at, escape_time, band_bounds, corners.0, corners.1);
        assert forall|column: usize, row: usize|
            column < band_bounds.0 && row < band_bounds.1 implies seen_from(allowed, band.top)(
            (column, row),
            #[trigger] samples[pixel_index(band_bounds.0, column, row)],
        ) by {
            let sample = samples[pixel_index(band_bounds.0, column, row)];
            let pixel = (column, (band.top + row) as usize);
            assert(within((column, row), sample));
            assert(can_show_in_band(
                point_at,
                escape_time,
                bounds,
                band,
                upper_left,
                lower_right,
                pixel,
                sample,
            ));
            assert(allowed(pixel, sample));
        }
    }
}

/// A raster rendered in bands holds the same samples whatever the number
/// of workers the bands were planned for, as long as no pixel can show two
/// shades, be it in one band or in two.
pub proof fn lemma_worker_count_does_not_show<P, M, E>(
    bounds: (usize, usize),
    upper_left: P,
    lower_right: P,
    point_at: M,
    escape_time: E,
    workers: usize,
    buffer: Seq<u8>,
    other_workers: usize,
    other_buffer: Seq<u8>,
) where M: Fn((usize, usize), (usize, usize), P, P) -> P, E: Fn(P, usize) -> Option<usize>
    requires
        workers >= 1,
        other_workers >= 1,
        single_valued(band_shades(point_at, escape_time, bounds, upper_left, lower_right)),
        renders_in_bands(
            buffer,
            bounds,
            plan_for(bounds.1, workers),
            upper_left,
            lower_right,
            point_at,
            escape_time,
        ),
        renders_in_bands(
            other_buffer,
            bounds,
            plan_for(bounds.1, other_workers),
            upper_left,
            lower_right,
            point_at,
            escape_time,
        ),
    ensures
        buffer == other_buffer,
{
    let allowed = band_shades(point_at, escape_time, bounds, upper_left, lower_right);
    lemma_plan_for_covers_rows_once(bounds.1, workers);
    lemma_plan_for_covers_rows_once(bounds.1, other_workers);
    lemma_band_renderings_are_laid_out(
        buffer,
        bounds,
        workers,
        upper_left,
        lower_right,
        point_at,
        escape_time,
    );
    lemma_band_renderings_are_laid_out(
        other_buffer,
        bounds,
        other_workers,
        upper_left,
        lower_right,
        point_at,
        escape_time,
    );
    lemma_bands_make_the_raster(buffer, bounds, plan_for(bounds.1, workers), allowed);
    lemma_bands_make_the_raster(other_buffer, bounds, plan_for(bounds.1, other_workers), allowed);
    lemma_one_layout(bounds, allowed, buffer, other_buffer);
}

} // verus!
