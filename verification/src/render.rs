//! Filling a pixel buffer, one sample per pixel, row by row.
//!
//! The buffer is row-major: the sample of the pixel in column `c` of row
//! `r` is at index `r * width + c`. What a pixel shows is decided by two
//! functions of the caller: `point_at` maps a pixel to a point of the
//! plane, given the raster's bounds and the points at its upper left and
//! lower right corners, and `escape_time` tells after how many steps, within
//! a budget, the point escaped, if it did. This module lays the answers out
//! and is proved against the contracts of those two functions.

use vstd::prelude::*;
use crate::shade::{shade, shade_of, ESCAPE_LIMIT};

verus! {

/// Where the sample of a pixel lies in a row-major buffer.
pub open spec fn pixel_index(width: usize, column: usize, row: usize) -> int {
    row * width + column
}

/// `buffer` holds a raster of the given bounds, and the sample of each
/// pixel `(column, row)` is one that `allowed` admits for it.
pub open spec fn laid_out(
    buffer: Seq<u8>,
    bounds: (usize, usize),
    allowed: spec_fn((usize, usize), u8) -> bool,
) -> bool {
    &&& buffer.len() == bounds.0 * bounds.1
    &&& forall|column: usize, row: usize|
        column < bounds.0 && row < bounds.1 ==> allowed(
            (column, row),
            #[trigger] buffer[pixel_index(bounds.0, column, row)],
        )
}

/// `sample` is a shade that the two functions can give `pixel`: the shade
/// of an escape time, within the budget, of a point that `point_at` maps the
/// pixel to.
pub open spec fn can_show<P, M, E>(
    point_at: M,
    escape_time: E,
    bounds: (usize, usize),
    upper_left: P,
    lower_right: P,
    pixel: (usize, usize),
    sample: u8,
) -> bool where M: Fn((usize, usize), (usize, usize), P, P) -> P, E: Fn(P, usize) -> Option<usize> {
    exists|point: P, escape: Option<usize>|
        #![auto]
        call_ensures(point_at, (bounds, pixel, upper_left, lower_right), point) && call_ensures(
            escape_time,
            (point, ESCAPE_LIMIT),
            escape,
        ) && sample == shade_of(escape)
}

/// The shades that the two functions can give each pixel of a raster.
pub open spec fn shades<P, M, E>(
    point_at: M,
    escape_time: E,
    bounds: (usize, usize),
    upper_left: P,
    lower_right: P,
) -> spec_fn((usize, usize), u8) -> bool where
    M: Fn((usize, usize), (usize, usize), P, P) -> P,
    E: Fn(P, usize) -> Option<usize>,
 {
    |pixel: (usize, usize), sample: u8|
        can_show(point_at, escape_time, bounds, upper_left, lower_right, pixel, sample)
}

/// `buffer` is a rendering of the raster: every pixel has a shade that the
/// two functions can give it.
pub open spec fn renders<P, M, E>(
    buffer: Seq<u8>,
    bounds: (usize, usize),
    upper_left: P,
    lower_right: P,
    point_at: M,
    escape_time: E,
) -> bool where M: Fn((usize, usize), (usize, usize), P, P) -> P, E: Fn(P, usize) -> Option<usize> {
    laid_out(buffer, bounds, shades(point_at, escape_time, bounds, upper_left, lower_right))
}

/// The two functions accept every pixel of the raster: `point_at` can be
/// called for each pixel, and `escape_time` for each point that comes back,
/// at the budget.
pub open spec fn accepts_raster<P, M, E>(
    point_at: M,
    escape_time: E,
    bounds: (usize, usize),
    upper_left: P,
    lower_right: P,
) -> bool where M: Fn((usize, usize), (usize, usize), P, P) -> P, E: Fn(P, usize) -> Option<usize> {
    &&& forall|column: usize, row: usize|
        column < bounds.0 && row < bounds.1 ==> #[trigger] call_requires(
            point_at,
            (bounds, (column, row), upper_left, lower_right),
        )
    &&& forall|column: usize, row: usize, point: P|
        column < bounds.0 && row < bounds.1 && #[trigger] call_ensures(
            point_at,
            (bounds, (column, row), upper_left, lower_right),
            point,
        ) ==> call_requires(escape_time, (point, ESCAPE_LIMIT))
}

/// Two pixels of a raster share an index only if they are the same pixel,
/// and every pixel's index lies within the buffer.
pub proof fn lemma_pixel_index(
    bounds: (usize, usize),
    column: usize,
    row: usize,
    other_column: usize,
    other_row: usize,
)
    requires
        column < bounds.0,
        row < bounds.1,
        other_column < bounds.0,
        other_row < bounds.1,
    ensures
        0 <= pixel_index(bounds.0, column, row) < bounds.0 * bounds.1,
        pixel_index(bounds.0, column, row) == pixel_index(bounds.0, other_column, other_row)
            ==> column == other_column && row == other_row,
{
    let width = bounds.0 as int;
    let height = bounds.1 as int;
    let c = column as int;
    let r = row as int;
    let oc = other_column as int;
    let or = other_row as int;
    assert(0 <= r * width + c < width * height) by (nonlinear_arith)
        requires
            0 <= c < width,
            0 <= r < height,
    ;
    assert(r * width + c == or * width + oc ==> r == or) by (nonlinear_arith)
        requires
            0 <= c < width,
            0 <= oc < width,
    ;
}

/// Every index of the buffer is the index of a pixel: of the pixel in
/// column `index % width` of row `index / width`.
pub proof fn lemma_index_is_a_pixel(bounds: (usize, usize), index: int)
    requires
        0 <= index < bounds.0 * bounds.1,
    ensures
        bounds.0 > 0,
        0 <= index % (bounds.0 as int) < bounds.0,
        0 <= index / (bounds.0 as int) < bounds.1,
        index == pixel_index(
            bounds.0,
            (index % (bounds.0 as int)) as usize,
            (index / (bounds.0 as int)) as usize,
        ),
{
    let width = bounds.0 as int;
    let height = bounds.1 as int;
    assert(width > 0) by (nonlinear_arith)
        requires
            0 <= index < width * height,
            0 <= width,
    ;
    let row = index / width;
    let column = index % width;
    assert(index == row * width + column && 0 <= column < width && 0 <= row < height)
        by (nonlinear_arith)
        requires
            0 <= index < width * height,
            width > 0,
            row == index / width,
            column == index % width,
    ;
}

/// `allowed` admits at most one sample for each pixel.
pub open spec fn single_valued(allowed: spec_fn((usize, usize), u8) -> bool) -> bool {
    forall|pixel: (usize, usize), sample: u8, other: u8|
        #[trigger] allowed(pixel, sample) && #[trigger] allowed(pixel, other) ==> sample == other
}

/// Two buffers laid out with samples that `allowed` admits are equal where
/// each pixel admits one sample only. With the shades of the two functions
/// for `allowed`: a raster has one rendering where each pixel can show one
/// shade only.
pub proof fn lemma_one_layout(
    bounds: (usize, usize),
    allowed: spec_fn((usize, usize), u8) -> bool,
    buffer: Seq<u8>,
    other_buffer: Seq<u8>,
)
    requires
        single_valued(allowed),
        laid_out(buffer, bounds, allowed),
        laid_out(other_buffer, bounds, allowed),
    ensures
        buffer == other_buffer,
{
    assert forall|index: int| 0 <= index < buffer.len() implies buffer[index]
        == other_buffer[index] by {
        lemma_index_is_a_pixel(bounds, index);
        let column = (index % (bounds.0 as int)) as usize;
        let row = (index / (bounds.0 as int)) as usize;
        assert(allowed((column, row), buffer[pixel_index(bounds.0, column, row)]));
        assert(allowed((column, row), other_buffer[pixel_index(bounds.0, column, row)]));
    }
    assert(buffer =~= other_buffer);
}

/// Renders a raster into `pixels`: each pixel, row by row, is mapped to
/// its point, the point is evaluated within the budget, and the shade of
/// the answer is stored at the pixel's index.
pub fn render<P, M, E>(
    pixels: &mut [u8],
    bounds: (usize, usize),
    upper_left: P,
    lower_right: P,
    point_at: &M,
    escape_time: &E,
) where P: Copy, M: Fn((usize, usize), (usize, usize), P, P) -> P, E: Fn(P, usize) -> Option<usize>
    requires
        old(pixels)@.len() == bounds.0 * bounds.1,
        accepts_raster(*point_at, *escape_time, bounds, upper_left, lower_right),
    ensures
        renders(final(pixels)@, bounds, upper_left, lower_right, *point_at, *escape_time),
{
    let ghost allowed = shades(*point_at, *escape_time, bounds, upper_left, lower_right);
    let length: usize = pixels.len();
    let mut row: usize = 0;
    while row < bounds.1
        invariant
            row <= bounds.1,
            pixels@.len() == bounds.0 * bounds.1 == length,
            allowed == shades(*point_at, *escape_time, bounds, upper_left, lower_right),
            accepts_raster(*point_at, *escape_time, bounds, upper_left, lower_right),
            forall|c: usize, r: usize|
                c < bounds.0 && r < row ==> allowed(
                    (c, r),
                    #[trigger] pixels@[pixel_index(bounds.0, c, r)],
                ),
        decreases bounds.1 - row,
    {
        let mut column: usize = 0;
        while column < bounds.0
            invariant
                row < bounds.1,
                column <= bounds.0,
                pixels@.len() == bounds.0 * bounds.1 == length,
                allowed == shades(*point_at, *escape_time, bounds, upper_left, lower_right),
                accepts_raster(*point_at, *escape_time, bounds, upper_left, lower_right),
                forall|c: usize, r: usize|
                    c < bounds.0 && r < row ==> allowed(
                        (c, r),
                        #[trigger] pixels@[pixel_index(bounds.0, c, r)],
                    ),
                forall|c: usize|
                    c < column ==> allowed(
                        (c, row),
                        #[trigger] pixels@[pixel_index(bounds.0, c, row)],
                    ),
            decreases bounds.0 - column,
        {
            let point = point_at(bounds, (column, row), upper_left, lower_right);
            let escape = escape_time(point, ESCAPE_LIMIT);
            proof {
                lemma_pixel_index(bounds, column, row, column, row);
            }
            let index: usize = row * bounds.0 + column;
            let ghost before = pixels@;
            pixels[index] = shade(escape);
            proof {
                assert(allowed((column, row), pixels@[index as int]));
                assert forall|c: usize, r: usize| c < bounds.0 && r < row implies allowed(
                    (c, r),
                    #[trigger] pixels@[pixel_index(bounds.0, c, r)],
                ) by {
                    lemma_pixel_index(bounds, c, r, column, row);
                    assert(pixels@[pixel_index(bounds.0, c, r)] == before[pixel_index(
                        bounds.0,
                        c,
                        r,
                    )]);
                }
                assert forall|c: usize| c < column + 1 implies allowed(
                    (c, row),
                    #[trigger] pixels@[pixel_index(bounds.0, c, row)],
                ) by {
                    lemma_pixel_index(bounds, c, row, column, row);
                    if c < column {
                        assert(pixels@[pixel_index(bounds.0, c, row)] == before[pixel_index(
                            bounds.0,
                            c,
                            row,
                        )]);
                    }
                }
            }
            column += 1;
        }
        row += 1;
    }
}

} // verus!
