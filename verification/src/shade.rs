//! From an escape time to a grayscale sample.

use vstd::prelude::*;

verus! {

/// The budget that every point of a raster is evaluated with.
pub const ESCAPE_LIMIT: usize = 255;

/// The sample for one pixel: black for a point that stayed bounded, and
/// otherwise white less one level for each step that the point took to
/// escape, down to black.
pub open spec fn shade_of(escape: Option<usize>) -> u8 {
    match escape {
        None => 0u8,
        Some(count) => if count >= 255 {
            0u8
        } else {
            (255 - count) as u8
        },
    }
}

/// Computes `shade_of`.
pub fn shade(escape: Option<usize>) -> (sample: u8)
    ensures
        sample == shade_of(escape),
{
    match escape {
        None => 0,
        Some(count) => if count >= 255 {
            0
        } else {
            (255 - count) as u8
        },
    }
}

/// Within the budget the shade tells the escape time: an escape after
/// `count` steps shows as `255 - count`, which is not black, so that black
/// is left to the points that stayed bounded.
pub proof fn lemma_shade_within_the_budget(escape: Option<usize>)
    requires
        escape matches Some(count) ==> count < ESCAPE_LIMIT,
    ensures
        escape matches Some(count) ==> shade_of(escape) == 255 - count,
        shade_of(escape) == 0 <==> escape is None,
{
}

} // verus!
