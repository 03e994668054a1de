use mandelbrot::shade::{shade, ESCAPE_LIMIT};

#[test]
fn shade_of_a_bounded_point_is_black() {
    assert_eq!(shade(None), 0);
}

#[test]
fn shade_counts_down_from_white() {
    assert_eq!(shade(Some(0)), 255);
    assert_eq!(shade(Some(1)), 254);
    assert_eq!(shade(Some(13)), 242);
    assert_eq!(shade(Some(254)), 1);
}

#[test]
fn shade_stays_within_a_byte() {
    assert_eq!(shade(Some(255)), 0);
    assert_eq!(shade(Some(256)), 0);
    assert_eq!(shade(Some(511)), 0);
    assert_eq!(shade(Some(usize::MAX)), 0);
}

#[test]
fn escape_limit_is_one_byte_of_shades() {
    assert_eq!(ESCAPE_LIMIT, 255);
    for count in 0..ESCAPE_LIMIT {
        assert_eq!(shade(Some(count)) as usize, 255 - count);
    }
}
