use mandelbrot::escape::escape_time;
use num::Complex;

fn step(z: Complex<f64>, c: Complex<f64>) -> Complex<f64> {
    z * z + c
}

fn outside(z: Complex<f64>) -> bool {
    z.norm_sqr() > 4.0
}

fn mandelbrot(re: f64, im: f64, limit: usize) -> Option<usize> {
    escape_time(
        Complex { re, im },
        limit,
        Complex { re: 0.0, im: 0.0 },
        &step,
        &outside,
    )
}

#[test]
fn escape_time_of_the_origin_is_none_for_any_limit() {
    for limit in [1, 2, 10, 255, 10_000] {
        assert_eq!(mandelbrot(0.0, 0.0, limit), None);
    }
}

#[test]
fn escape_time_counts_the_steps_before_the_test_that_fails() {
    assert_eq!(mandelbrot(1.0, 0.0, 255), Some(3));
    assert_eq!(mandelbrot(0.5, 0.5, 255), Some(5));
    assert_eq!(mandelbrot(-0.75, 0.25, 255), Some(13));
}

#[test]
fn escape_time_of_a_point_far_out_is_one() {
    assert_eq!(mandelbrot(2.0, 2.0, 255), Some(1));
    assert_eq!(mandelbrot(3.0, 0.0, 255), Some(1));
    assert_eq!(mandelbrot(0.0, -2.5, 2), Some(1));
    assert_eq!(mandelbrot(-1e10, 1e10, 255), Some(1));
}

#[test]
fn escape_time_never_tests_more_than_the_limit() {
    assert_eq!(mandelbrot(3.0, 0.0, 0), None);
    assert_eq!(mandelbrot(3.0, 0.0, 1), None);
    assert_eq!(mandelbrot(1.0, 0.0, 3), None);
    assert_eq!(mandelbrot(1.0, 0.0, 4), Some(3));
    assert_eq!(mandelbrot(-0.75, 0.25, 13), None);
    assert_eq!(mandelbrot(-0.75, 0.25, 14), Some(13));
}

#[test]
fn escape_time_of_points_that_stay_bounded_is_none() {
    assert_eq!(mandelbrot(-1.0, 0.0, 255), None);
    assert_eq!(mandelbrot(0.25, 0.5, 255), None);
    assert_eq!(mandelbrot(0.3, 0.5, 255), None);
    assert_eq!(mandelbrot(-2.0, 0.0, 255), None);
}

#[test]
fn escape_time_is_the_same_on_every_call() {
    for (re, im) in [(0.0, 0.0), (1.0, 0.0), (-0.75, 0.25), (0.3, 0.5)] {
        for limit in [0, 1, 5, 255] {
            assert_eq!(mandelbrot(re, im, limit), mandelbrot(re, im, limit));
        }
    }
}

#[test]
fn escape_time_found_within_a_budget_is_found_within_a_larger_one() {
    for (re, im) in [(1.0, 0.0), (0.5, 0.5), (-0.75, 0.25), (3.0, 0.0)] {
        let found = mandelbrot(re, im, 255);
        assert!(found.is_some());
        for limit in [256, 1000] {
            assert_eq!(mandelbrot(re, im, limit), found);
        }
    }
}

#[test]
fn escape_time_on_an_integer_line() {
    let step = |z: u64, c: u64| z + c;
    let outside = |z: u64| z > 10;
    assert_eq!(escape_time(3, 255, 0, &step, &outside), Some(4));
    assert_eq!(escape_time(6, 255, 0, &step, &outside), Some(2));
    assert_eq!(escape_time(11, 255, 0, &step, &outside), Some(1));
    assert_eq!(escape_time(0, 255, 0, &step, &outside), None);
    assert_eq!(escape_time(3, 4, 0, &step, &outside), None);
    assert_eq!(escape_time(3, 255, 11, &step, &outside), Some(0));
}
