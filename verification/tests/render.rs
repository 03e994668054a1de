use mandelbrot::escape::escape_time;
use mandelbrot::render::render;
use num::Complex;

fn pixel_to_point(
    bounds: (usize, usize),
    pixel: (usize, usize),
    upper_left: Complex<f64>,
    lower_right: Complex<f64>,
) -> Complex<f64> {
    let (width, height) = (
        lower_right.re - upper_left.re,
        upper_left.im - lower_right.im,
    );
    Complex {
        re: upper_left.re + pixel.0 as f64 * width / bounds.0 as f64,
        im: upper_left.im - pixel.1 as f64 * height / bounds.1 as f64,
    }
}

fn mandelbrot(c: Complex<f64>, limit: usize) -> Option<usize> {
    escape_time(
        c,
        limit,
        Complex { re: 0.0, im: 0.0 },
        &|z: Complex<f64>, c: Complex<f64>| z * z + c,
        &|z: Complex<f64>| z.norm_sqr() > 4.0,
    )
}

fn pixel_itself(
    _bounds: (usize, usize),
    pixel: (usize, usize),
    _upper_left: (usize, usize),
    _lower_right: (usize, usize),
) -> (usize, usize) {
    pixel
}

#[test]
fn render_lays_the_samples_out_row_by_row() {
    let mut pixels = vec![7u8; 6];
    render(
        &mut pixels,
        (3, 2),
        (0, 0),
        (0, 0),
        &pixel_itself,
        &|point: (usize, usize), _limit: usize| Some(point.0 + 10 * point.1),
    );
    assert_eq!(pixels, vec![255, 254, 253, 245, 244, 243]);
}

#[test]
fn render_stores_each_sample_at_row_times_width_plus_column() {
    let (width, height) = (5, 4);
    let mut pixels = vec![0u8; width * height];
    render(
        &mut pixels,
        (width, height),
        (0, 0),
        (0, 0),
        &pixel_itself,
        &|point: (usize, usize), _limit: usize| Some(point.0 + 16 * point.1),
    );
    for row in 0..height {
        for column in 0..width {
            assert_eq!(
                pixels[row * width + column] as usize,
                255 - (column + 16 * row)
            );
        }
    }
}

#[test]
fn render_shows_bounded_points_black() {
    let mut pixels = vec![9u8; 4];
    render(
        &mut pixels,
        (2, 2),
        (0, 0),
        (0, 0),
        &pixel_itself,
        &|point: (usize, usize), _limit: usize| {
            if point.0 == point.1 {
                None
            } else {
                Some(0)
            }
        },
    );
    assert_eq!(pixels, vec![0, 255, 255, 0]);
}

#[test]
fn render_evaluates_every_point_with_a_budget_of_255() {
    let mut pixels = vec![0u8; 3];
    render(
        &mut pixels,
        (3, 1),
        (0, 0),
        (0, 0),
        &pixel_itself,
        &|_point: (usize, usize), limit: usize| Some(limit - 250),
    );
    assert_eq!(pixels, vec![250, 250, 250]);
}

#[test]
fn render_hands_the_bounds_and_the_corners_to_the_mapper() {
    let mut pixels = vec![0u8; 2];
    render(
        &mut pixels,
        (1, 2),
        30usize,
        4usize,
        &|bounds: (usize, usize), pixel: (usize, usize), upper_left: usize, lower_right: usize| {
            100 * bounds.0 + 50 * bounds.1 + upper_left - lower_right + 2 * pixel.0 + pixel.1
        },
        &|point: usize, _limit: usize| Some(point),
    );
    assert_eq!(pixels, vec![255 - 226, 255 - 227]);
}

#[test]
fn render_of_an_empty_raster_calls_nothing() {
    let never = |_bounds: (usize, usize), _pixel: (usize, usize), _a: u8, _b: u8| -> u8 {
        panic!("no pixel to map")
    };
    let neither = |_point: u8, _limit: usize| -> Option<usize> { panic!("no point") };
    let mut pixels: Vec<u8> = Vec::new();
    render(&mut pixels, (0, 0), 0, 0, &never, &neither);
    render(&mut pixels, (0, 5), 0, 0, &never, &neither);
    render(&mut pixels, (5, 0), 0, 0, &never, &neither);
    assert!(pixels.is_empty());
}

#[test]
fn render_of_the_mandelbrot_set_matches_the_reference_raster() {
    let expected: Vec<u8> = vec![
        254, 254, 253, 253, 252, 252, 252, 252, 252, 251, 251, 250, 248, 244, 251, 251, 252, 253, 253, 253,
        254, 254, 253, 252, 252, 252, 252, 252, 251, 251, 251, 250, 246, 244, 250, 251, 252, 252, 253, 253,
        254, 254, 252, 252, 252, 252, 252, 252, 251, 251, 250, 248, 0, 0, 249, 250, 251, 252, 252, 253,
        254, 253, 252, 252, 252, 252, 252, 251, 251, 249, 247, 246, 0, 0, 246, 249, 250, 252, 252, 253,
        254, 253, 252, 252, 252, 252, 251, 250, 250, 248, 0, 0, 0, 0, 0, 241, 240, 252, 252, 253,
        254, 252, 252, 252, 252, 251, 250, 250, 249, 241, 0, 0, 0, 0, 0, 0, 248, 251, 252, 252,
        254, 252, 252, 251, 250, 243, 248, 248, 248, 235, 0, 0, 0, 0, 0, 0, 246, 251, 252, 252,
        254, 252, 251, 251, 250, 245, 243, 242, 246, 0, 0, 0, 0, 0, 0, 0, 240, 251, 252, 252,
        254, 251, 251, 250, 249, 244, 0, 0, 240, 0, 0, 0, 0, 0, 0, 0, 224, 251, 252, 252,
        254, 251, 249, 249, 243, 233, 0, 0, 0, 0, 0, 0, 0, 0, 0, 0, 247, 251, 252, 252,
        0, 0, 0, 0, 0, 0, 0, 0, 0, 0, 0, 0, 0, 0, 0, 0, 248, 251, 252, 252,
        254, 251, 249, 249, 243, 233, 0, 0, 0, 0, 0, 0, 0, 0, 0, 0, 247, 251, 252, 252,
        254, 251, 251, 250, 249, 244, 0, 0, 240, 0, 0, 0, 0, 0, 0, 0, 224, 251, 252, 252,
        254, 252, 251, 251, 250, 245, 243, 242, 246, 0, 0, 0, 0, 0, 0, 0, 240, 251, 252, 252,
        254, 252, 252, 251, 250, 243, 248, 248, 248, 235, 0, 0, 0, 0, 0, 0, 246, 251, 252, 252,
        254, 252, 252, 252, 252, 251, 250, 250, 249, 241, 0, 0, 0, 0, 0, 0, 248, 251, 252, 252,
        254, 253, 252, 252, 252, 252, 251, 250, 250, 248, 0, 0, 0, 0, 0, 241, 240, 252, 252, 253,
        254, 253, 252, 252, 252, 252, 252, 251, 251, 249, 247, 246, 0, 0, 246, 249, 250, 252, 252, 253,
        254, 254, 252, 252, 252, 252, 252, 252, 251, 251, 250, 248, 0, 0, 249, 250, 251, 252, 252, 253,
        254, 254, 253, 252, 252, 252, 252, 252, 251, 251, 251, 250, 246, 244, 250, 251, 252, 252, 253, 253,
    ];
    let mut pixels = vec![0u8; 400];
    render(
        &mut pixels,
        (20, 20),
        Complex { re: -2.0, im: 1.0 },
        Complex { re: 1.0, im: -1.0 },
        &pixel_to_point,
        &mandelbrot,
    );
    assert_eq!(pixels, expected);
}

#[test]
fn render_gives_the_same_raster_every_time() {
    let mut first = vec![0u8; 35];
    let mut second = vec![255u8; 35];
    for pixels in [&mut first, &mut second] {
        render(
            pixels,
            (7, 5),
            Complex { re: -1.2, im: 0.35 },
            Complex { re: -1.0, im: 0.2 },
            &pixel_to_point,
            &mandelbrot,
        );
    }
    assert_eq!(first, second);
}
