use mandelbrot::parse::{both, complex_from_pair, parse_complex, parse_pair, split_pair};
use num::Complex;

#[test]
fn test_parse_pair() {
    assert_eq!(parse_pair::<i32>("", ','), None);
    assert_eq!(parse_pair::<i32>("10,", ','), None);
    assert_eq!(parse_pair::<i32>(",10", ','), None);
    assert_eq!(parse_pair::<i32>("10,20", ','), Some((10, 20)));
    assert_eq!(parse_pair::<i32>("10,20xy", ','), None);
    assert_eq!(parse_pair::<f64>("0.5x", 'x'), None);
    assert_eq!(parse_pair::<f64>("0.5x1.5", 'x'), Some((0.5, 1.5)));
}

#[test]
fn test_parse_complex() {
    assert_eq!(
        parse_complex("1.25,-0.0625"),
        Some(Complex {
            re: 1.25,
            im: -0.0625
        })
    );
    assert_eq!(parse_complex::<f64>(",-0.0625"), None);
}

#[test]
fn parse_pair_reads_raster_dimensions() {
    assert_eq!(parse_pair::<usize>("400x600", 'x'), Some((400, 600)));
    assert_eq!(parse_pair::<usize>("400x", 'x'), None);
    assert_eq!(parse_pair::<usize>(",10", ','), None);
}

#[test]
fn parse_pair_hands_each_token_to_its_type() {
    assert_eq!(
        parse_pair::<String>("left=right", '='),
        Some(("left".to_string(), "right".to_string()))
    );
    assert_eq!(parse_pair::<i32>("-7, 3", ','), None);
    assert_eq!(parse_pair::<i32>("-7,+3", ','), Some((-7, 3)));
    assert_eq!(parse_pair::<usize>("400x600", ','), None);
}

#[test]
fn parse_pair_cuts_at_the_first_separator_only() {
    assert_eq!(parse_pair::<i32>("1,2,3", ','), None);
    assert_eq!(
        parse_pair::<String>("1,2,3", ','),
        Some(("1".to_string(), "2,3".to_string()))
    );
}

#[test]
fn split_pair_leaves_the_separator_out() {
    assert_eq!(split_pair("400x600", 'x'), Some(("400", "600")));
    assert_eq!(split_pair("x", 'x'), Some(("", "")));
    assert_eq!(split_pair("axbxc", 'x'), Some(("a", "bxc")));
    assert_eq!(split_pair("", 'x'), None);
    assert_eq!(split_pair("400,600", 'x'), None);
}

#[test]
fn split_pair_counts_characters_not_bytes() {
    assert_eq!(split_pair("é→ü", '→'), Some(("é", "ü")));
    assert_eq!(split_pair("日本,語", ','), Some(("日本", "語")));
}

#[test]
fn both_needs_both() {
    assert_eq!(both(Some(1), Some(2)), Some((1, 2)));
    assert_eq!(both(Some(1), None), None);
    assert_eq!(both(None, Some(2)), None);
    assert_eq!(both::<u8>(None, None), None);
}

#[test]
fn complex_from_pair_puts_the_real_part_first() {
    assert_eq!(
        complex_from_pair(Some((3, 4))),
        Some(Complex { re: 3, im: 4 })
    );
    assert_eq!(complex_from_pair::<i32>(None), None);
}

#[test]
fn parse_complex_wants_a_comma() {
    assert_eq!(parse_complex::<f64>("1.25x-0.0625"), None);
    assert_eq!(parse_complex::<f64>("1.25"), None);
    assert_eq!(
        parse_complex::<i64>("-1,2"),
        Some(Complex { re: -1, im: 2 })
    );
}
