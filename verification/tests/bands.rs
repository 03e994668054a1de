use mandelbrot::bands::{bands_of_size, partition, rows_per_band, Band};

fn rows_of(band: &Band) -> std::ops::Range<usize> {
    band.top..band.top + band.height
}

fn assert_covers_rows_once(bands: &[Band], height: usize) {
    let mut seen = vec![0usize; height];
    for band in bands {
        assert!(band.height >= 1);
        for row in rows_of(band) {
            assert!(row < height);
            seen[row] += 1;
        }
    }
    assert!(seen.iter().all(|&count| count == 1));
}

#[test]
fn rows_per_band_rounds_up() {
    assert_eq!(rows_per_band(10, 4), 3);
    assert_eq!(rows_per_band(750, 8), 94);
    assert_eq!(rows_per_band(7, 7), 1);
    assert_eq!(rows_per_band(3, 8), 1);
    assert_eq!(rows_per_band(1, 1), 1);
}

#[test]
fn rows_per_band_is_exact_where_the_workers_divide_the_height() {
    assert_eq!(rows_per_band(8, 4), 2);
    assert_eq!(rows_per_band(600, 6), 100);
    assert_eq!(rows_per_band(0, 5), 0);
    assert_eq!(rows_per_band(usize::MAX, 1), usize::MAX);
    assert_eq!(rows_per_band(usize::MAX, usize::MAX), 1);
}

#[test]
fn partition_gives_the_last_band_the_rows_that_are_left() {
    assert_eq!(
        partition(10, 4),
        vec![
            Band { top: 0, height: 3 },
            Band { top: 3, height: 3 },
            Band { top: 6, height: 3 },
            Band { top: 9, height: 1 },
        ]
    );
    assert_eq!(
        partition(10, 3),
        vec![
            Band { top: 0, height: 4 },
            Band { top: 4, height: 4 },
            Band { top: 8, height: 2 },
        ]
    );
}

#[test]
fn partition_gives_equal_bands_where_the_workers_divide_the_height() {
    assert_eq!(
        partition(8, 4),
        vec![
            Band { top: 0, height: 2 },
            Band { top: 2, height: 2 },
            Band { top: 4, height: 2 },
            Band { top: 6, height: 2 },
        ]
    );
    assert_eq!(partition(5, 1), vec![Band { top: 0, height: 5 }]);
}

#[test]
fn partition_of_few_rows_leaves_workers_idle() {
    assert_eq!(
        partition(3, 8),
        vec![
            Band { top: 0, height: 1 },
            Band { top: 1, height: 1 },
            Band { top: 2, height: 1 },
        ]
    );
    assert_eq!(partition(9, 6).len(), 5);
    assert!(partition(0, 4).is_empty());
}

#[test]
fn partition_covers_every_row_once() {
    for height in 0..60 {
        for workers in 1..70 {
            let bands = partition(height, workers);
            assert_covers_rows_once(&bands, height);
            assert!(bands.len() <= workers);
        }
    }
}

#[test]
fn partition_bands_follow_one_another() {
    for (height, workers) in [(200, 7), (200, 8), (1, 3), (97, 96), (97, 98)] {
        let bands = partition(height, workers);
        let rows = rows_per_band(height, workers);
        let mut top = 0;
        for (i, band) in bands.iter().enumerate() {
            assert_eq!(band.top, top);
            assert_eq!(band.top, i * rows);
            if i + 1 < bands.len() {
                assert_eq!(band.height, rows);
            }
            top += band.height;
        }
        assert_eq!(top, height);
    }
}

#[test]
fn bands_of_size_cuts_at_multiples_of_the_size() {
    assert_eq!(
        bands_of_size(7, 3),
        vec![
            Band { top: 0, height: 3 },
            Band { top: 3, height: 3 },
            Band { top: 6, height: 1 },
        ]
    );
    assert_eq!(bands_of_size(6, 3).len(), 2);
    assert_eq!(bands_of_size(2, 5), vec![Band { top: 0, height: 2 }]);
    assert!(bands_of_size(0, 5).is_empty());
}

#[test]
fn bands_of_size_covers_every_row_once() {
    for height in 0..50 {
        for size in 1..55 {
            assert_covers_rows_once(&bands_of_size(height, size), height);
        }
    }
}

#[test]
fn bands_of_size_zero_cuts_no_band() {
    assert!(bands_of_size(7, 0).is_empty());
    assert!(bands_of_size(0, 0).is_empty());
}
