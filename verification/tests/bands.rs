use mandelbrot::bands::{partition_rows, rows_per_band, Band};

fn rows_covered(bands: &[Band], height: usize) -> Vec<usize> {
    let mut hits = vec![0usize; height];
    for band in bands {
        for row in band.top..band.top + band.height {
            hits[row] += 1;
        }
    }
    hits
}

#[test]
fn rows_per_band_rounds_up() {
    assert_eq!(rows_per_band(750, 4), 188);
    assert_eq!(rows_per_band(8, 4), 2);
    assert_eq!(rows_per_band(9, 4), 3);
    assert_eq!(rows_per_band(1, 1), 1);
    assert_eq!(rows_per_band(1, 8), 1);
    assert_eq!(rows_per_band(5, 1), 5);
    assert_eq!(rows_per_band(usize::MAX, 1), usize::MAX);
    assert_eq!(rows_per_band(usize::MAX, 2), usize::MAX / 2 + 1);
}

#[test]
fn partition_rows_of_the_default_image() {
    let bands = partition_rows(750, 4);
    assert_eq!(
        bands,
        vec![
            Band { top: 0, height: 188 },
            Band { top: 188, height: 188 },
            Band { top: 376, height: 188 },
            Band { top: 564, height: 186 },
        ]
    );
}

#[test]
fn partition_rows_divides_evenly() {
    let bands = partition_rows(8, 4);
    assert_eq!(
        bands,
        vec![
            Band { top: 0, height: 2 },
            Band { top: 2, height: 2 },
            Band { top: 4, height: 2 },
            Band { top: 6, height: 2 },
        ]
    );
}

#[test]
fn partition_rows_may_need_fewer_bands_than_workers() {
    assert_eq!(
        partition_rows(5, 4),
        vec![
            Band { top: 0, height: 2 },
            Band { top: 2, height: 2 },
            Band { top: 4, height: 1 },
        ]
    );
    assert_eq!(partition_rows(1, 4), vec![Band { top: 0, height: 1 }]);
    assert_eq!(
        partition_rows(3, 8),
        vec![
            Band { top: 0, height: 1 },
            Band { top: 1, height: 1 },
            Band { top: 2, height: 1 },
        ]
    );
}

#[test]
fn partition_rows_with_one_worker_is_one_band() {
    assert_eq!(partition_rows(750, 1), vec![Band { top: 0, height: 750 }]);
}

#[test]
fn every_row_lies_in_exactly_one_band() {
    for height in 1..40usize {
        for workers in 1..12usize {
            let bands = partition_rows(height, workers);
            assert!(!bands.is_empty());
            assert!(bands.len() <= workers);
            assert_eq!(rows_covered(&bands, height), vec![1usize; height]);
            let rows = rows_per_band(height, workers);
            for (index, band) in bands.iter().enumerate() {
                assert_eq!(band.top, index * rows);
                assert!(band.height >= 1);
                if index + 1 < bands.len() {
                    assert_eq!(band.height, rows);
                } else {
                    assert_eq!(band.top + band.height, height);
                }
            }
        }
    }
}
