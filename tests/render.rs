use raytracer::{image_row, is_ci, row_band};

#[test]
fn ci_flag_true_only_for_true() {
    assert!(is_ci(Some("true")));
    assert!(!is_ci(Some("false")));
    assert!(!is_ci(Some("TRUE")));
    assert!(!is_ci(Some("true ")));
    assert!(!is_ci(Some("")));
    assert!(!is_ci(None));
}

#[test]
fn bands_of_even_split() {
    assert_eq!(row_band(900, 10, 0), (0, 90));
    assert_eq!(row_band(900, 10, 4), (360, 450));
    assert_eq!(row_band(900, 10, 9), (810, 900));
}

#[test]
fn bands_of_uneven_split() {
    assert_eq!(row_band(10, 3, 0), (0, 3));
    assert_eq!(row_band(10, 3, 1), (3, 6));
    assert_eq!(row_band(10, 3, 2), (6, 10));
}

#[test]
fn bands_tile_the_image() {
    for height in 0..40usize {
        for jobs in 1..12usize {
            let mut covered = vec![0u32; height];
            let mut next = 0;
            for c in 0..jobs {
                let (start, end) = row_band(height, jobs, c);
                assert_eq!(start, next);
                assert!(start <= end);
                for row in start..end {
                    covered[row] += 1;
                }
                next = end;
            }
            assert_eq!(next, height);
            assert!(covered.iter().all(|&n| n == 1));
        }
    }
}

#[test]
fn more_workers_than_rows() {
    assert_eq!(row_band(2, 5, 0), (0, 0));
    assert_eq!(row_band(2, 5, 2), (0, 1));
    assert_eq!(row_band(2, 5, 4), (1, 2));
}

#[test]
fn scanlines_flip_into_image_rows() {
    assert_eq!(image_row(900, 0), 899);
    assert_eq!(image_row(900, 899), 0);
    assert_eq!(image_row(1, 0), 0);
}

#[test]
fn bands_differ_by_at_most_one_row() {
    for height in 0..50usize {
        for jobs in 1..13usize {
            for c in 0..jobs {
                let (start, end) = row_band(height, jobs, c);
                let rows = end - start;
                assert!(rows == height / jobs || rows == height / jobs + 1);
            }
        }
    }
}
