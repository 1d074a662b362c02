use raytracer::grid::{pixel_count, scan_grid, ViewError};

#[test]
fn pixel_count_of_usable_grid() {
    assert_eq!(pixel_count(2, 2), Ok(4));
    assert_eq!(pixel_count(1500, 1000), Ok(1_500_000));
}

#[test]
fn pixel_count_rejects_single_column() {
    assert_eq!(pixel_count(1, 10), Err(ViewError::TooNarrow));
    assert_eq!(pixel_count(0, 0), Err(ViewError::TooNarrow));
}

#[test]
fn pixel_count_rejects_single_row() {
    assert_eq!(pixel_count(10, 1), Err(ViewError::TooShort));
    assert_eq!(pixel_count(10, 0), Err(ViewError::TooShort));
}

#[test]
fn scan_grid_walks_rows_and_columns() {
    // a direction stands for (horizontal steps, vertical steps) taken so far
    let next_col = |d: (i64, i64)| (d.0 + 1, d.1);
    let next_row = |d: (i64, i64)| (d.0, d.1 + 1);
    let v = scan_grid((0i64, 0i64), 3, 2, &next_col, &next_row).unwrap();
    assert_eq!(
        v,
        vec![
            (0, 0, (0, 0)),
            (1, 0, (1, 0)),
            (2, 0, (2, 0)),
            (0, 1, (0, 1)),
            (1, 1, (1, 1)),
            (2, 1, (2, 1)),
        ]
    );
}

#[test]
fn scan_grid_restarts_each_row_from_row_start() {
    // the row step is applied to the first pixel of the row above, not to
    // the last pixel of that row
    let next_col = |d: u64| d * 10;
    let next_row = |d: u64| d + 1;
    let v = scan_grid(1u64, 2, 3, &next_col, &next_row).unwrap();
    let dirs: Vec<u64> = v.iter().map(|p| p.2).collect();
    assert_eq!(dirs, vec![1, 10, 2, 20, 3, 30]);
}

#[test]
fn scan_grid_rejects_degenerate_grid() {
    let step = |d: u8| d;
    assert_eq!(scan_grid(0u8, 1, 5, &step, &step), Err(ViewError::TooNarrow));
    assert_eq!(scan_grid(0u8, 5, 1, &step, &step), Err(ViewError::TooShort));
}
