use dithord::{DitherError, LumaGrid};

#[test]
fn grid_holds_what_it_was_given() {
    let grid = LumaGrid::new(3, 2, 9, vec![0, 1, 2, 3, 4, 9]).unwrap();
    assert_eq!(grid.width(), 3);
    assert_eq!(grid.height(), 2);
    assert_eq!(grid.scale(), 9);
    assert_eq!(grid.samples(), &vec![0, 1, 2, 3, 4, 9]);
}

#[test]
fn grid_is_row_major() {
    let grid = LumaGrid::new(3, 2, 9, vec![0, 1, 2, 3, 4, 9]).unwrap();
    assert_eq!(grid.get(0, 0), Some(0));
    assert_eq!(grid.get(2, 0), Some(2));
    assert_eq!(grid.get(0, 1), Some(3));
    assert_eq!(grid.get(2, 1), Some(9));
}

#[test]
fn grid_has_no_pixel_outside() {
    let grid = LumaGrid::new(3, 2, 9, vec![0, 1, 2, 3, 4, 9]).unwrap();
    assert_eq!(grid.get(3, 0), None);
    assert_eq!(grid.get(0, 2), None);
    assert_eq!(grid.get(3, 2), None);
    assert_eq!(grid.get(usize::MAX, usize::MAX), None);
}

#[test]
fn grid_refuses_a_wrong_sample_count() {
    assert_eq!(
        LumaGrid::new(3, 2, 9, vec![0, 1, 2, 3, 4]).err(),
        Some(DitherError::DimensionMismatch)
    );
    assert_eq!(
        LumaGrid::new(3, 2, 9, vec![0; 7]).err(),
        Some(DitherError::DimensionMismatch)
    );
    assert_eq!(
        LumaGrid::new(0, 2, 9, vec![0]).err(),
        Some(DitherError::DimensionMismatch)
    );
}

#[test]
fn grid_refuses_dimensions_beyond_the_machine() {
    assert_eq!(
        LumaGrid::new(usize::MAX, 2, 9, vec![]).err(),
        Some(DitherError::DimensionMismatch)
    );
    assert_eq!(
        LumaGrid::new(usize::MAX, usize::MAX, 9, vec![1]).err(),
        Some(DitherError::DimensionMismatch)
    );
}

#[test]
fn grid_refuses_a_zero_scale() {
    assert_eq!(
        LumaGrid::new(1, 1, 0, vec![0]).err(),
        Some(DitherError::InvalidParameter)
    );
    assert_eq!(
        LumaGrid::new(0, 0, 0, vec![]).err(),
        Some(DitherError::InvalidParameter)
    );
}

#[test]
fn grid_refuses_a_sample_above_the_scale() {
    assert_eq!(
        LumaGrid::new(2, 2, 9, vec![0, 9, 10, 3]).err(),
        Some(DitherError::InvalidParameter)
    );
    assert_eq!(
        LumaGrid::new(1, 1, 1, vec![u32::MAX]).err(),
        Some(DitherError::InvalidParameter)
    );
}

#[test]
fn grid_reports_the_count_before_the_values() {
    assert_eq!(
        LumaGrid::new(2, 2, 0, vec![5]).err(),
        Some(DitherError::DimensionMismatch)
    );
}

#[test]
fn grid_accepts_the_full_range_of_samples() {
    let grid = LumaGrid::new(2, 1, u32::MAX, vec![0, u32::MAX]).unwrap();
    assert_eq!(grid.get(1, 0), Some(u32::MAX));
}
