use kineprism::alignment::{level_scale, offset_distance, offset_limits, offset_magnitude, overlap_bounds};
use kineprism::metrics::{gaussian_index, window_centers};
use kineprism::report::{Bounds, ImageDimensions, Offset};

#[test]
fn ssim_centers_use_only_full_windows_when_the_dimension_is_large_enough() {
    assert_eq!(window_centers(10), vec![5]);
    assert_eq!(window_centers(11), vec![5]);
    assert_eq!(window_centers(12), vec![5, 6]);
    assert_eq!(window_centers(16), vec![5, 10]);
    assert_eq!(window_centers(22), vec![5, 13, 16]);
}

#[test]
fn window_centers_of_long_axes_end_with_the_last_full_window() {
    assert_eq!(window_centers(29), vec![5, 13, 21, 23]);
    assert_eq!(window_centers(27), vec![5, 13, 21]);
    assert_eq!(window_centers(0), vec![0]);
}

#[test]
fn gaussian_table_is_row_major() {
    assert_eq!(gaussian_index(-5, -5), 0);
    assert_eq!(gaussian_index(0, 0), 60);
    assert_eq!(gaussian_index(5, 5), 120);
}

#[test]
fn offsets_have_manhattan_sizes() {
    assert_eq!(offset_magnitude(Offset { x: -3, y: 4 }), 7);
    assert_eq!(offset_magnitude(Offset { x: i32::MIN, y: 0 }), 2_147_483_648);
    assert_eq!(offset_distance(Offset { x: 1, y: 1 }, Offset { x: -2, y: 5 }), 7);
    assert_eq!(level_scale(0), 1);
    assert_eq!(level_scale(3), 8);
}

#[test]
fn search_limits_and_overlaps_follow_the_canvases() {
    let small = ImageDimensions { width: 10, height: 4 };
    let large = ImageDimensions { width: 30, height: 2 };
    assert_eq!(offset_limits(small, large, 128), (29, 3));
    assert_eq!(offset_limits(small, large, 7), (7, 3));
    assert_eq!(
        overlap_bounds(small, large, Offset { x: 5, y: -1 }),
        Some(Bounds { x: 0, y: 1, width: 10, height: 2 })
    );
    assert_eq!(overlap_bounds(small, large, Offset { x: 40, y: 0 }), None);
}
