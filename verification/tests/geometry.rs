use kineprism::geometry::{contains, horizontal_gap, nearby, padded, union, union_bounds, vertical_overlap};
use kineprism::report::{Bounds, Offset};

fn bounds(x: u32, y: u32, width: u32, height: u32) -> Bounds {
    Bounds { x, y, width, height }
}

#[test]
fn intersection_uses_half_open_edges() {
    let first = Bounds { x: 1, y: 2, width: 4, height: 3 };
    let touching = Bounds { x: 5, y: 2, width: 2, height: 2 };
    assert_eq!(first.intersection(touching), None);
}

#[test]
fn translation_clips_negative_coordinates() {
    let bounds = Bounds { x: 2, y: 2, width: 4, height: 4 };
    assert_eq!(
        bounds.translated_clipped(Offset { x: -4, y: -3 }, 10, 10),
        Some(Bounds { x: 0, y: 0, width: 2, height: 3 })
    );
}

#[test]
fn center_saturates_instead_of_overflowing_for_external_bounds() {
    let bounds = Bounds { x: u32::MAX, y: u32::MAX, width: u32::MAX, height: u32::MAX };
    assert_eq!(bounds.center(), (u32::MAX, u32::MAX));
}

#[test]
fn overlapping_rectangles_intersect_in_their_shared_pixels() {
    assert_eq!(bounds(0, 0, 4, 4).intersection(bounds(2, 1, 4, 4)), Some(bounds(2, 1, 2, 3)));
    assert_eq!(bounds(2, 1, 4, 4).intersection(bounds(0, 0, 4, 4)), Some(bounds(2, 1, 2, 3)));
}

#[test]
fn edges_and_area_saturate() {
    let b = bounds(u32::MAX - 1, 3, 5, 7);
    assert_eq!(b.right(), u32::MAX);
    assert_eq!(b.bottom(), 10);
    assert_eq!(bounds(0, 0, u32::MAX, u32::MAX).area(), (u32::MAX as u64) * (u32::MAX as u64));
    assert_eq!(bounds(3, 4, 10, 6).center(), (8, 7));
}

#[test]
fn shifted_bounds_off_the_canvas_are_none() {
    assert_eq!(bounds(0, 0, 4, 4).translated_clipped(Offset { x: 20, y: 0 }, 10, 10), None);
    assert_eq!(
        bounds(5, 5, 10, 10).translated_clipped(Offset { x: 1, y: 1 }, 10, 10),
        Some(bounds(6, 6, 4, 4))
    );
}

#[test]
fn union_covers_both_rectangles() {
    assert_eq!(union(bounds(1, 2, 3, 4), bounds(10, 0, 2, 2)), bounds(1, 0, 11, 6));
    assert_eq!(union_bounds(&[]), None);
    assert_eq!(
        union_bounds(&[bounds(5, 5, 1, 1), bounds(0, 8, 2, 2), bounds(3, 1, 1, 1)]),
        Some(bounds(0, 1, 6, 9))
    );
    assert!(contains(bounds(0, 0, 10, 10), bounds(2, 2, 8, 8)));
    assert!(!contains(bounds(0, 0, 10, 10), bounds(2, 2, 9, 8)));
}

#[test]
fn padding_is_clipped_to_the_canvas() {
    assert_eq!(padded(bounds(2, 3, 4, 4), 4, 20, 9), bounds(0, 0, 10, 9));
    assert_eq!(padded(bounds(10, 10, 2, 2), 4, 100, 100), bounds(6, 6, 10, 10));
}

#[test]
fn proximity_measures() {
    assert!(nearby(bounds(0, 0, 5, 5), bounds(15, 0, 5, 5), 10));
    assert!(!nearby(bounds(0, 0, 5, 5), bounds(16, 0, 5, 5), 10));
    assert!(vertical_overlap(bounds(0, 0, 5, 5), bounds(50, 4, 5, 5)));
    assert!(!vertical_overlap(bounds(0, 0, 5, 5), bounds(50, 5, 5, 5)));
    assert_eq!(horizontal_gap(bounds(0, 0, 5, 5), bounds(50, 4, 5, 5)), 45);
    assert_eq!(horizontal_gap(bounds(50, 4, 5, 5), bounds(0, 0, 5, 5)), 45);
    assert_eq!(horizontal_gap(bounds(0, 0, 5, 5), bounds(3, 4, 5, 5)), 0);
}
