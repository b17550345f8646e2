use kineprism::mask::Mask;
use kineprism::report::Bounds;

#[test]
fn components_use_eight_neighbor_connectivity_and_scan_order() {
    let mut mask = Mask::try_new(5, 4).expect("mask");
    mask.set(3, 0, true);
    mask.set(0, 1, true);
    mask.set(1, 2, true);

    let components = mask.components(1).expect("components");

    assert_eq!(components.len(), 2);
    assert_eq!(components[0].bounds.x, 3);
    assert_eq!(components[1].area, 2);
    assert_eq!(components[1].bounds.width, 2);
    assert_eq!(components[1].bounds.height, 2);
}

#[test]
fn components_below_the_minimum_area_are_filtered() {
    let mut mask = Mask::try_new(2, 1).expect("mask");
    mask.set(0, 0, true);
    assert!(mask.components(2).expect("components").is_empty());
}

#[test]
fn components_report_tight_bounds_and_areas() {
    let mut mask = Mask::try_new(6, 5).expect("mask");
    for (x, y) in [(1, 1), (2, 1), (3, 2), (3, 3), (5, 4)] {
        mask.set(x, y, true);
    }
    let components = mask.components(1).expect("components");
    assert_eq!(components.len(), 2);
    assert_eq!(components[0].bounds, Bounds { x: 1, y: 1, width: 3, height: 3 });
    assert_eq!(components[0].area, 4);
    assert_eq!(components[1].bounds, Bounds { x: 5, y: 4, width: 1, height: 1 });
    assert_eq!(components[1].area, 1);
}

#[test]
fn empty_masks_have_no_components() {
    let mask = Mask::try_new(0, 7).expect("mask");
    assert_eq!(mask.width(), 0);
    assert_eq!(mask.height(), 7);
    assert!(mask.components(1).expect("components").is_empty());
}
