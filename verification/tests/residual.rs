use kineprism::mapping::MovementMapping;
use kineprism::mask::{Component, Mask};
use kineprism::report::{Bounds, ImageDimensions, Offset};
use kineprism::residual::{
    append_unhandled, movement_border_suppression, residual_message, reversed, significant_pair,
    suppression_area, suppression_radius, unmatched_canvas_bounds, ResidualRegion,
};

fn movement(bounds: Bounds, offset: Offset) -> MovementMapping {
    MovementMapping { bounds, offset, order: 0 }
}

fn fill(mask: &mut Mask, bounds: Bounds) {
    for y in bounds.y..bounds.y + bounds.height {
        for x in bounds.x..bounds.x + bounds.width {
            mask.set(x, y, true);
        }
    }
}

#[test]
fn suppression_limits_scale_with_movement_area() {
    let small = Bounds { x: 0, y: 0, width: 64, height: 64 };
    let large = Bounds { x: 0, y: 0, width: 1024, height: 512 };

    assert_eq!(suppression_radius(small), 1);
    assert_eq!(suppression_area(small), 16);
    assert_eq!(suppression_radius(large), 6);
    assert_eq!(suppression_area(large), 1024);
    assert_eq!(suppression_radius(Bounds { x: 0, y: 0, width: 129, height: 128 }), 2);
    assert_eq!(suppression_radius(Bounds { x: 0, y: 0, width: 128, height: 128 }), 1);
    assert_eq!(suppression_radius(Bounds { x: 0, y: 0, width: 0, height: 5 }), 1);
    assert_eq!(suppression_radius(Bounds { x: 0, y: 0, width: u32::MAX, height: u32::MAX }), 8);
}

#[test]
fn suppression_requires_one_unambiguous_bordering_movement_and_a_small_component() {
    let expected = ImageDimensions { width: 900, height: 400 };
    let actual = ImageDimensions { width: 900, height: 400 };
    let primary = movement(Bounds { x: 20, y: 20, width: 256, height: 128 }, Offset { x: 300, y: 0 });
    let fringe = Component { bounds: Bounds { x: 18, y: 40, width: 1, height: 20 }, area: 20 };

    assert!(movement_border_suppression(&fringe, true, &[primary], Offset { x: 0, y: 0 }, expected, actual));

    let too_large = Component { area: 65, ..fringe };
    assert!(!movement_border_suppression(&too_large, true, &[primary], Offset { x: 0, y: 0 }, expected, actual));

    let outside_halo = Component { bounds: Bounds { x: 17, ..fringe.bounds }, ..fringe };
    assert!(!movement_border_suppression(&outside_halo, true, &[primary], Offset { x: 0, y: 0 }, expected, actual));

    let adjacent = movement(Bounds { x: 15, y: 20, width: 3, height: 128 }, Offset { x: 300, y: 0 });
    assert!(!movement_border_suppression(
        &fringe,
        true,
        &[primary, adjacent],
        Offset { x: 0, y: 0 },
        expected,
        actual
    ));
}

#[test]
fn residual_analysis_defers_border_fringes_but_keeps_distant_changes() {
    let expected_bounds = Bounds { x: 40, y: 40, width: 256, height: 128 };
    let actual_bounds = Bounds { x: 340, ..expected_bounds };
    let changed_pixels = [
        expected_bounds,
        actual_bounds,
        Bounds { x: 38, y: 70, width: 1, height: 20 },
        Bounds { x: 338, y: 70, width: 1, height: 20 },
        Bounds { x: 610, y: 190, width: 4, height: 5 },
    ];
    let mut expected_mask = Mask::try_new(620, 220).expect("expected mask");
    let mut actual_mask = Mask::try_new(620, 220).expect("actual mask");
    for bounds in changed_pixels {
        fill(&mut expected_mask, bounds);
        fill(&mut actual_mask, bounds);
    }
    let movement = movement(expected_bounds, Offset { x: 300, y: 0 });
    let mut differences: Vec<ResidualRegion> = Vec::new();

    let suppression = append_unhandled(
        expected_mask,
        actual_mask,
        Offset { x: 0, y: 0 },
        16,
        &[expected_bounds],
        &[actual_bounds],
        &[movement],
        &mut differences,
    )
    .expect("residual analysis");

    assert_eq!(suppression.movement_border_regions, 2);
    assert_eq!(suppression.movement_border_pixels, 40);
    assert_eq!(differences.len(), 1, "{differences:?}");
    assert_eq!(differences[0].actual_bounds, Some(Bounds { x: 610, y: 190, width: 4, height: 5 }));
    assert_eq!(differences[0].expected_bounds, Some(Bounds { x: 610, y: 190, width: 4, height: 5 }));
    assert_eq!(differences[0].area, 20);
}

#[test]
fn unmatched_canvas_parts_are_reported_as_residuals() {
    let expected_mask = Mask::try_new(4, 3).expect("expected mask");
    let actual_mask = Mask::try_new(5, 3).expect("actual mask");
    let mut differences: Vec<ResidualRegion> = Vec::new();
    let suppression = append_unhandled(
        expected_mask,
        actual_mask,
        Offset { x: 0, y: 0 },
        1,
        &[],
        &[],
        &[],
        &mut differences,
    )
    .expect("residual analysis");
    assert_eq!(suppression.movement_border_regions, 0);
    assert!(suppression.message.is_none());
    assert_eq!(
        differences,
        vec![ResidualRegion { expected_bounds: None, actual_bounds: Some(Bounds { x: 4, y: 0, width: 1, height: 3 }), area: 3 }]
    );
}

#[test]
fn unmatched_canvas_bounds_cover_the_parts_mapped_off_the_target() {
    let source = ImageDimensions { width: 10, height: 8 };
    let target = ImageDimensions { width: 10, height: 8 };
    assert_eq!(
        unmatched_canvas_bounds(source, target, Offset { x: 3, y: -2 }),
        vec![
            Bounds { x: 0, y: 0, width: 10, height: 2 },
            Bounds { x: 7, y: 2, width: 3, height: 6 },
        ]
    );
    assert_eq!(
        unmatched_canvas_bounds(source, target, Offset { x: 20, y: 0 }),
        vec![Bounds { x: 0, y: 0, width: 10, height: 8 }]
    );
    assert!(unmatched_canvas_bounds(source, target, Offset { x: 0, y: 0 }).is_empty());
}

#[test]
fn reversing_saturates_the_minimum() {
    assert_eq!(reversed(Offset { x: i32::MIN, y: 7 }), Offset { x: i32::MAX, y: -7 });
}

#[test]
fn residual_regions_are_described_by_their_area() {
    assert_eq!(residual_message(20), "A 20 px region contains otherwise unexplained visual differences.");
    let mut mask = Mask::try_new(4, 4).expect("mask");
    assert!(!significant_pair(&mask, 2));
    mask.set(1, 1, true);
    mask.set(2, 2, true);
    assert!(significant_pair(&mask, 2));
    assert!(!significant_pair(&mask, 3));
}
