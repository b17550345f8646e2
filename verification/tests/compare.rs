use kineprism::compare::{
    finding_id, placed, region_fits, sort_order, summarize, validate_area, validate_settings, validate_working_set_dimensions,
    FindingKey, SettingError,
};
use kineprism::movement::FindingBounds;
use kineprism::raster::RasterImage;
use kineprism::report::{Bounds, DifferenceKind, ImageDimensions, Offset, SizeError};

#[test]
fn excessive_estimated_working_set_is_rejected_without_allocation() {
    assert_eq!(
        validate_working_set_dimensions(100_000, 100_000, 100_000, 100_000),
        Err(SizeError::ImageTooLarge)
    );
}

#[test]
fn common_four_k_canvases_fit_the_working_set_policy() {
    assert_eq!(validate_working_set_dimensions(3840, 2160, 3840, 2160), Ok(()));
}

#[test]
fn working_set_limit_is_inclusive() {
    // 96 * 16_777_216 = 1_610_612_736 bytes exactly.
    assert_eq!(validate_working_set_dimensions(4096, 4096, 0, 0), Ok(()));
    assert_eq!(validate_working_set_dimensions(4096, 4097, 0, 0), Err(SizeError::ImageTooLarge));
    assert_eq!(validate_area(u32::MAX, u32::MAX), Err(SizeError::ImageTooLarge));
    assert_eq!(validate_area(65_536, 65_536), Ok(()));
}

#[test]
fn summaries_count_each_kind() {
    let summary = summarize(&[
        DifferenceKind::Moved,
        DifferenceKind::Changed,
        DifferenceKind::Moved,
        DifferenceKind::CanvasSize,
    ]);
    assert_eq!(summary.total, 4);
    assert_eq!(summary.moved, 2);
    assert_eq!(summary.changed, 1);
    assert_eq!(summary.canvas_size, 1);
    assert_eq!(summary.added + summary.removed + summary.resized, 0);
}

#[test]
fn finding_ids_count_from_one() {
    assert_eq!(finding_id(0), "D1");
    assert_eq!(finding_id(41), "D42");
}

fn key(kind: DifferenceKind, x: u32, y: u32) -> FindingKey {
    FindingKey {
        kind,
        expected_bounds: Some(Bounds { x, y, width: 5, height: 5 }),
        actual_bounds: None,
        offset: None,
    }
}

#[test]
fn findings_are_ordered_by_position_before_kind_with_canvas_first() {
    let keys = [
        key(DifferenceKind::Changed, 10, 20),
        key(DifferenceKind::Moved, 10, 20),
        key(DifferenceKind::Added, 0, 30),
        FindingKey { kind: DifferenceKind::CanvasSize, expected_bounds: None, actual_bounds: None, offset: None },
        key(DifferenceKind::Removed, 50, 5),
        FindingKey {
            kind: DifferenceKind::Moved,
            expected_bounds: Some(Bounds { x: 10, y: 20, width: 5, height: 5 }),
            actual_bounds: None,
            offset: Some(Offset { x: -1, y: 0 }),
        },
    ];
    assert_eq!(sort_order(&keys), vec![3, 4, 5, 1, 0, 2]);
}

#[test]
fn equal_findings_keep_their_order() {
    let keys = [key(DifferenceKind::Changed, 1, 1), key(DifferenceKind::Changed, 1, 1)];
    assert_eq!(sort_order(&keys), vec![0, 1]);
}

#[test]
fn settings_are_checked_in_order() {
    let region = Bounds { x: 1, y: 1, width: 0, height: 3 };
    assert_eq!(validate_settings(128, true, 16, None), Ok(()));
    assert_eq!(validate_settings(u32::MAX, false, 0, Some(region)), Err(SettingError::MaxOffsetTooLarge(u32::MAX)));
    assert_eq!(validate_settings(128, false, 0, Some(region)), Err(SettingError::InvalidColorThreshold));
    assert_eq!(validate_settings(128, true, 0, Some(region)), Err(SettingError::InvalidMinimumRegionArea(0)));
    assert_eq!(validate_settings(128, true, 1, Some(region)), Err(SettingError::InvalidRegionSize(region)));
}

#[test]
fn regions_must_fit_the_canvas() {
    let canvas = ImageDimensions { width: 10, height: 10 };
    assert!(region_fits(Bounds { x: 5, y: 5, width: 5, height: 5 }, canvas));
    assert!(!region_fits(Bounds { x: 5, y: 5, width: 6, height: 5 }, canvas));
    assert!(!region_fits(Bounds { x: u32::MAX, y: 0, width: 2, height: 1 }, canvas));
}

#[test]
fn placed_findings_move_by_the_region_origin() {
    let finding = FindingBounds {
        expected_bounds: Some(Bounds { x: 3, y: 4, width: 10, height: 6 }),
        actual_bounds: None,
    };
    assert_eq!(
        placed(finding, 20, 30),
        Some(FindingBounds { expected_bounds: Some(Bounds { x: 23, y: 34, width: 10, height: 6 }), actual_bounds: None })
    );
    let both = FindingBounds {
        expected_bounds: Some(Bounds { x: 0, y: 0, width: 1, height: 1 }),
        actual_bounds: Some(Bounds { x: 5, y: 1, width: 2, height: 2 }),
    };
    assert_eq!(
        placed(both, 7, 0),
        Some(FindingBounds {
            expected_bounds: Some(Bounds { x: 7, y: 0, width: 1, height: 1 }),
            actual_bounds: Some(Bounds { x: 12, y: 1, width: 2, height: 2 }),
        })
    );
    let far = FindingBounds { expected_bounds: None, actual_bounds: Some(Bounds { x: u32::MAX, y: 0, width: 1, height: 1 }) };
    assert_eq!(placed(far, 1, 0), None);
}

#[test]
fn cropped_rasters_copy_the_region() {
    let bytes: Vec<u8> = (0..48u8).collect();
    let image = RasterImage::from_bytes(4, 3, bytes).unwrap();
    let region = image.cropped(Bounds { x: 1, y: 1, width: 2, height: 2 });
    assert_eq!((region.width(), region.height()), (2, 2));
    assert_eq!(region.pixel(0, 0), [20, 21, 22, 23]);
    assert_eq!(region.pixel(1, 1), [40, 41, 42, 43]);
    assert_eq!(region.bytes(), vec![20, 21, 22, 23, 24, 25, 26, 27, 36, 37, 38, 39, 40, 41, 42, 43]);
}
