use kineprism::classify::{
    alignment_is_unsupported, canvas_message, classify_pair, detected_movement_mappings, global_movement, limit_proposals,
    movement_message, remove_moved_proposals, resized_message, unpaired, LocalMovement, PairOutcome, PairVerdict,
};
use kineprism::local::{residual_proposals, translate_full};
use kineprism::mapping::MovementMapping;
use kineprism::mask::Mask;
use kineprism::matching::Proposal;
use kineprism::movement::{coalesce, describe_offset, merged_message, FindingBounds};
use kineprism::proposals::{background_is_dominant, dominant_color, proposals_from_mask, remove_contained, sample_coordinate};
use kineprism::raster::RasterImage;
use kineprism::report::{Bounds, ComparisonSummary, ImageDimensions, Offset, SuppressionSummary};
use kineprism::summary::{write_summary, write_suppression};

fn bounds(x: u32, y: u32, width: u32, height: u32) -> Bounds {
    Bounds { x, y, width, height }
}

fn proposal(x: u32, y: u32, width: u32, height: u32) -> Proposal {
    Proposal { bounds: bounds(x, y, width, height) }
}

fn verdict(expected: usize, actual: usize) -> PairVerdict {
    PairVerdict { expected, actual, within_limit: true, improves: true, ambiguous: false }
}

#[test]
fn nearby_residuals_group_into_padded_proposals_largest_first() {
    let mut mask = Mask::try_new(100, 40).expect("mask");
    for (x, y) in [(10, 10), (15, 10), (80, 10)] {
        mask.set(x, y, true);
    }
    let proposals = residual_proposals(&mask, 1).expect("proposals");
    assert_eq!(proposals, vec![bounds(6, 6, 79, 9), bounds(6, 6, 14, 9), bounds(76, 6, 9, 9)]);
}

#[test]
fn full_shifts_must_stay_on_the_target() {
    let target = ImageDimensions { width: 10, height: 10 };
    assert_eq!(translate_full(bounds(2, 2, 3, 3), Offset { x: 5, y: -2 }, target), Some(bounds(7, 0, 3, 3)));
    assert_eq!(translate_full(bounds(2, 2, 3, 3), Offset { x: 6, y: 0 }, target), None);
    assert_eq!(translate_full(bounds(2, 2, 3, 3), Offset { x: -3, y: 0 }, target), None);
}

#[test]
fn adjacent_movements_with_one_offset_are_coalesced() {
    let offset = Offset { x: 40, y: 0 };
    let mut findings = vec![
        FindingBounds { expected_bounds: Some(bounds(10, 10, 10, 10)), actual_bounds: Some(bounds(50, 10, 10, 10)) },
        FindingBounds { expected_bounds: Some(bounds(25, 10, 10, 10)), actual_bounds: None },
        FindingBounds { expected_bounds: Some(bounds(0, 90, 5, 5)), actual_bounds: None },
    ];
    let mut movements = vec![
        MovementMapping { bounds: bounds(10, 10, 10, 10), offset, order: 0 },
        MovementMapping { bounds: bounds(25, 10, 10, 10), offset, order: 1 },
        MovementMapping { bounds: bounds(200, 200, 5, 5), offset, order: 2 },
    ];
    let merges = coalesce(&mut findings, &mut movements).expect("coalesce");
    assert_eq!(merges, vec![(0, 1)]);
    assert_eq!(
        findings,
        vec![
            FindingBounds { expected_bounds: Some(bounds(10, 10, 25, 10)), actual_bounds: Some(bounds(50, 10, 25, 10)) },
            FindingBounds { expected_bounds: Some(bounds(0, 90, 5, 5)), actual_bounds: None },
        ]
    );
    assert_eq!(
        movements,
        vec![
            MovementMapping { bounds: bounds(10, 10, 25, 10), offset, order: 0 },
            MovementMapping { bounds: bounds(200, 200, 5, 5), offset, order: 1 },
        ]
    );
}

#[test]
fn offsets_are_described_by_direction() {
    assert_eq!(describe_offset(Offset { x: 5, y: 0 }), "5 px right");
    assert_eq!(describe_offset(Offset { x: -5, y: 0 }), "5 px left");
    assert_eq!(describe_offset(Offset { x: 0, y: 0 }), "0 px left");
    assert_eq!(describe_offset(Offset { x: 0, y: 7 }), "7 px down");
    assert_eq!(describe_offset(Offset { x: 0, y: -7 }), "7 px up");
    assert_eq!(describe_offset(Offset { x: 3, y: -4 }), "at offset (3, -4)");
    assert_eq!(describe_offset(Offset { x: i32::MIN, y: 0 }), "2147483648 px left");
    assert_eq!(merged_message(Offset { x: 2, y: 0 }), "Adjacent visual fragments appear 2 px right as one region.");
    assert_eq!(movement_message(Offset { x: 0, y: -1 }), "Region appears 1 px up instead of at its expected position.");
}

#[test]
fn contained_proposals_are_removed_and_the_rest_listed_by_position() {
    let mut proposals = vec![proposal(20, 5, 4, 4), proposal(0, 0, 10, 10), proposal(2, 2, 3, 3), proposal(15, 0, 2, 2)];
    remove_contained(&mut proposals);
    assert_eq!(proposals, vec![proposal(0, 0, 10, 10), proposal(15, 0, 2, 2), proposal(20, 5, 4, 4)]);
}

#[test]
fn content_masks_become_proposals() {
    let mut mask = Mask::try_new(20, 20).expect("mask");
    for y in 5..15 {
        for x in 4..16 {
            mask.set(x, y, true);
        }
    }
    let proposals = proposals_from_mask(&mask, 16).expect("proposals");
    assert_eq!(proposals, vec![proposal(4, 5, 12, 10)]);
}

#[test]
fn the_dominant_color_is_the_most_frequent_sample() {
    let mut bytes = Vec::new();
    for index in 0..20u32 {
        if index < 12 {
            bytes.extend_from_slice(&[245, 245, 245, 255]);
        } else {
            bytes.extend_from_slice(&[20, 30, 40, 255]);
        }
    }
    let image = RasterImage::from_bytes(5, 4, bytes).expect("image");
    assert_eq!(dominant_color(&image), ([245, 245, 245, 255], 12, 20));
    let tie = RasterImage::from_bytes(2, 1, vec![9, 9, 9, 9, 1, 2, 3, 4]).expect("image");
    assert_eq!(dominant_color(&tie), ([1, 2, 3, 4], 1, 2));
    let empty = RasterImage::from_bytes(0, 3, Vec::new()).expect("image");
    assert_eq!(dominant_color(&empty), ([0, 0, 0, 0], 0, 0));
    assert!(background_is_dominant(1, 20));
    assert!(!background_is_dominant(1, 21));
    assert_eq!(sample_coordinate(10, 100, 1, 4), 43);
    assert_eq!(sample_coordinate(10, 100, 3, 4), 109);
    assert_eq!(sample_coordinate(10, 1, 3, 4), 10);
}

#[test]
fn pairs_are_classified_by_match_size_and_offset() {
    let alignment = Offset { x: 0, y: 0 };
    let same = bounds(10, 10, 20, 20);
    assert_eq!(classify_pair(same, same, alignment, verdict(0, 0), false), PairOutcome::Unchanged);
    assert_eq!(classify_pair(same, same, alignment, verdict(0, 0), true), PairOutcome::Changed);
    assert_eq!(classify_pair(same, bounds(15, 10, 20, 20), alignment, verdict(0, 0), false), PairOutcome::Moved);
    let weak = PairVerdict { improves: false, ..verdict(0, 0) };
    assert_eq!(classify_pair(same, bounds(15, 10, 20, 20), alignment, weak, false), PairOutcome::Changed);
    assert_eq!(classify_pair(same, bounds(10, 10, 30, 20), alignment, verdict(0, 0), true), PairOutcome::Resized);
    let ambiguous = PairVerdict { ambiguous: true, ..verdict(0, 0) };
    assert_eq!(classify_pair(same, bounds(10, 10, 30, 20), alignment, ambiguous, false), PairOutcome::Changed);
    assert_eq!(resized_message(same, bounds(10, 10, 30, 20)), "Region resized from 20x20 to 30x20.");
    assert_eq!(
        canvas_message(ImageDimensions { width: 4, height: 3 }, ImageDimensions { width: 5, height: 3 }),
        "Canvas changed from 4x3 to 5x3."
    );
}

#[test]
fn unpaired_proposals_are_listed_in_order() {
    let (removed, added) = unpaired(&[verdict(1, 0), verdict(3, 2)], 4, 3);
    assert_eq!(removed, vec![0, 2]);
    assert_eq!(added, vec![1]);
}

#[test]
fn alignment_needs_broad_support() {
    let expected = [proposal(0, 0, 5, 5), proposal(20, 0, 5, 5), proposal(40, 0, 5, 5), proposal(60, 0, 5, 5)];
    let actual = [proposal(3, 0, 5, 5), proposal(23, 0, 5, 5), proposal(43, 0, 5, 5), proposal(60, 0, 5, 5)];
    let shift = Offset { x: 3, y: 0 };
    let pairs = [verdict(0, 0), verdict(1, 1), verdict(2, 2), verdict(3, 3)];
    assert!(!alignment_is_unsupported(shift, &pairs, &expected, &actual, false));
    assert!(alignment_is_unsupported(shift, &pairs[..2], &expected, &actual, false));
    assert!(!alignment_is_unsupported(Offset { x: 0, y: 0 }, &pairs[..1], &expected, &actual, true));
    let ambiguous: Vec<PairVerdict> = pairs.iter().map(|pair| PairVerdict { ambiguous: true, ..*pair }).collect();
    assert!(alignment_is_unsupported(shift, &ambiguous, &expected, &actual, true));
    assert!(!alignment_is_unsupported(shift, &ambiguous, &expected, &actual, false));
    let size = ImageDimensions { width: 100, height: 10 };
    assert_eq!(
        global_movement(&pairs, &expected, &actual, shift, size, size),
        Some((bounds(0, 0, 45, 5), bounds(3, 0, 45, 5)))
    );
    assert_eq!(
        global_movement(&[], &expected, &actual, shift, size, size),
        Some((bounds(0, 0, 97, 10), bounds(3, 0, 97, 10)))
    );
    assert_eq!(global_movement(&pairs, &expected, &actual, Offset { x: 0, y: 0 }, size, size), None);
}

#[test]
fn moved_regions_take_their_proposals_with_them() {
    let mut expected = vec![proposal(0, 0, 5, 5), proposal(50, 0, 5, 5)];
    let mut actual = vec![proposal(10, 0, 5, 5), proposal(60, 0, 5, 5)];
    let moved = LocalMovement { expected_bounds: bounds(0, 0, 6, 6), actual_bounds: bounds(59, 0, 6, 6), offset: Offset { x: 59, y: 0 } };
    remove_moved_proposals(&mut expected, &mut actual, &[moved]);
    assert_eq!(expected, vec![proposal(50, 0, 5, 5)]);
    assert_eq!(actual, vec![proposal(10, 0, 5, 5)]);
    assert_eq!(
        detected_movement_mappings(&[moved], 7),
        vec![MovementMapping { bounds: bounds(0, 0, 6, 6), offset: Offset { x: 59, y: 0 }, order: 7 }]
    );
    let mut many = vec![proposal(0, 0, 1, 1); 513];
    let mut one = vec![proposal(0, 0, 1, 1)];
    assert!(!limit_proposals(&mut many, &mut one));
    assert!(many.is_empty() && one.is_empty());
}

#[test]
fn plain_text_summaries_list_nonzero_counts() {
    let mut output = String::new();
    write_summary(&mut output, &ComparisonSummary::default());
    assert_eq!(output, "Findings: none\n");
    let summary = ComparisonSummary { total: 3, moved: 1, resized: 0, added: 0, removed: 0, changed: 1, canvas_size: 1 };
    let mut output = String::new();
    write_summary(&mut output, &summary);
    assert_eq!(output, "Findings: 3 total (moved=1, changed=1, canvas-size=1)\n");
    let mut output = String::from("x");
    write_suppression(&mut output, &SuppressionSummary { movement_border_regions: 0, movement_border_pixels: 0, message: None });
    assert_eq!(output, "x");
    write_suppression(&mut output, &SuppressionSummary { movement_border_regions: 2, movement_border_pixels: 40, message: None });
    assert_eq!(output, "xSuppressed residuals: 2 region(s), 40 px; see the detailed report.\n");
}

#[test]
fn coalescing_drops_one_finding_per_absorbed_movement() {
    let offset = Offset { x: 40, y: 0 };
    let added = FindingBounds { expected_bounds: None, actual_bounds: Some(bounds(300, 300, 4, 4)) };
    let moved = |x: u32| FindingBounds { expected_bounds: Some(bounds(x, 0, 10, 10)), actual_bounds: None };
    let mut findings = vec![added, moved(12), moved(24), moved(0)];
    let mut movements = vec![
        MovementMapping { bounds: bounds(0, 0, 10, 10), offset, order: 3 },
        MovementMapping { bounds: bounds(12, 0, 10, 10), offset, order: 1 },
        MovementMapping { bounds: bounds(24, 0, 10, 10), offset, order: 2 },
    ];
    let merges = coalesce(&mut findings, &mut movements).expect("coalesce");
    assert_eq!(merges, vec![(0, 1), (0, 2)]);
    assert_eq!(4 - findings.len(), merges.len());
    assert_eq!(3 - movements.len(), merges.len());
    assert_eq!(
        findings,
        vec![
            added,
            FindingBounds { expected_bounds: Some(bounds(0, 0, 34, 10)), actual_bounds: Some(bounds(40, 0, 34, 10)) },
        ]
    );
    assert_eq!(movements, vec![MovementMapping { bounds: bounds(0, 0, 34, 10), offset, order: 1 }]);
}
