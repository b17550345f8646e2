use kineprism::report::{ComparisonSummary, DifferenceKind, Offset, RenderError, SuppressionSummary};

#[test]
fn report_domain_types_are_straightforward_to_consume() {
    let offset = Offset { x: 5, y: -2 };

    assert_eq!(offset.x, 5);
    assert_eq!(offset.y, -2);
    assert_eq!(DifferenceKind::Moved.as_str(), "moved");
}

#[test]
fn kinds_have_snake_case_names() {
    assert_eq!(DifferenceKind::CanvasSize.as_str(), "canvas_size");
    assert_eq!(DifferenceKind::Changed.as_str(), "changed");
    assert!(DifferenceKind::CanvasSize.rank() < DifferenceKind::Changed.rank());
}

#[test]
fn render_errors_describe_themselves() {
    assert_eq!(RenderError::ImageTooLarge.message(), "rendered image dimensions are too large");
    assert_eq!(
        RenderError::ComparisonImageMismatch.message(),
        "comparison dimensions do not match the supplied images"
    );
}

#[test]
fn suppression_summaries_accumulate_with_guidance() {
    let mut summary = SuppressionSummary::default();
    assert_eq!(summary.movement_border_regions, 0);
    assert!(summary.message.is_none());
    summary.record_movement_border(20);
    assert_eq!(summary.movement_border_regions, 1);
    assert_eq!(summary.movement_border_pixels, 20);
    assert_eq!(
        summary.message.as_deref(),
        Some("Suppressed 1 small residual region (20 px) bordering validated movements. Recheck it after correcting the reported movements.")
    );
    summary.record_movement_border(21);
    assert_eq!(
        summary.message.as_deref(),
        Some("Suppressed 2 small residual regions (41 px) bordering validated movements. Recheck them after correcting the reported movements.")
    );
    let empty = ComparisonSummary::default();
    assert_eq!(empty.total, 0);
}
