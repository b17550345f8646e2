use kineprism::annotate::{finding_label, kind_color, Annotation};
use kineprism::mask::Mask;
use kineprism::raster::RasterImage;
use kineprism::render::render_artifacts;
use kineprism::report::{Bounds, DifferenceKind, ImageDimensions, Offset};

fn blended(source: [u8; 4], overlay: [u8; 4]) -> [u8; 4] {
    let alpha = u16::from(overlay[3]);
    let inverse = 255 - alpha;
    let mut result = source;
    for channel in 0..3 {
        let value = u16::from(overlay[channel]) * alpha + u16::from(source[channel]) * inverse;
        result[channel] = u8::try_from((value + 127) / 255).expect("blended channel");
    }
    result[3] = 255;
    result
}

fn empty_mask(width: u32, height: u32) -> Mask {
    Mask::try_new(width, height).expect("mask")
}

#[test]
fn labels_carry_the_identifier_and_the_signed_displacement() {
    let moved = Annotation {
        kind: DifferenceKind::Moved,
        expected_bounds: None,
        actual_bounds: None,
        offset: Some(Offset { x: 5, y: -2 }),
    };
    assert_eq!(finding_label(2, &moved), "D3 dx+5 dy-2");
    let changed = Annotation { kind: DifferenceKind::Changed, ..moved };
    assert_eq!(finding_label(0, &changed), "D1");
    assert_eq!(kind_color(DifferenceKind::Moved), [32, 115, 230, 210]);
    assert_eq!(kind_color(DifferenceKind::CanvasSize), [100, 105, 115, 255]);
}

#[test]
fn movement_annotations_share_the_blue_label_on_both_sources() {
    let background = [245, 247, 250, 255];
    let source = RasterImage::filled(100, 70, background);
    let size = ImageDimensions { width: 100, height: 70 };
    let expected_bounds = Bounds { x: 20, y: 24, width: 36, height: 22 };
    let actual_bounds = Bounds { x: 25, y: 24, width: 36, height: 22 };
    let findings = [Annotation {
        kind: DifferenceKind::Moved,
        expected_bounds: Some(expected_bounds),
        actual_bounds: Some(actual_bounds),
        offset: Some(Offset { x: 5, y: 0 }),
    }];
    let render = || {
        render_artifacts(&source, &source, size, size, &findings, &empty_mask(100, 70), &empty_mask(100, 70), None)
            .expect("render")
    };
    let rendered = render();
    let again = render();
    assert_eq!(rendered.expected.bytes(), again.expected.bytes());
    assert_eq!(rendered.actual.bytes(), again.actual.bytes());
    assert_eq!(rendered.diff.bytes(), again.diff.bytes());
    assert_ne!(rendered.expected.bytes(), source.bytes());
    assert_ne!(rendered.actual.bytes(), source.bytes());
    let blue = [32, 115, 230, 210];
    for (artifact, bounds) in [(&rendered.expected, expected_bounds), (&rendered.actual, actual_bounds)] {
        let label = (bounds.x + 2, bounds.y - 8);
        assert_eq!(artifact.pixel(label.0, label.1), blended(background, blue));
        assert_eq!(artifact.pixel(label.0 + 8, label.1), blended(background, blue));
    }
    assert!(rendered.diff.bytes().chunks(4).any(|pixel| pixel[2] > pixel[0] && pixel != [255, 255, 255, 255]));
    assert_eq!(rendered.diff.pixel(20, 24), blended(blended([255, 255, 255, 255], blue), blue));
}

#[test]
fn changed_regions_shade_their_changed_pixels() {
    let white = [255, 255, 255, 255];
    let source = RasterImage::filled(40, 32, white);
    let size = ImageDimensions { width: 40, height: 32 };
    let mut residual = empty_mask(40, 32);
    for y in 10..18 {
        for x in 12..20 {
            if (x, y) != (16, 14) {
                residual.set(x, y, true);
            }
        }
    }
    let bounds = Bounds { x: 12, y: 10, width: 8, height: 8 };
    let findings = [Annotation {
        kind: DifferenceKind::Changed,
        expected_bounds: Some(bounds),
        actual_bounds: Some(bounds),
        offset: None,
    }];
    let rendered = render_artifacts(&source, &source, size, size, &findings, &residual, &empty_mask(40, 32), None).expect("render");
    let center = rendered.diff.pixel(15, 13);
    assert!(center[0] > center[1] && center[0] > center[2]);
    assert_ne!(center, white);
    assert_eq!(rendered.diff.pixel(16, 14), white);
}

#[test]
fn differing_canvases_are_outlined_and_labelled_in_gray() {
    let expected = RasterImage::filled(30, 20, [255, 255, 255, 255]);
    let actual = RasterImage::filled(36, 24, [255, 255, 255, 255]);
    let expected_size = ImageDimensions { width: 30, height: 20 };
    let actual_size = ImageDimensions { width: 36, height: 24 };
    let findings =
        [Annotation { kind: DifferenceKind::CanvasSize, expected_bounds: None, actual_bounds: None, offset: None }];
    let rendered = render_artifacts(&expected, &actual, expected_size, actual_size, &findings, &empty_mask(30, 20), &empty_mask(36, 24), None).expect("render");
    assert_eq!((rendered.diff.width(), rendered.diff.height()), (36, 24));
    assert_eq!(rendered.diff.pixel(2, 2), [100, 105, 115, 255]);
    assert_eq!(rendered.diff.pixel(35, 23), [100, 105, 115, 255]);
}

#[test]
fn the_comparison_region_is_outlined_in_dashed_cyan_on_every_artifact() {
    let color = [30, 40, 50, 255];
    let source = RasterImage::filled(20, 16, color);
    let size = ImageDimensions { width: 20, height: 16 };
    let region = Bounds { x: 3, y: 4, width: 10, height: 8 };
    let rendered = render_artifacts(&source, &source, size, size, &[], &empty_mask(20, 16), &empty_mask(20, 16), Some(region)).expect("render");
    let cyan = [0, 180, 210, 255];
    for artifact in [&rendered.expected, &rendered.actual, &rendered.diff] {
        assert_eq!(artifact.pixel(3, 4), cyan);
        assert_eq!(artifact.pixel(3, 5), cyan);
    }
    assert_eq!(rendered.expected.pixel(7, 4), color);
    assert_eq!(rendered.diff.pixel(7, 4), [255, 255, 255, 255]);
    assert_eq!(rendered.actual.pixel(0, 0), color);
}

#[test]
fn annotations_clip_unbounded_regions() {
    let source = RasterImage::filled(4, 4, [0, 0, 0, 255]);
    let size = ImageDimensions { width: 4, height: 4 };
    let unbounded = Bounds { x: 0, y: 0, width: u32::MAX, height: u32::MAX };
    let findings = [Annotation {
        kind: DifferenceKind::Changed,
        expected_bounds: Some(unbounded),
        actual_bounds: Some(unbounded),
        offset: None,
    }];
    let rendered = render_artifacts(&source, &source, size, size, &findings, &empty_mask(4, 4), &empty_mask(4, 4), None).expect("render");
    assert_eq!((rendered.diff.width(), rendered.diff.height()), (4, 4));
}
