use kineprism::font::{pattern, text};
use kineprism::raster::RasterImage;
use kineprism::render::{arrow, blend_pixel, clamped_coordinate, rectangle, render_artifacts, stroke_visible};
use kineprism::mask::Mask;
use kineprism::report::{Bounds, ImageDimensions, RenderError};

fn no_mask() -> Mask {
    Mask::try_new(0, 0).expect("mask")
}

fn blank(width: u32, height: u32) -> RasterImage {
    RasterImage::filled(width, height, [0, 0, 0, 0])
}

fn size(width: u32, height: u32) -> ImageDimensions {
    ImageDimensions { width, height }
}

#[test]
fn labels_are_deterministic() {
    let mut first = blank(40, 10);
    let mut second = blank(40, 10);
    text(&mut first, 0, 0, "D12", [20, 40, 80, 255]);
    text(&mut second, 0, 0, "D12", [20, 40, 80, 255]);
    assert_eq!(first.bytes(), second.bytes());
    assert!(first.bytes().chunks(4).any(|pixel| pixel[3] != 0));
}

#[test]
fn edge_clipped_primitives_do_not_panic() {
    let mut image = blank(2, 2);
    rectangle(
        &mut image,
        Bounds { x: u32::MAX, y: u32::MAX, width: u32::MAX, height: u32::MAX },
        [255, 0, 0, 255],
        true,
    );
    arrow(&mut image, (u32::MAX, u32::MAX), (0, 0), [0, 0, 255, 255]);

    rectangle(&mut image, Bounds { x: 0, y: 0, width: u32::MAX, height: u32::MAX }, [255, 0, 0, 255], false);
    assert_eq!(image.pixel(1, 1), [255, 0, 0, 255]);
}

#[test]
fn rendering_rejects_images_that_do_not_belong_to_the_comparison() {
    let expected = blank(4, 3);
    let wrong_actual = blank(5, 3);
    assert_eq!(
        render_artifacts(&expected, &wrong_actual, size(4, 3), size(4, 3), &[], &no_mask(), &no_mask(), None).err(),
        Some(RenderError::ComparisonImageMismatch)
    );
}

#[test]
fn rendering_rejects_an_excessive_combined_canvas() {
    let expected = blank(20_000, 1);
    let actual = blank(1, 20_000);
    assert_eq!(
        render_artifacts(&expected, &actual, size(20_000, 1), size(1, 20_000), &[], &no_mask(), &no_mask(), None).err(),
        Some(RenderError::ImageTooLarge)
    );
}

#[test]
fn rendered_artifacts_copy_the_sources_onto_a_white_canvas() {
    let expected = RasterImage::filled(4, 3, [20, 30, 40, 255]);
    let actual = RasterImage::filled(4, 3, [1, 2, 3, 4]);
    let rendered = render_artifacts(&expected, &actual, size(4, 3), size(4, 3), &[], &no_mask(), &no_mask(), None).expect("render");
    assert_eq!((rendered.diff.width(), rendered.diff.height()), (4, 3));
    assert!(rendered.diff.bytes().iter().all(|byte| *byte == 255));
    assert_eq!(rendered.expected.bytes(), expected.bytes());
    assert_eq!(rendered.actual.bytes(), actual.bytes());
}

#[test]
fn rendered_diff_frames_canvases_of_different_sizes() {
    let expected = RasterImage::filled(4, 3, [20, 30, 40, 255]);
    let actual = RasterImage::filled(2, 5, [1, 2, 3, 4]);
    let rendered = render_artifacts(&expected, &actual, size(4, 3), size(2, 5), &[], &no_mask(), &no_mask(), None).expect("render");
    assert_eq!((rendered.diff.width(), rendered.diff.height()), (4, 5));
    assert!(rendered.diff.bytes().iter().any(|byte| *byte != 255));
    assert_eq!(rendered.diff.pixel(3, 4), [255, 255, 255, 255]);
    assert_eq!(rendered.expected.bytes(), expected.bytes());
    assert_eq!(rendered.actual.bytes(), actual.bytes());
}

#[test]
fn blending_rounds_and_makes_pixels_opaque() {
    let mut image = RasterImage::filled(2, 1, [0, 100, 200, 0]);
    blend_pixel(&mut image, 0, 0, [255, 255, 255, 128]);
    assert_eq!(image.pixel(0, 0), [128, 178, 228, 255]);
    blend_pixel(&mut image, -1, 0, [255, 0, 0, 255]);
    blend_pixel(&mut image, 2, 0, [255, 0, 0, 255]);
    assert_eq!(image.pixel(1, 0), [0, 100, 200, 0]);
}

#[test]
fn lines_visit_every_step_between_their_ends() {
    let mut image = blank(5, 5);
    kineprism::render::line(&mut image, (0, 0), (4, 2), [9, 9, 9, 255]);
    let lit: Vec<(u32, u32)> = (0..5)
        .flat_map(|y| (0..5).map(move |x| (x, y)))
        .filter(|(x, y)| image.pixel(*x, *y)[3] == 255)
        .collect();
    assert_eq!(lit, vec![(0, 0), (1, 1), (2, 1), (3, 2), (4, 2)]);
}

#[test]
fn dashed_strokes_and_coordinates() {
    assert!(stroke_visible(3, true));
    assert!(!stroke_visible(4, true));
    assert!(stroke_visible(8, true));
    assert!(stroke_visible(5, false));
    assert_eq!(clamped_coordinate(-5), 0);
    assert_eq!(clamped_coordinate(1 << 40), u32::MAX);
    assert_eq!(pattern('d'), pattern('D'));
    assert_eq!(pattern('?'), [0; 7]);
    assert_eq!(pattern('1'), [0b00100, 0b01100, 0b00100, 0b00100, 0b00100, 0b00100, 0b01110]);
}
