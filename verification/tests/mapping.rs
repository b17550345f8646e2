use kineprism::mapping::{MovementMapping, PixelMapping};
use kineprism::report::{ImageDimensions, Offset};

fn size(width: u32, height: u32) -> ImageDimensions {
    ImageDimensions { width, height }
}

#[test]
fn positive_offset_maps_expected_to_actual_and_crops_the_right_edge() {
    let mapping = PixelMapping::translated(size(3, 1), size(3, 1), Offset { x: 1, y: 0 }).expect("mapping");

    assert_eq!(mapping.compared_pixels(), 2);
    assert_eq!(mapping.actual_index(0, 0), Some(1));
    assert_eq!(mapping.actual_index(1, 0), Some(2));
    assert_eq!(mapping.actual_index(2, 0), None);
}

#[test]
fn negative_offset_crops_the_left_edge() {
    let mapping = PixelMapping::translated(size(3, 1), size(3, 1), Offset { x: -1, y: 0 }).expect("mapping");

    assert_eq!(mapping.compared_pixels(), 2);
    assert_eq!(mapping.actual_index(0, 0), None);
    assert_eq!(mapping.actual_index(1, 0), Some(0));
    assert_eq!(mapping.actual_index(2, 0), Some(1));
}

#[test]
fn mappings_list_pairs_across_rows() {
    let mapping = PixelMapping::translated(size(2, 2), size(3, 3), Offset { x: 1, y: 1 }).expect("mapping");
    assert_eq!(mapping.pairs(), vec![(0, 4), (1, 5), (2, 7), (3, 8)]);
    assert_eq!(mapping.dimensions(), (2, 2));
}

#[test]
fn structural_mapping_pairs_movements_first_and_uses_each_actual_pixel_once() {
    let movement = MovementMapping {
        bounds: kineprism::report::Bounds { x: 0, y: 0, width: 2, height: 1 },
        offset: Offset { x: 1, y: 0 },
        order: 0,
    };
    let mapping = PixelMapping::structural(size(4, 1), size(4, 1), Offset { x: 0, y: 0 }, &[movement]).expect("mapping");

    assert_eq!(mapping.actual_index(0, 0), Some(1));
    assert_eq!(mapping.actual_index(1, 0), Some(2));
    assert_eq!(mapping.actual_index(2, 0), None);
    assert_eq!(mapping.actual_index(3, 0), Some(3));
    assert_eq!(mapping.compared_pixels(), 3);
}

#[test]
fn structural_mapping_without_movements_is_the_global_mapping() {
    let structural = PixelMapping::structural(size(3, 2), size(3, 2), Offset { x: -1, y: 1 }, &[]).expect("structural");
    let global = PixelMapping::translated(size(3, 2), size(3, 2), Offset { x: -1, y: 1 }).expect("global");
    assert_eq!(structural.pairs(), global.pairs());
    assert_eq!(structural.compared_pixels(), global.compared_pixels());
}
