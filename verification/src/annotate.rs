use vstd::prelude::*;

use crate::font::{label_after, text};
use crate::geometry::saturate;
use crate::mask::{Mask, MaskModel};
use crate::raster::{RasterImage, raster_samples, raster_size};
use crate::render::{
    RenderedArtifacts, arrow, arrow_points, blend_points, fill_mask_pixel, lemma_blend_points_push, rectangle,
    rectangle_points,
};
use crate::report::{Bounds, DifferenceKind, ImageDimensions, Offset};
use crate::text::{decimal, push_decimal};

verus! {

/// One finding as it is drawn: its category, its regions and its displacement.
#[derive(Debug, Clone, Copy, PartialEq, Eq, Structural)]
pub struct Annotation {
    /// Difference category.
    pub kind: DifferenceKind,
    /// Region in expected coordinates.
    pub expected_bounds: Option<Bounds>,
    /// Region in actual coordinates.
    pub actual_bounds: Option<Bounds>,
    /// Displacement from expected to actual coordinates.
    pub offset: Option<Offset>,
}

/// The color of a category: blue moved, purple resized, green added, orange removed, red
/// changed, opaque gray canvas size.
pub open spec fn spec_kind_color(kind: DifferenceKind) -> Seq<u8> {
    match kind {
        DifferenceKind::Moved => seq![32u8, 115, 230, 210],
        DifferenceKind::Resized => seq![150u8, 80, 200, 210],
        DifferenceKind::Added => seq![40u8, 160, 80, 210],
        DifferenceKind::Removed => seq![230u8, 130, 30, 210],
        DifferenceKind::Changed => seq![220u8, 50, 50, 210],
        DifferenceKind::CanvasSize => seq![100u8, 105, 115, 255],
    }
}

/// The color of a category.
pub fn kind_color(kind: DifferenceKind) -> (result: [u8; 4])
    ensures
        result@ == spec_kind_color(kind),
{
    let color: [u8; 4] = match kind {
        DifferenceKind::Moved => [32, 115, 230, 210],
        DifferenceKind::Resized => [150, 80, 200, 210],
        DifferenceKind::Added => [40, 160, 80, 210],
        DifferenceKind::Removed => [230, 130, 30, 210],
        DifferenceKind::Changed => [220, 50, 50, 210],
        DifferenceKind::CanvasSize => [100, 105, 115, 255],
    };
    assert(color@ =~= spec_kind_color(kind));
    color
}

/// The opaque cyan of the comparison region's outline.
pub open spec fn region_color() -> Seq<u8> {
    seq![0u8, 180, 210, 255]
}

/// The translucent red laid over changed pixels.
pub open spec fn shade_color() -> Seq<u8> {
    seq![220u8, 50, 50, 96]
}

/// A signed number with its sign always shown.
pub open spec fn signed_label(n: int) -> Seq<char> {
    if n < 0 {
        seq!['-'] + decimal((-n) as nat)
    } else {
        seq!['+'] + decimal(n as nat)
    }
}

/// The label of the finding at zero-based report position `position`: its identifier, and for a
/// movement its signed displacement.
pub open spec fn label_text(position: nat, finding: Annotation) -> Seq<char> {
    let id = seq!['D'] + decimal(position + 1);
    if finding.kind == DifferenceKind::Moved && finding.offset is Some {
        let o = finding.offset->0;
        id + " dx"@ + signed_label(o.x as int) + " dy"@ + signed_label(o.y as int)
    } else {
        id
    }
}

/// Left edge of the label of a region: two pixels inside its left edge.
pub open spec fn label_x(bounds: Bounds) -> int {
    saturate(bounds.x + 2)
}

/// Top edge of the label of a region: eight pixels above it, or at the top of the canvas.
pub open spec fn label_y(bounds: Bounds) -> int {
    if bounds.y >= 8 { bounds.y - 8 } else { 0 }
}

/// The raster after drawing a region's two-pixel outline.
pub open spec fn boxed(samples: Seq<u8>, size: (u32, u32), bounds: Bounds, dashed: bool, color: Seq<u8>) -> Seq<u8> {
    blend_points(samples, size, rectangle_points(bounds, size.0, size.1, dashed), color)
}

/// The raster after drawing a label from `(x, y)`.
pub open spec fn labeled(samples: Seq<u8>, size: (u32, u32), x: int, y: int, label: Seq<char>, color: Seq<u8>) -> Seq<u8> {
    label_after(samples, size, x, y, label, color, label.len() as int)
}

/// The region of a finding on one side of the comparison.
pub open spec fn side_bounds(finding: Annotation, expected_side: bool) -> Option<Bounds> {
    if expected_side {
        finding.expected_bounds
    } else {
        finding.actual_bounds
    }
}

/// A source image after marking the first `n` findings that have a region on its side: each
/// region outlined in its category's color and labelled above.
pub open spec fn marked_source(samples: Seq<u8>, size: (u32, u32), findings: Seq<Annotation>, expected_side: bool, n: int) -> Seq<u8>
    decreases n,
{
    if n <= 0 {
        samples
    } else {
        let previous = marked_source(samples, size, findings, expected_side, n - 1);
        let finding = findings[n - 1];
        let color = spec_kind_color(finding.kind);
        match side_bounds(finding, expected_side) {
            Some(b) => labeled(
                boxed(previous, size, b, false, color),
                size,
                label_x(b),
                label_y(b),
                label_text((n - 1) as nat, finding),
                color,
            ),
            None => previous,
        }
    }
}

/// The set cells of row `y` among the `n` columns from `left`, left to right.
pub open spec fn row_shape(m: MaskModel, left: int, y: int, n: int) -> Seq<(int, int)>
    decreases n,
{
    if n <= 0 {
        seq![]
    } else if m.is_set((left + n - 1, y)) {
        row_shape(m, left, y, n - 1).push((left + n - 1, y))
    } else {
        row_shape(m, left, y, n - 1)
    }
}

/// The set cells of the `rows` rows from `top`, `width` columns from `left`, in row-major order.
pub open spec fn shape_rows(m: MaskModel, left: int, width: int, top: int, rows: int) -> Seq<(int, int)>
    decreases rows,
{
    if rows <= 0 {
        seq![]
    } else {
        shape_rows(m, left, width, top, rows - 1) + row_shape(m, left, top + rows - 1, width)
    }
}

/// The set cells of a mask inside a region, in row-major order.
pub open spec fn mask_shape(m: MaskModel, bounds: Bounds) -> Seq<(int, int)> {
    let right = if bounds.x + bounds.width <= m.width { bounds.x + bounds.width } else { m.width };
    let bottom = if bounds.y + bounds.height <= m.height { bounds.y + bounds.height } else { m.height };
    if bounds.x >= right || bounds.y >= bottom {
        seq![]
    } else {
        shape_rows(m, bounds.x as int, right - bounds.x, bounds.y as int, bottom - bounds.y)
    }
}

/// The canvas outlines drawn when the two canvases differ: the expected canvas dashed, the
/// actual canvas solid, both in the canvas color.
pub open spec fn canvas_frames(samples: Seq<u8>, size: (u32, u32), expected: ImageDimensions, actual: ImageDimensions) -> Seq<u8> {
    if expected == actual {
        samples
    } else {
        let gray = spec_kind_color(DifferenceKind::CanvasSize);
        boxed(
            boxed(samples, size, Bounds { x: 0, y: 0, width: expected.width, height: expected.height }, true, gray),
            size,
            Bounds { x: 0, y: 0, width: actual.width, height: actual.height },
            false,
            gray,
        )
    }
}

/// The diagnostic canvas after shading the changed pixels of the first `n` changed findings:
/// those of the expected residual inside the expected region, else those of the actual residual
/// inside the actual region.
pub open spec fn shaded(
    samples: Seq<u8>,
    size: (u32, u32),
    findings: Seq<Annotation>,
    expected_residual: MaskModel,
    actual_residual: MaskModel,
    n: int,
) -> Seq<u8>
    decreases n,
{
    if n <= 0 {
        samples
    } else {
        let previous = shaded(samples, size, findings, expected_residual, actual_residual, n - 1);
        let finding = findings[n - 1];
        if finding.kind != DifferenceKind::Changed {
            previous
        } else {
            match finding.expected_bounds {
                Some(b) => blend_points(previous, size, mask_shape(expected_residual, b), shade_color()),
                None => match finding.actual_bounds {
                    Some(b) => blend_points(previous, size, mask_shape(actual_residual, b), shade_color()),
                    None => previous,
                },
            }
        }
    }
}

/// Where the label of a finding goes on the diagnostic canvas: above its actual region, else its
/// expected region, else at the top left.
pub open spec fn diff_label_origin(finding: Annotation) -> (int, int) {
    match finding.actual_bounds {
        Some(b) => (label_x(b), label_y(b)),
        None => match finding.expected_bounds {
            Some(b) => (label_x(b), label_y(b)),
            None => (2, 2),
        },
    }
}

/// The centre of a region, saturated.
pub open spec fn center_of(bounds: Bounds) -> (u32, u32) {
    (saturate(bounds.x + bounds.width / 2) as u32, saturate(bounds.y + bounds.height / 2) as u32)
}

/// The diagnostic canvas after outlining the first `n` findings: the expected region dashed, the
/// actual region solid, an arrow from centre to centre for a movement, and the label.
pub open spec fn outlined(samples: Seq<u8>, size: (u32, u32), findings: Seq<Annotation>, n: int) -> Seq<u8>
    decreases n,
{
    if n <= 0 {
        samples
    } else {
        let previous = outlined(samples, size, findings, n - 1);
        let finding = findings[n - 1];
        let color = spec_kind_color(finding.kind);
        let with_expected = match finding.expected_bounds {
            Some(b) => boxed(previous, size, b, true, color),
            None => previous,
        };
        let with_actual = match finding.actual_bounds {
            Some(b) => boxed(with_expected, size, b, false, color),
            None => with_expected,
        };
        let with_arrow = if finding.kind == DifferenceKind::Moved && finding.expected_bounds is Some
            && finding.actual_bounds is Some {
            blend_points(
                with_actual,
                size,
                arrow_points(center_of(finding.expected_bounds->0), center_of(finding.actual_bounds->0), size.0, size.1),
                color,
            )
        } else {
            with_actual
        };
        let origin = diff_label_origin(finding);
        labeled(with_arrow, size, origin.0, origin.1, label_text((n - 1) as nat, finding), color)
    }
}

/// An artifact after outlining the comparison region, dashed, when there is one.
pub open spec fn framed(samples: Seq<u8>, size: (u32, u32), region: Option<Bounds>) -> Seq<u8> {
    match region {
        Some(r) => boxed(samples, size, r, true, region_color()),
        None => samples,
    }
}

fn push_signed_label(out: &mut String, n: i32)
    ensures
        final(out)@ == old(out)@ + signed_label(n as int),
{
    proof {
        reveal_strlit("-");
        reveal_strlit("+");
    }
    if n < 0 {
        out.append("-");
        let magnitude: u64 = (-(n as i64)) as u64;
        push_decimal(out, magnitude);
    } else {
        out.append("+");
        push_decimal(out, n as u64);
    }
    assert(out@ =~= old(out)@ + signed_label(n as int));
}

/// The label of the finding at zero-based report position `position`.
pub fn finding_label(position: u64, finding: &Annotation) -> (result: String)
    requires
        position < u64::MAX,
    ensures
        result@ == label_text(position as nat, *finding),
{
    proof {
        reveal_strlit("D");
        reveal_strlit(" dx");
        reveal_strlit(" dy");
    }
    let mut label = String::from_str("D");
    push_decimal(&mut label, position + 1);
    if finding.kind == DifferenceKind::Moved {
        if let Some(offset) = finding.offset {
            label.append(" dx");
            push_signed_label(&mut label, offset.x);
            label.append(" dy");
            push_signed_label(&mut label, offset.y);
        }
    }
    assert(label@ =~= label_text(position as nat, *finding));
    label
}

fn label_origin(bounds: Bounds) -> (result: (u32, u32))
    ensures
        result.0 == label_x(bounds),
        result.1 == label_y(bounds),
{
    (bounds.x.saturating_add(2), if bounds.y >= 8 { bounds.y - 8 } else { 0 })
}

fn mark_source(image: &mut RasterImage, findings: &[Annotation], expected_side: bool)
    ensures
        raster_size(*final(image)) == raster_size(*old(image)),
        raster_samples(*final(image)) == marked_source(
            raster_samples(*old(image)),
            raster_size(*old(image)),
            findings@,
            expected_side,
            findings@.len() as int,
        ),
{
    let ghost start = raster_samples(*image);
    let ghost size = raster_size(*image);
    let mut k: usize = 0;
    while k < findings.len()
        invariant
            k <= findings@.len(),
            raster_size(*image) == size,
            raster_samples(*image) == marked_source(start, size, findings@, expected_side, k as int),
        decreases findings@.len() - k,
    {
        let finding = findings[k];
        let side = if expected_side { finding.expected_bounds } else { finding.actual_bounds };
        if let Some(b) = side {
            let color = kind_color(finding.kind);
            rectangle(image, b, color, false);
            let (x, y) = label_origin(b);
            let label = finding_label(k as u64, &finding);
            text(image, x, y, label.as_str(), color);
        }
        k += 1;
    }
}

fn shade(image: &mut RasterImage, mask: &Mask, bounds: Bounds, color: [u8; 4])
    requires
        mask.wf(),
    ensures
        raster_size(*final(image)) == raster_size(*old(image)),
        raster_samples(*final(image)) == blend_points(
            raster_samples(*old(image)),
            raster_size(*old(image)),
            mask_shape(mask.model(), bounds),
            color@,
        ),
{
    let ghost start = raster_samples(*image);
    let ghost size = raster_size(*image);
    let ghost m = mask.model();
    let width = mask.width();
    let height = mask.height();
    let right: u64 = if bounds.x as u64 + bounds.width as u64 <= width as u64 {
        bounds.x as u64 + bounds.width as u64
    } else {
        width as u64
    };
    let bottom: u64 = if bounds.y as u64 + bounds.height as u64 <= height as u64 {
        bounds.y as u64 + bounds.height as u64
    } else {
        height as u64
    };
    if bounds.x as u64 >= right || bounds.y as u64 >= bottom {
        return;
    }
    let ghost columns = right - bounds.x;
    let mut y: u32 = bounds.y;
    while (y as u64) < bottom
        invariant
            mask.wf(),
            m == mask.model(),
            width == m.width,
            height == m.height,
            right <= width,
            bottom <= height,
            bounds.x < right,
            columns == right - bounds.x,
            bounds.y <= y <= bottom,
            raster_size(*image) == size,
            raster_samples(*image) == blend_points(start, size, shape_rows(m, bounds.x as int, columns, bounds.y as int, y - bounds.y), color@),
        decreases bottom - y,
    {
        let ghost row_start = raster_samples(*image);
        let ghost before = shape_rows(m, bounds.x as int, columns, bounds.y as int, y - bounds.y);
        let mut x: u32 = bounds.x;
        while (x as u64) < right
            invariant
                mask.wf(),
                m == mask.model(),
                width == m.width,
                height == m.height,
                right <= width,
                (y as u64) < bottom,
                bottom <= height,
                bounds.x <= x <= right,
                columns == right - bounds.x,
                raster_size(*image) == size,
                raster_samples(*image) == blend_points(start, size, before + row_shape(m, bounds.x as int, y as int, x - bounds.x), color@),
            decreases right - x,
        {
            let ghost done = before + row_shape(m, bounds.x as int, y as int, x - bounds.x);
            if mask.get(x, y) {
                fill_mask_pixel(image, x, y, color);
                proof {
                    lemma_blend_points_push(start, size, done, (x as int, y as int), color@);
                    assert(before + row_shape(m, bounds.x as int, y as int, x - bounds.x + 1) =~= done.push((x as int, y as int)));
                }
            } else {
                proof {
                    assert(before + row_shape(m, bounds.x as int, y as int, x - bounds.x + 1) =~= done);
                }
            }
            x += 1;
        }
        proof {
            assert(shape_rows(m, bounds.x as int, columns, bounds.y as int, y - bounds.y + 1) =~= before + row_shape(
                m,
                bounds.x as int,
                y as int,
                columns,
            ));
        }
        y += 1;
    }
}

fn shade_findings(image: &mut RasterImage, findings: &[Annotation], expected_residual: &Mask, actual_residual: &Mask)
    requires
        expected_residual.wf(),
        actual_residual.wf(),
    ensures
        raster_size(*final(image)) == raster_size(*old(image)),
        raster_samples(*final(image)) == shaded(
            raster_samples(*old(image)),
            raster_size(*old(image)),
            findings@,
            expected_residual.model(),
            actual_residual.model(),
            findings@.len() as int,
        ),
{
    let ghost start = raster_samples(*image);
    let ghost size = raster_size(*image);
    let shade_rgba: [u8; 4] = [220, 50, 50, 96];
    assert(shade_rgba@ =~= shade_color());
    let mut k: usize = 0;
    while k < findings.len()
        invariant
            k <= findings@.len(),
            expected_residual.wf(),
            actual_residual.wf(),
            shade_rgba@ == shade_color(),
            raster_size(*image) == size,
            raster_samples(*image) == shaded(start, size, findings@, expected_residual.model(), actual_residual.model(), k as int),
        decreases findings@.len() - k,
    {
        let finding = findings[k];
        if finding.kind == DifferenceKind::Changed {
            match finding.expected_bounds {
                Some(b) => shade(image, expected_residual, b, shade_rgba),
                None => match finding.actual_bounds {
                    Some(b) => shade(image, actual_residual, b, shade_rgba),
                    None => {},
                },
            }
        }
        k += 1;
    }
}

fn outline_findings(image: &mut RasterImage, findings: &[Annotation])
    ensures
        raster_size(*final(image)) == raster_size(*old(image)),
        raster_samples(*final(image)) == outlined(
            raster_samples(*old(image)),
            raster_size(*old(image)),
            findings@,
            findings@.len() as int,
        ),
{
    let ghost start = raster_samples(*image);
    let ghost size = raster_size(*image);
    let mut k: usize = 0;
    while k < findings.len()
        invariant
            k <= findings@.len(),
            raster_size(*image) == size,
            raster_samples(*image) == outlined(start, size, findings@, k as int),
        decreases findings@.len() - k,
    {
        let finding = findings[k];
        let color = kind_color(finding.kind);
        if let Some(b) = finding.expected_bounds {
            rectangle(image, b, color, true);
        }
        if let Some(b) = finding.actual_bounds {
            rectangle(image, b, color, false);
        }
        if finding.kind == DifferenceKind::Moved {
            if let (Some(e), Some(a)) = (finding.expected_bounds, finding.actual_bounds) {
                arrow(image, e.center(), a.center(), color);
            }
        }
        let (x, y) = match finding.actual_bounds {
            Some(b) => label_origin(b),
            None => match finding.expected_bounds {
                Some(b) => label_origin(b),
                None => (2, 2),
            },
        };
        let label = finding_label(k as u64, &finding);
        text(image, x, y, label.as_str(), color);
        k += 1;
    }
}

fn frame_canvases(image: &mut RasterImage, expected: ImageDimensions, actual: ImageDimensions)
    ensures
        raster_size(*final(image)) == raster_size(*old(image)),
        raster_samples(*final(image)) == canvas_frames(raster_samples(*old(image)), raster_size(*old(image)), expected, actual),
{
    if expected.width != actual.width || expected.height != actual.height {
        let gray = kind_color(DifferenceKind::CanvasSize);
        rectangle(image, Bounds { x: 0, y: 0, width: expected.width, height: expected.height }, gray, true);
        rectangle(image, Bounds { x: 0, y: 0, width: actual.width, height: actual.height }, gray, false);
    }
}

fn frame_region(image: &mut RasterImage, region: Option<Bounds>)
    ensures
        raster_size(*final(image)) == raster_size(*old(image)),
        raster_samples(*final(image)) == framed(raster_samples(*old(image)), raster_size(*old(image)), region),
{
    if let Some(r) = region {
        let cyan: [u8; 4] = [0, 180, 210, 255];
        assert(cyan@ =~= region_color());
        rectangle(image, r, cyan, true);
    }
}

/// Annotates rendered artifacts with the findings in report order: each source image gets the
/// outlines and labels of the regions on its side; the diagnostic canvas gets the canvas
/// outlines when the canvases differ, the changed pixels of changed regions shaded, every
/// finding's outlines (expected dashed, actual solid), movement arrows and labels; all three
/// get the comparison region's dashed outline last.
pub fn annotate_artifacts(
    rendered: &mut RenderedArtifacts,
    findings: &[Annotation],
    expected_size: ImageDimensions,
    actual_size: ImageDimensions,
    expected_residual: &Mask,
    actual_residual: &Mask,
    region: Option<Bounds>,
)
    requires
        expected_residual.wf(),
        actual_residual.wf(),
    ensures
        raster_size(final(rendered).expected) == raster_size(old(rendered).expected),
        raster_size(final(rendered).actual) == raster_size(old(rendered).actual),
        raster_size(final(rendered).diff) == raster_size(old(rendered).diff),
        raster_samples(final(rendered).expected) == framed(
            marked_source(
                raster_samples(old(rendered).expected),
                raster_size(old(rendered).expected),
                findings@,
                true,
                findings@.len() as int,
            ),
            raster_size(old(rendered).expected),
            region,
        ),
        raster_samples(final(rendered).actual) == framed(
            marked_source(
                raster_samples(old(rendered).actual),
                raster_size(old(rendered).actual),
                findings@,
                false,
                findings@.len() as int,
            ),
            raster_size(old(rendered).actual),
            region,
        ),
        raster_samples(final(rendered).diff) == ({
            let size = raster_size(old(rendered).diff);
            framed(
                outlined(
                    shaded(
                        canvas_frames(raster_samples(old(rendered).diff), size, expected_size, actual_size),
                        size,
                        findings@,
                        expected_residual.model(),
                        actual_residual.model(),
                        findings@.len() as int,
                    ),
                    size,
                    findings@,
                    findings@.len() as int,
                ),
                size,
                region,
            )
        }),
{
    mark_source(&mut rendered.expected, findings, true);
    frame_region(&mut rendered.expected, region);
    mark_source(&mut rendered.actual, findings, false);
    frame_region(&mut rendered.actual, region);
    frame_canvases(&mut rendered.diff, expected_size, actual_size);
    shade_findings(&mut rendered.diff, findings, expected_residual, actual_residual);
    outline_findings(&mut rendered.diff, findings);
    frame_region(&mut rendered.diff, region);
}

} // verus!
