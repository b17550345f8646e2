use vstd::prelude::*;

use crate::raster::{RasterImage, pixel_of, raster_samples, raster_size, with_pixel};
use crate::report::{Bounds, ImageDimensions, RenderError};
use crate::geometry::saturate;
use crate::annotate::{Annotation, annotate_artifacts, canvas_frames, framed, marked_source, outlined, shaded};
use crate::mask::Mask;

verus! {

/// Largest diagnostic canvas, in pixels, that rendering allocates.
pub const MAX_RENDER_PIXELS: u64 = 100_000_000;

/// Three in-memory images: the two sources and a white diagnostic canvas.
pub struct RenderedArtifacts {
    /// Expected source image.
    pub expected: RasterImage,
    /// Actual source image.
    pub actual: RasterImage,
    /// White-background diagnostic canvas covering both sources.
    pub diff: RasterImage,
}

/// The bytes of a white canvas.
pub open spec fn white_canvas(width: int, height: int) -> Seq<u8> {
    Seq::new((4 * width * height) as nat, |i: int| 255u8)
}

/// Renders the annotated artifacts of a comparison: copies of both sources with the regions of
/// their side outlined and labelled, and a white diagnostic canvas as large as both carrying the
/// canvas outlines, the shaded changed pixels, every finding's outlines, arrows and labels; all
/// three get the comparison region's outline (see `annotate_artifacts`).
///
/// Fails with `ComparisonImageMismatch` when the recorded dimensions are not those of the
/// images, and with `ImageTooLarge` when the canvas would exceed `MAX_RENDER_PIXELS` or a row of
/// it would not fit `usize`.
pub fn render_artifacts(
    expected: &RasterImage,
    actual: &RasterImage,
    expected_dimensions: ImageDimensions,
    actual_dimensions: ImageDimensions,
    findings: &[Annotation],
    expected_residual: &Mask,
    actual_residual: &Mask,
    region: Option<Bounds>,
) -> (result: Result<RenderedArtifacts, RenderError>)
    requires
        expected_residual.wf(),
        actual_residual.wf(),
    ensures
        ({
            let e = raster_size(*expected);
            let a = raster_size(*actual);
            let width: int = if e.0 >= a.0 { e.0 as int } else { a.0 as int };
            let height: int = if e.1 >= a.1 { e.1 as int } else { a.1 as int };
            let size = (width as u32, height as u32);
            let matches = expected_dimensions.width == e.0 && expected_dimensions.height == e.1
                && actual_dimensions.width == a.0 && actual_dimensions.height == a.1;
            &&& (result == Err::<RenderedArtifacts, RenderError>(RenderError::ComparisonImageMismatch)) <==> !matches
            &&& (result == Err::<RenderedArtifacts, RenderError>(RenderError::ImageTooLarge)) <==> (matches && (width
                * height > MAX_RENDER_PIXELS || 4 * width > usize::MAX))
            &&& result matches Ok(artifacts) ==> {
                &&& raster_size(artifacts.expected) == e
                &&& raster_samples(artifacts.expected) == framed(
                    marked_source(raster_samples(*expected), e, findings@, true, findings@.len() as int),
                    e,
                    region,
                )
                &&& raster_size(artifacts.actual) == a
                &&& raster_samples(artifacts.actual) == framed(
                    marked_source(raster_samples(*actual), a, findings@, false, findings@.len() as int),
                    a,
                    region,
                )
                &&& raster_size(artifacts.diff) == size
                &&& raster_samples(artifacts.diff) == framed(
                    outlined(
                        shaded(
                            canvas_frames(white_canvas(width, height), size, expected_dimensions, actual_dimensions),
                            size,
                            findings@,
                            expected_residual.model(),
                            actual_residual.model(),
                            findings@.len() as int,
                        ),
                        size,
                        findings@,
                        findings@.len() as int,
                    ),
                    size,
                    region,
                )
            }
        }),
{
    let expected_width = expected.width();
    let expected_height = expected.height();
    let actual_width = actual.width();
    let actual_height = actual.height();
    if expected_dimensions.width != expected_width || expected_dimensions.height != expected_height
        || actual_dimensions.width != actual_width || actual_dimensions.height != actual_height {
        return Err(RenderError::ComparisonImageMismatch);
    }
    let width = if expected_width >= actual_width { expected_width } else { actual_width };
    let height = if expected_height >= actual_height { expected_height } else { actual_height };
    proof {
        crate::mask::lemma_u32_product_fits(width, height);
    }
    let pixels: u64 = width as u64 * height as u64;
    if pixels > MAX_RENDER_PIXELS || width as u64 > (usize::MAX / 4) as u64 {
        return Err(RenderError::ImageTooLarge);
    }
    assert(4 * width * height <= isize::MAX) by (nonlinear_arith)
        requires
            pixels == width * height,
            pixels <= MAX_RENDER_PIXELS,
            isize::MAX >= 0x7fff_ffff,
    ;
    let white: [u8; 4] = [255, 255, 255, 255];
    let diff = RasterImage::filled(width, height, white);
    proof {
        assert(raster_samples(diff) =~= white_canvas(width as int, height as int));
    }
    let mut rendered = RenderedArtifacts { expected: expected.duplicate(), actual: actual.duplicate(), diff };
    annotate_artifacts(
        &mut rendered,
        findings,
        expected_dimensions,
        actual_dimensions,
        expected_residual,
        actual_residual,
        region,
    );
    Ok(rendered)
}

/// One channel of `color` composited over `destination` with the given opacity, rounded.
pub open spec fn blend_channel(color: u8, destination: u8, alpha: u8) -> u8 {
    ((color * alpha + destination * (255 - alpha) + 127) / 255) as u8
}

/// `color` composited over an opaque pixel: each color channel blended by the color's alpha,
/// the result fully opaque.
pub open spec fn blended(destination: Seq<u8>, color: Seq<u8>) -> Seq<u8> {
    seq![
        blend_channel(color[0], destination[0], color[3]),
        blend_channel(color[1], destination[1], color[3]),
        blend_channel(color[2], destination[2], color[3]),
        255u8,
    ]
}

/// The raster bytes after compositing `color` at `(x, y)`; unchanged off the canvas.
pub open spec fn blend_at(samples: Seq<u8>, size: (u32, u32), x: int, y: int, color: Seq<u8>) -> Seq<u8> {
    if 0 <= x < size.0 && 0 <= y < size.1 {
        with_pixel(samples, size.0 as int, x, y, blended(pixel_of(samples, size.0 as int, x, y), color))
    } else {
        samples
    }
}

/// Composites `color` over the pixel at `(x, y)`, ignoring coordinates off the canvas.
pub fn blend_pixel(image: &mut RasterImage, x: i64, y: i64, color: [u8; 4])
    ensures
        raster_size(*final(image)) == raster_size(*old(image)),
        raster_samples(*final(image)) == blend_at(raster_samples(*old(image)), raster_size(*old(image)), x as int, y as int, color@),
{
    if x < 0 || y < 0 || x >= image.width() as i64 || y >= image.height() as i64 {
        return;
    }
    let px = x as u32;
    let py = y as u32;
    let destination = image.pixel(px, py);
    let alpha: u16 = color[3] as u16;
    let inverse: u16 = 255 - alpha;
    let mut result: [u8; 4] = [0, 0, 0, 255];
    let mut channel: usize = 0;
    while channel < 3
        invariant
            channel <= 3,
            alpha == color@[3],
            inverse == 255 - alpha,
            result@.len() == 4,
            result@[3] == 255,
            forall|c: int| 0 <= c < channel ==> #[trigger] result@[c] == blend_channel(color@[c], destination@[c], color@[3]),
        decreases 3 - channel,
    {
        assert(color@[channel as int] * alpha <= 255 * 255) by (nonlinear_arith)
            requires
                color@[channel as int] <= 255,
                alpha <= 255,
        ;
        assert(destination@[channel as int] * inverse <= 255 * (255 - alpha)) by (nonlinear_arith)
            requires
                destination@[channel as int] <= 255,
                inverse == 255 - alpha,
                alpha <= 255,
        ;
        assert(color@[channel as int] * alpha + destination@[channel as int] * inverse <= 255 * 255) by (nonlinear_arith)
            requires
                color@[channel as int] <= 255,
                destination@[channel as int] <= 255,
                inverse == 255 - alpha,
                alpha <= 255,
        ;
        let value: u16 = color[channel] as u16 * alpha + destination[channel] as u16 * inverse;
        let rounded: u16 = (value + 127) / 255;
        result[channel] = rounded as u8;
        channel += 1;
    }
    proof {
        assert(result@ =~= blended(destination@, color@));
    }
    image.set_pixel(px, py, result);
}

/// The raster bytes after compositing `color` at each point in turn.
pub open spec fn blend_points(samples: Seq<u8>, size: (u32, u32), points: Seq<(int, int)>, color: Seq<u8>) -> Seq<u8>
    decreases points.len(),
{
    if points.len() == 0 {
        samples
    } else {
        blend_points(blend_at(samples, size, points[0].0, points[0].1, color), size, points.drop_first(), color)
    }
}

/// Compositing two point lists in turn composites their concatenation.
pub proof fn lemma_blend_points_concat(samples: Seq<u8>, size: (u32, u32), a: Seq<(int, int)>, b: Seq<(int, int)>, color: Seq<u8>)
    ensures
        blend_points(samples, size, a + b, color) == blend_points(blend_points(samples, size, a, color), size, b, color),
    decreases a.len(),
{
    if a.len() > 0 {
        assert((a + b).drop_first() =~= a.drop_first() + b);
        lemma_blend_points_concat(blend_at(samples, size, a[0].0, a[0].1, color), size, a.drop_first(), b, color);
    } else {
        assert(a + b =~= b);
    }
}

/// Compositing a point list with one more point composites that point last.
pub proof fn lemma_blend_points_push(samples: Seq<u8>, size: (u32, u32), a: Seq<(int, int)>, p: (int, int), color: Seq<u8>)
    ensures
        blend_points(samples, size, a.push(p), color) == blend_at(blend_points(samples, size, a, color), size, p.0, p.1, color),
{
    lemma_blend_points_concat(samples, size, a, seq![p], color);
    assert(a.push(p) =~= a + seq![p]);
    assert(seq![p].drop_first() =~= Seq::<(int, int)>::empty());
    let middle = blend_points(samples, size, a, color);
    let last = blend_at(middle, size, p.0, p.1, color);
    assert(blend_points(middle, size, seq![p], color) == blend_points(last, size, seq![p].drop_first(), color));
    assert(blend_points(last, size, Seq::<(int, int)>::empty(), color) == last);
}

/// A stroke pixel `position` pixels along an edge is drawn: always when solid, in runs of four
/// every eight pixels when dashed.
pub open spec fn spec_stroke_visible(position: int, dashed: bool) -> bool {
    !dashed || position % 8 < 4
}

/// Whether the stroke pixel at `position` along an edge is drawn.
pub fn stroke_visible(position: i64, dashed: bool) -> (result: bool)
    ensures
        result == spec_stroke_visible(position as int, dashed),
{
    !dashed || position % 8 < 4 && position >= 0 || position < 0 && ((position % 8) + 8) % 8 < 4
}

/// Points of one horizontal pass of a rectangle outline: for each of the first `n` columns from
/// `left`, the top and bottom edge pixels `thickness` pixels inside, when visible.
pub open spec fn horizontal_pass(left: int, top: int, bottom: int, thickness: int, dashed: bool, n: int) -> Seq<(int, int)>
    decreases n,
{
    if n <= 0 {
        seq![]
    } else {
        let previous = horizontal_pass(left, top, bottom, thickness, dashed, n - 1);
        if spec_stroke_visible(n - 1, dashed) {
            previous.push((left + n - 1, top + thickness)).push((left + n - 1, bottom - thickness))
        } else {
            previous
        }
    }
}

/// Points of one vertical pass of a rectangle outline: for each of the first `n` rows from
/// `top`, the left and right edge pixels `thickness` pixels inside, when visible.
pub open spec fn vertical_pass(left: int, right: int, top: int, thickness: int, dashed: bool, n: int) -> Seq<(int, int)>
    decreases n,
{
    if n <= 0 {
        seq![]
    } else {
        let previous = vertical_pass(left, right, top, thickness, dashed, n - 1);
        if spec_stroke_visible(n - 1, dashed) {
            previous.push((left + thickness, top + n - 1)).push((right - thickness, top + n - 1))
        } else {
            previous
        }
    }
}

/// The points of a two-pixel rectangle outline clipped to a `width` by `height` canvas, in
/// drawing order: for each thickness, the horizontal edges then the vertical edges.
pub open spec fn rectangle_points(bounds: Bounds, width: u32, height: u32, dashed: bool) -> Seq<(int, int)> {
    let left = if bounds.x <= width { bounds.x as int } else { width as int };
    let top = if bounds.y <= height { bounds.y as int } else { height as int };
    let right_end = if saturate(bounds.spec_right()) <= width { saturate(bounds.spec_right()) } else { width as int };
    let bottom_end = if saturate(bounds.spec_bottom()) <= height { saturate(bounds.spec_bottom()) } else { height as int };
    if bounds.width == 0 || bounds.height == 0 || width == 0 || height == 0 || left >= right_end || top >= bottom_end {
        seq![]
    } else {
        let right = right_end - 1;
        let bottom = bottom_end - 1;
        horizontal_pass(left, top, bottom, 0, dashed, right - left + 1) + vertical_pass(left, right, top, 0, dashed, bottom - top + 1)
            + horizontal_pass(left, top, bottom, 1, dashed, right - left + 1) + vertical_pass(left, right, top, 1, dashed, bottom - top + 1)
    }
}

/// Draws a two-pixel rectangle outline, solid or dashed, clipped to the canvas.
pub fn rectangle(image: &mut RasterImage, bounds: Bounds, color: [u8; 4], dashed: bool)
    ensures
        raster_size(*final(image)) == raster_size(*old(image)),
        raster_samples(*final(image)) == blend_points(
            raster_samples(*old(image)),
            raster_size(*old(image)),
            rectangle_points(bounds, raster_size(*old(image)).0, raster_size(*old(image)).1, dashed),
            color@,
        ),
{
    let ghost start = raster_samples(*image);
    let ghost size = raster_size(*image);
    let width = image.width();
    let height = image.height();
    let ghost points = rectangle_points(bounds, width, height, dashed);
    if bounds.width == 0 || bounds.height == 0 || width == 0 || height == 0 {
        return;
    }
    let left = if bounds.x <= width { bounds.x } else { width };
    let top = if bounds.y <= height { bounds.y } else { height };
    let right_end = if bounds.right() <= width { bounds.right() } else { width };
    let bottom_end = if bounds.bottom() <= height { bounds.bottom() } else { height };
    if left >= right_end || top >= bottom_end {
        return;
    }
    let left = left as i64;
    let top = top as i64;
    let right = (right_end - 1) as i64;
    let bottom = (bottom_end - 1) as i64;
    let ghost mut done: Seq<(int, int)> = seq![];
    let mut thickness: i64 = 0;
    while thickness < 2
        invariant
            0 <= thickness <= 2,
            0 <= left <= right < u32::MAX,
            0 <= top <= bottom < u32::MAX,
            raster_size(*image) == size,
            done == if thickness == 0 {
                seq![]
            } else if thickness == 1 {
                horizontal_pass(left as int, top as int, bottom as int, 0, dashed, right - left + 1) + vertical_pass(
                    left as int,
                    right as int,
                    top as int,
                    0,
                    dashed,
                    bottom - top + 1,
                )
            } else {
                points
            },
            points == horizontal_pass(left as int, top as int, bottom as int, 0, dashed, right - left + 1) + vertical_pass(
                left as int,
                right as int,
                top as int,
                0,
                dashed,
                bottom - top + 1,
            ) + horizontal_pass(left as int, top as int, bottom as int, 1, dashed, right - left + 1) + vertical_pass(
                left as int,
                right as int,
                top as int,
                1,
                dashed,
                bottom - top + 1,
            ),
            raster_samples(*image) == blend_points(start, size, done, color@),
        decreases 2 - thickness,
    {
        let ghost before_pass = done;
        let mut x = left;
        while x <= right
            invariant
                left <= x <= right + 1,
                0 <= left <= right < u32::MAX,
                0 <= top <= bottom < u32::MAX,
                0 <= thickness < 2,
                raster_size(*image) == size,
                done == before_pass + horizontal_pass(left as int, top as int, bottom as int, thickness as int, dashed, x - left),
                raster_samples(*image) == blend_points(start, size, done, color@),
            decreases right + 1 - x,
        {
            if stroke_visible(x - left, dashed) {
                blend_pixel(image, x, top + thickness, color);
                blend_pixel(image, x, bottom - thickness, color);
                proof {
                    lemma_blend_points_push(start, size, done, (x as int, (top + thickness) as int), color@);
                    lemma_blend_points_push(start, size, done.push((x as int, (top + thickness) as int)), (x as int, (bottom - thickness) as int), color@);
                    done = done.push((x as int, (top + thickness) as int)).push((x as int, (bottom - thickness) as int));
                }
            }
            proof {
                assert(before_pass + horizontal_pass(left as int, top as int, bottom as int, thickness as int, dashed, x - left + 1) =~= done);
            }
            x += 1;
        }
        let ghost middle = done;
        let mut y = top;
        while y <= bottom
            invariant
                top <= y <= bottom + 1,
                0 <= left <= right < u32::MAX,
                0 <= top <= bottom < u32::MAX,
                0 <= thickness < 2,
                raster_size(*image) == size,
                done == middle + vertical_pass(left as int, right as int, top as int, thickness as int, dashed, y - top),
                raster_samples(*image) == blend_points(start, size, done, color@),
            decreases bottom + 1 - y,
        {
            if stroke_visible(y - top, dashed) {
                blend_pixel(image, left + thickness, y, color);
                blend_pixel(image, right - thickness, y, color);
                proof {
                    lemma_blend_points_push(start, size, done, ((left + thickness) as int, y as int), color@);
                    lemma_blend_points_push(start, size, done.push(((left + thickness) as int, y as int)), ((right - thickness) as int, y as int), color@);
                    done = done.push(((left + thickness) as int, y as int)).push(((right - thickness) as int, y as int));
                }
            }
            proof {
                assert(middle + vertical_pass(left as int, right as int, top as int, thickness as int, dashed, y - top + 1) =~= done);
            }
            y += 1;
        }
        proof {
            if thickness == 0 {
                assert(done =~= horizontal_pass(left as int, top as int, bottom as int, 0, dashed, right - left + 1) + vertical_pass(
                    left as int,
                    right as int,
                    top as int,
                    0,
                    dashed,
                    bottom - top + 1,
                ));
            } else {
                assert(done =~= points);
            }
        }
        thickness += 1;
    }
}

/// Paints one mask cell onto an image.
pub fn fill_mask_pixel(image: &mut RasterImage, x: u32, y: u32, color: [u8; 4])
    ensures
        raster_size(*final(image)) == raster_size(*old(image)),
        raster_samples(*final(image)) == blend_at(raster_samples(*old(image)), raster_size(*old(image)), x as int, y as int, color@),
{
    blend_pixel(image, x as i64, y as i64, color);
}

/// A coordinate clamped into the `u32` range.
pub fn clamped_coordinate(value: i64) -> (result: u32)
    ensures
        result == if value < 0 { 0 } else if value > u32::MAX { u32::MAX as int } else { value as int },
{
    if value < 0 {
        0
    } else if value > u32::MAX as i64 {
        u32::MAX
    } else {
        value as u32
    }
}

/// The pixels a line walks through from `(x, y)` to `(end_x, end_y)`: the current pixel, then,
/// while the end is not reached, a step along x when twice the error is at least `delta_y` and
/// a step along y when it is at most `delta_x`, the error tracking the distance to the ideal
/// line. `fuel` bounds the number of steps.
pub open spec fn line_walk(
    x: int,
    y: int,
    error: int,
    end_x: int,
    end_y: int,
    delta_x: int,
    delta_y: int,
    step_x: int,
    step_y: int,
    fuel: nat,
) -> Seq<(int, int)>
    decreases fuel,
{
    if (x == end_x && y == end_y) || fuel == 0 {
        seq![(x, y)]
    } else {
        let doubled = 2 * error;
        let next_x = if doubled >= delta_y { x + step_x } else { x };
        let after_x = if doubled >= delta_y { error + delta_y } else { error };
        let next_y = if doubled <= delta_x { y + step_y } else { y };
        let after_y = if doubled <= delta_x { after_x + delta_x } else { after_x };
        seq![(x, y)] + line_walk(next_x, next_y, after_y, end_x, end_y, delta_x, delta_y, step_x, step_y, (fuel - 1) as nat)
    }
}

/// The pixels of a line between two points, each clamped onto a non-empty `width` by `height`
/// canvas.
#[verifier::opaque]
pub open spec fn line_points(start: (u32, u32), end: (u32, u32), width: u32, height: u32) -> Seq<(int, int)> {
    if width == 0 || height == 0 {
        seq![]
    } else {
        let x0: int = if start.0 <= width - 1 { start.0 as int } else { width - 1 };
        let y0: int = if start.1 <= height - 1 { start.1 as int } else { height - 1 };
        let x1: int = if end.0 <= width - 1 { end.0 as int } else { width - 1 };
        let y1: int = if end.1 <= height - 1 { end.1 as int } else { height - 1 };
        let delta_x = if x1 >= x0 { x1 - x0 } else { x0 - x1 };
        let delta_y = if y1 >= y0 { y0 - y1 } else { y1 - y0 };
        let step_x: int = if x0 < x1 { 1 } else { -1 };
        let step_y: int = if y0 < y1 { 1 } else { -1 };
        line_walk(x0, y0, delta_x + delta_y, x1, y1, delta_x, delta_y, step_x, step_y, (delta_x - delta_y) as nat)
    }
}

proof fn lemma_line_step(dx: int, b: int, i: int, j: int, error: int)
    requires
        dx >= 0,
        b >= 0,
        0 <= i <= dx,
        0 <= j <= b,
        error == dx - b + j * dx - i * b,
        !(i == dx && j == b),
    ensures
        2 * error >= -b ==> i < dx,
        2 * error <= dx ==> j < b,
        2 * error >= -b || 2 * error <= dx,
        (i + 1) * b == i * b + b,
        (j + 1) * dx == j * dx + dx,
{
    assert((i + 1) * b == i * b + b) by (nonlinear_arith);
    assert((j + 1) * dx == j * dx + dx) by (nonlinear_arith);
    if i == dx {
        assert(j * dx <= (b - 1) * dx) by (nonlinear_arith)
            requires
                j <= b - 1,
                dx >= 0,
        ;
        assert((b - 1) * dx == b * dx - dx) by (nonlinear_arith);
        assert(i * b == dx * b) by (nonlinear_arith)
            requires
                i == dx,
        ;
        assert(b * dx == dx * b) by (nonlinear_arith);
    }
    if j == b {
        assert(i * b <= (dx - 1) * b) by (nonlinear_arith)
            requires
                i <= dx - 1,
                b >= 0,
        ;
        assert((dx - 1) * b == dx * b - b) by (nonlinear_arith);
        assert(j * dx == b * dx) by (nonlinear_arith)
            requires
                j == b,
        ;
        assert(b * dx == dx * b) by (nonlinear_arith);
    }
}

/// Draws a one-pixel line between two points clamped onto the canvas.
pub fn line(image: &mut RasterImage, start: (u32, u32), end: (u32, u32), color: [u8; 4])
    ensures
        raster_size(*final(image)) == raster_size(*old(image)),
        raster_samples(*final(image)) == blend_points(
            raster_samples(*old(image)),
            raster_size(*old(image)),
            line_points(start, end, raster_size(*old(image)).0, raster_size(*old(image)).1),
            color@,
        ),
{
    reveal(line_points);
    let ghost samples0 = raster_samples(*image);
    let ghost size = raster_size(*image);
    let width = image.width();
    let height = image.height();
    if width == 0 || height == 0 {
        return;
    }
    let mut x: i64 = if start.0 <= width - 1 { start.0 as i64 } else { (width - 1) as i64 };
    let mut y: i64 = if start.1 <= height - 1 { start.1 as i64 } else { (height - 1) as i64 };
    let end_x: i64 = if end.0 <= width - 1 { end.0 as i64 } else { (width - 1) as i64 };
    let end_y: i64 = if end.1 <= height - 1 { end.1 as i64 } else { (height - 1) as i64 };
    let delta_x: i64 = if end_x >= x { end_x - x } else { x - end_x };
    let step_x: i64 = if x < end_x { 1 } else { -1 };
    let delta_y: i64 = if end_y >= y { y - end_y } else { end_y - y };
    let step_y: i64 = if y < end_y { 1 } else { -1 };
    let mut error: i64 = delta_x + delta_y;
    let ghost x0 = x;
    let ghost y0 = y;
    let ghost b = -delta_y;
    let ghost full = line_points(start, end, width, height);
    let ghost mut fuel: nat = (delta_x - delta_y) as nat;
    let ghost mut i: int = 0;
    let ghost mut j: int = 0;
    let ghost mut done: Seq<(int, int)> = seq![];
    assert(full == done + line_walk(x as int, y as int, error as int, end_x as int, end_y as int, delta_x as int, delta_y as int, step_x as int, step_y as int, fuel));
    loop
        invariant_except_break
            full == done + line_walk(x as int, y as int, error as int, end_x as int, end_y as int, delta_x as int, delta_y as int, step_x as int, step_y as int, fuel),
            raster_samples(*image) == blend_points(samples0, size, done, color@),
        invariant
            raster_size(*image) == size,
            size == (width, height),
            0 <= x0 < width,
            0 <= y0 < height,
            0 <= end_x < width,
            0 <= end_y < height,
            delta_x == if end_x >= x0 { end_x - x0 } else { x0 - end_x },
            b == -delta_y,
            b == if end_y >= y0 { end_y - y0 } else { y0 - end_y },
            step_x == if x0 < end_x { 1int } else { -1int },
            step_y == if y0 < end_y { 1int } else { -1int },
            0 <= i <= delta_x,
            0 <= j <= b,
            x == if x0 < end_x { x0 + i } else { x0 - i },
            y == if y0 < end_y { y0 + j } else { y0 - j },
            error == delta_x - b + j * delta_x - i * b,
            -2 * b <= error <= 2 * delta_x,
            fuel >= (delta_x - i) + (b - j),
        ensures
            raster_size(*image) == size,
            raster_samples(*image) == blend_points(samples0, size, full, color@),
        decreases (delta_x - i) + (b - j),
    {
        blend_pixel(image, x, y, color);
        proof {
            lemma_blend_points_push(samples0, size, done, (x as int, y as int), color@);
        }
        if x == end_x && y == end_y {
            proof {
                done = done.push((x as int, y as int));
                assert(full =~= done);
            }
            break;
        }
        proof {
            if x0 < end_x {
                assert(i == delta_x ==> x == end_x);
            } else {
                assert(i == delta_x ==> x == end_x);
            }
            if y0 < end_y {
                assert(j == b ==> y == end_y);
            } else {
                assert(j == b ==> y == end_y);
            }
            lemma_line_step(delta_x as int, b, i, j, error as int);
            let rest = line_walk(x as int, y as int, error as int, end_x as int, end_y as int, delta_x as int, delta_y as int, step_x as int, step_y as int, fuel);
            assert(fuel > 0);
            done = done.push((x as int, y as int));
        }
        let doubled = error * 2;
        let ghost old_fuel = fuel;
        let ghost old_full_rest_x = x;
        let ghost old_full_rest_y = y;
        let ghost old_error = error;
        if doubled >= delta_y {
            error += delta_y;
            x += step_x;
            proof {
                i = i + 1;
            }
        }
        if doubled <= delta_x {
            error += delta_x;
            y += step_y;
            proof {
                j = j + 1;
            }
        }
        proof {
            fuel = (fuel - 1) as nat;
            assert(line_walk(old_full_rest_x as int, old_full_rest_y as int, old_error as int, end_x as int, end_y as int, delta_x as int, delta_y as int, step_x as int, step_y as int, (fuel + 1) as nat)
                == seq![(old_full_rest_x as int, old_full_rest_y as int)] + line_walk(x as int, y as int, error as int, end_x as int, end_y as int, delta_x as int, delta_y as int, step_x as int, step_y as int, fuel));
            assert(full =~= done + line_walk(x as int, y as int, error as int, end_x as int, end_y as int, delta_x as int, delta_y as int, step_x as int, step_y as int, fuel));
        }
    }
}

/// Integer division rounding toward zero, for a positive divisor.
pub open spec fn quotient_toward_zero(a: int, b: int) -> int {
    if a >= 0 { a / b } else { -((-a) / b) }
}

/// A coordinate clamped into the `u32` range.
pub open spec fn spec_clamped_coordinate(value: int) -> u32 {
    if value < 0 { 0 } else if value > u32::MAX { u32::MAX } else { value as u32 }
}

/// The two barb tips of an arrow head at `end`: six pixels back along the shaft and three to
/// either side, scaled by the shaft's longer axis.
pub open spec fn arrow_barbs(start: (u32, u32), end: (u32, u32)) -> ((u32, u32), (u32, u32)) {
    let delta_x = end.0 - start.0;
    let delta_y = end.1 - start.1;
    let ax = if delta_x < 0 { -delta_x } else { delta_x };
    let ay = if delta_y < 0 { -delta_y } else { delta_y };
    let length = if ax >= ay { if ax >= 1 { ax } else { 1 } } else { ay };
    let backward_x = quotient_toward_zero((-delta_x) * 6, length);
    let backward_y = quotient_toward_zero((-delta_y) * 6, length);
    let perpendicular_x = quotient_toward_zero((-delta_y) * 3, length);
    let perpendicular_y = quotient_toward_zero(delta_x * 3, length);
    (
        (
            spec_clamped_coordinate(end.0 + backward_x + perpendicular_x),
            spec_clamped_coordinate(end.1 + backward_y + perpendicular_y),
        ),
        (
            spec_clamped_coordinate(end.0 + backward_x - perpendicular_x),
            spec_clamped_coordinate(end.1 + backward_y - perpendicular_y),
        ),
    )
}

/// The pixels of an arrow: its shaft, then, unless the arrow has no length, its two barbs.
pub open spec fn arrow_points(start: (u32, u32), end: (u32, u32), width: u32, height: u32) -> Seq<(int, int)> {
    if start == end {
        line_points(start, end, width, height)
    } else {
        line_points(start, end, width, height) + line_points(end, arrow_barbs(start, end).0, width, height)
            + line_points(end, arrow_barbs(start, end).1, width, height)
    }
}

/// `value * factor / length`, rounded toward zero, for `|value| <= length`.
fn scaled_share(value: i64, factor: i64, length: i64) -> (result: i64)
    requires
        -length <= value <= length,
        1 <= length <= 0x1_0000_0000,
        0 <= factor <= 6,
    ensures
        result == quotient_toward_zero(value * factor, length as int),
        -factor <= result <= factor,
{
    assert(-(length * factor) <= value * factor <= length * factor) by (nonlinear_arith)
        requires
            -length <= value <= length,
            0 <= factor,
    ;
    assert(length * factor <= 6 * 0x1_0000_0000) by (nonlinear_arith)
        requires
            1 <= length <= 0x1_0000_0000,
            0 <= factor <= 6,
    ;
    let product = value * factor;
    if product >= 0 {
        assert(product / length <= factor) by (nonlinear_arith)
            requires
                0 <= product <= length * factor,
                length >= 1,
        ;
        assert(product / length >= 0) by (nonlinear_arith)
            requires
                0 <= product,
                length >= 1,
        ;
        product / length
    } else {
        let magnitude: i64 = -product;
        assert(magnitude / length <= factor) by (nonlinear_arith)
            requires
                0 <= magnitude <= length * factor,
                length >= 1,
        ;
        assert(magnitude / length >= 0) by (nonlinear_arith)
            requires
                0 <= magnitude,
                length >= 1,
        ;
        -(magnitude / length)
    }
}

/// The barb tips of the arrow head at `end` for a shaft from `start`.
fn barb_tips(start: (u32, u32), end: (u32, u32)) -> (result: ((u32, u32), (u32, u32)))
    ensures
        result == arrow_barbs(start, end),
{
    let delta_x: i64 = end.0 as i64 - start.0 as i64;
    let delta_y: i64 = end.1 as i64 - start.1 as i64;
    let ax: i64 = if delta_x < 0 { -delta_x } else { delta_x };
    let ay: i64 = if delta_y < 0 { -delta_y } else { delta_y };
    let length: i64 = if ax >= ay { if ax >= 1 { ax } else { 1 } } else { ay };
    let backward_x = scaled_share(-delta_x, 6, length);
    let backward_y = scaled_share(-delta_y, 6, length);
    let perpendicular_x = scaled_share(-delta_y, 3, length);
    let perpendicular_y = scaled_share(delta_x, 3, length);
    let end_x = end.0 as i64;
    let end_y = end.1 as i64;
    (
        (
            clamped_coordinate(end_x + backward_x + perpendicular_x),
            clamped_coordinate(end_y + backward_y + perpendicular_y),
        ),
        (
            clamped_coordinate(end_x + backward_x - perpendicular_x),
            clamped_coordinate(end_y + backward_y - perpendicular_y),
        ),
    )
}

/// Draws a line from `start` to `end` with an arrow head at `end`.
pub fn arrow(image: &mut RasterImage, start: (u32, u32), end: (u32, u32), color: [u8; 4])
    ensures
        raster_size(*final(image)) == raster_size(*old(image)),
        raster_samples(*final(image)) == blend_points(
            raster_samples(*old(image)),
            raster_size(*old(image)),
            arrow_points(start, end, raster_size(*old(image)).0, raster_size(*old(image)).1),
            color@,
        ),
{
    let ghost samples0 = raster_samples(*image);
    let ghost size = raster_size(*image);
    line(image, start, end, color);
    if start.0 == end.0 && start.1 == end.1 {
        return;
    }
    let (first, second) = barb_tips(start, end);
    line(image, end, first, color);
    line(image, end, second, color);
    proof {
        let w = size.0;
        let h = size.1;
        lemma_blend_points_concat(samples0, size, line_points(start, end, w, h), line_points(end, first, w, h), color@);
        lemma_blend_points_concat(
            samples0,
            size,
            line_points(start, end, w, h) + line_points(end, first, w, h),
            line_points(end, second, w, h),
            color@,
        );
    }
}

} // verus!
