use vstd::prelude::*;

use image::{Rgba, RgbaImage};

use crate::report::Bounds;

verus! {

/// An RGBA raster held in an `image` crate buffer.
#[verifier::external_body]
pub struct RasterImage {
    image: RgbaImage,
}

/// The channel bytes of a raster in row-major order.
pub uninterp spec fn raster_samples(image: RasterImage) -> Seq<u8>;

/// The width and height a raster was created with.
pub uninterp spec fn raster_size(image: RasterImage) -> (u32, u32);

/// Byte position of pixel `(x, y)` in a raster `width` pixels wide.
pub open spec fn pixel_start(width: int, x: int, y: int) -> int {
    4 * (y * width + x)
}

/// The four channel bytes of pixel `(x, y)`.
pub open spec fn pixel_of(samples: Seq<u8>, width: int, x: int, y: int) -> Seq<u8> {
    samples.subrange(pixel_start(width, x, y), pixel_start(width, x, y) + 4)
}

/// The samples with pixel `(x, y)` replaced by `pixel`.
pub open spec fn with_pixel(samples: Seq<u8>, width: int, x: int, y: int, pixel: Seq<u8>) -> Seq<u8> {
    samples.subrange(0, pixel_start(width, x, y)) + pixel + samples.subrange(
        pixel_start(width, x, y) + 4,
        samples.len() as int,
    )
}

/// `ImageBuffer::width`: the width the image was created with.
#[verifier::external_body]
fn image_width(image: &RasterImage) -> (result: u32)
    ensures
        result == raster_size(*image).0,
{
    image.image.width()
}

/// `ImageBuffer::height`: the height the image was created with.
#[verifier::external_body]
fn image_height(image: &RasterImage) -> (result: u32)
    ensures
        result == raster_size(*image).1,
{
    image.image.height()
}

/// `ImageBuffer::get_pixel` on an RGBA image: the four bytes of the pixel.
#[verifier::external_body]
fn image_get_pixel(image: &RasterImage, x: u32, y: u32) -> (result: [u8; 4])
    requires
        x < raster_size(*image).0,
        y < raster_size(*image).1,
    ensures
        result@ == pixel_of(raster_samples(*image), raster_size(*image).0 as int, x as int, y as int),
{
    image.image.get_pixel(x, y).0
}

/// `ImageBuffer::put_pixel` on an RGBA image: overwrites the four bytes of the pixel.
#[verifier::external_body]
fn image_put_pixel(image: &mut RasterImage, x: u32, y: u32, pixel: [u8; 4])
    requires
        x < raster_size(*old(image)).0,
        y < raster_size(*old(image)).1,
    ensures
        raster_size(*final(image)) == raster_size(*old(image)),
        raster_samples(*final(image)) == with_pixel(
            raster_samples(*old(image)),
            raster_size(*old(image)).0 as int,
            x as int,
            y as int,
            pixel@,
        ),
{
    image.image.put_pixel(x, y, Rgba(pixel));
}

/// `ImageBuffer::from_pixel`: a `width` by `height` image with every pixel set to `color`.
#[verifier::external_body]
fn image_from_pixel(width: u32, height: u32, color: [u8; 4]) -> (result: RasterImage)
    requires
        4 * width <= usize::MAX,
        4 * width * height <= isize::MAX,
    ensures
        raster_size(result) == (width, height),
        raster_samples(result) == Seq::new((4 * width * height) as nat, |i: int| color@[i % 4]),
{
    RasterImage { image: RgbaImage::from_pixel(width, height, Rgba(color)) }
}

/// `ImageBuffer::from_raw`: an image over the given bytes, when they hold at least
/// `4 * width * height` of them and both `4 * width` and that length fit `usize`.
#[verifier::external_body]
fn image_from_raw(width: u32, height: u32, bytes: Vec<u8>) -> (result: Option<RasterImage>)
    ensures
        result is Some <==> (4 * width <= usize::MAX && 4 * width * height <= usize::MAX && 4 * width * height
            <= bytes@.len()),
        result matches Some(image) ==> raster_size(image) == (width, height) && raster_samples(image) == bytes@,
{
    match RgbaImage::from_raw(width, height, bytes) {
        Some(image) => Some(RasterImage { image }),
        None => None,
    }
}

/// `ImageBuffer::as_raw`, copied: the image's bytes.
#[verifier::external_body]
fn image_bytes(image: &RasterImage) -> (result: Vec<u8>)
    ensures
        result@ == raster_samples(*image),
{
    image.image.as_raw().clone()
}

/// `ImageBuffer::clone`: an image with the same size and bytes.
#[verifier::external_body]
fn image_clone(image: &RasterImage) -> (result: RasterImage)
    ensures
        raster_size(result) == raster_size(*image),
        raster_samples(result) == raster_samples(*image),
{
    RasterImage { image: image.image.clone() }
}

/// The samples of the `region` of a raster `width` pixels wide, row by row.
pub open spec fn cropped_samples(samples: Seq<u8>, width: int, region: Bounds) -> Seq<u8> {
    Seq::new(
        (4 * region.width * region.height) as nat,
        |i: int|
            samples[pixel_start(width, region.x + (i / 4) % (region.width as int), region.y + (i / 4) / (region.width as int))
                + i % 4],
    )
}

/// `imageops::crop_imm` followed by `SubImage::to_image`: a new image holding a copy of the
/// pixels of `region`, which lies on the image.
#[verifier::external_body]
fn image_crop(image: &RasterImage, region: Bounds) -> (result: RasterImage)
    requires
        region.x + region.width <= raster_size(*image).0,
        region.y + region.height <= raster_size(*image).1,
        4 * region.width <= usize::MAX,
        4 * region.width * region.height <= isize::MAX,
    ensures
        raster_size(result) == (region.width, region.height),
        raster_samples(result) == cropped_samples(raster_samples(*image), raster_size(*image).0 as int, region),
{
    RasterImage { image: image::imageops::crop_imm(&image.image, region.x, region.y, region.width, region.height).to_image() }
}

impl RasterImage {
    /// An image over row-major RGBA bytes; `None` when fewer than `4 * width * height` bytes
    /// are given or that length (or the length of a row) does not fit `usize`.
    pub fn from_bytes(width: u32, height: u32, bytes: Vec<u8>) -> (result: Option<RasterImage>)
        ensures
            result is Some <==> (4 * width <= usize::MAX && 4 * width * height <= usize::MAX && 4 * width * height
                <= bytes@.len()),
            result matches Some(image) ==> raster_size(image) == (width, height) && raster_samples(image)
                == bytes@,
    {
        image_from_raw(width, height, bytes)
    }

    /// A `width` by `height` image with every pixel set to `color`.
    pub fn filled(width: u32, height: u32, color: [u8; 4]) -> (result: RasterImage)
        requires
            4 * width <= usize::MAX,
            4 * width * height <= isize::MAX,
        ensures
            raster_size(result) == (width, height),
            raster_samples(result) == Seq::new((4 * width * height) as nat, |i: int| color@[i % 4]),
    {
        image_from_pixel(width, height, color)
    }

    /// Width in pixels.
    pub fn width(&self) -> (result: u32)
        ensures
            result == raster_size(*self).0,
    {
        image_width(self)
    }

    /// Height in pixels.
    pub fn height(&self) -> (result: u32)
        ensures
            result == raster_size(*self).1,
    {
        image_height(self)
    }

    /// The four channel bytes of an in-bounds pixel.
    pub fn pixel(&self, x: u32, y: u32) -> (result: [u8; 4])
        requires
            x < raster_size(*self).0,
            y < raster_size(*self).1,
        ensures
            result@ == pixel_of(raster_samples(*self), raster_size(*self).0 as int, x as int, y as int),
    {
        image_get_pixel(self, x, y)
    }

    /// Overwrites an in-bounds pixel.
    pub fn set_pixel(&mut self, x: u32, y: u32, pixel: [u8; 4])
        requires
            x < raster_size(*old(self)).0,
            y < raster_size(*old(self)).1,
        ensures
            raster_size(*final(self)) == raster_size(*old(self)),
            raster_samples(*final(self)) == with_pixel(
                raster_samples(*old(self)),
                raster_size(*old(self)).0 as int,
                x as int,
                y as int,
                pixel@,
            ),
    {
        image_put_pixel(self, x, y, pixel);
    }

    /// The image's row-major RGBA bytes.
    pub fn bytes(&self) -> (result: Vec<u8>)
        ensures
            result@ == raster_samples(*self),
    {
        image_bytes(self)
    }

    /// A copy of the pixels of `region`, which lies on the image.
    pub fn cropped(&self, region: Bounds) -> (result: RasterImage)
        requires
            region.x + region.width <= raster_size(*self).0,
            region.y + region.height <= raster_size(*self).1,
            4 * region.width <= usize::MAX,
            4 * region.width * region.height <= isize::MAX,
        ensures
            raster_size(result) == (region.width, region.height),
            raster_samples(result) == cropped_samples(raster_samples(*self), raster_size(*self).0 as int, region),
    {
        image_crop(self, region)
    }

    /// A copy of the image.
    pub fn duplicate(&self) -> (result: RasterImage)
        ensures
            raster_size(result) == raster_size(*self),
            raster_samples(result) == raster_samples(*self),
    {
        image_clone(self)
    }
}

} // verus!
