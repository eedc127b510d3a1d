//! Images in memory, read, scaled and written by the `image` crate.
use image::DynamicImage;
use image::ImageFormat;
use vstd::prelude::*;

verus! {

/// An image of the `image` crate.
#[verifier::external_type_specification]
#[verifier::external_body]
pub struct ExDynamicImage(DynamicImage);

/// A format of images of the `image` crate.
#[verifier::external_type_specification]
#[verifier::external_body]
pub struct ExImageFormat(ImageFormat);

/// The format that `image::guess_format` finds for some bytes.
pub uninterp spec fn format_in(bytes: Seq<u8>) -> Option<ImageFormat>;

/// `image::guess_format`: the format of an image, by the first of its bytes.
#[verifier::external_body]
pub(crate) fn guessed_format(bytes: &[u8]) -> (r: Option<ImageFormat>)
    ensures
        r == format_in(bytes@),
{
    image::guess_format(bytes).ok()
}

/// The image that `image::load_from_memory_with_format` reads from some bytes.
pub uninterp spec fn decoded(bytes: Seq<u8>, format: ImageFormat) -> Option<DynamicImage>;

/// Whether an image has a byte for each part of each pixel, and no more.
pub uninterp spec fn is_exact(img: DynamicImage) -> bool;

/// `image::load_from_memory_with_format`: the image that some bytes hold in a format, a
/// function of both. It asks none of the hooks that can be registered for other formats.
/// The image has just the bytes that its pixels take.
#[verifier::external_body]
pub(crate) fn decoded_image(bytes: &[u8], format: ImageFormat) -> (r: Option<DynamicImage>)
    ensures
        r == decoded(bytes@, format),
        r matches Some(img) ==> is_exact(img),
{
    image::load_from_memory_with_format(bytes, format).ok()
}

/// The width and height that `GenericImageView::dimensions` gives for an image.
pub uninterp spec fn extent(img: DynamicImage) -> (u32, u32);

/// `GenericImageView::dimensions` of an image: its width and height.
#[verifier::external_body]
pub(crate) fn extent_of(img: &DynamicImage) -> (r: (u32, u32))
    ensures
        r == extent(*img),
{
    image::GenericImageView::dimensions(img)
}

/// How the pixels of a scaled image are found. These are the filters that get by with basic
/// arithmetic, whose result is the same on every machine.
#[derive(Clone, Copy, Debug, PartialEq, Eq, Structural)]
pub enum Filter {
    Nearest,
    Triangle,
}

/// The image that `DynamicImage::resize_exact` makes of another one.
pub uninterp spec fn resized(
    img: DynamicImage,
    width: u32,
    height: u32,
    filter: Filter,
) -> DynamicImage;

/// Whether there is room for scaling an image to a size: for its full width and its new
/// height, and for its new size, with sixteen bytes to a pixel.
pub open spec fn has_room(size: (u32, u32), width: u32, height: u32) -> bool {
    &&& size.0 * height * 16 <= isize::MAX
    &&& width * height * 16 <= isize::MAX
}

/// `DynamicImage::resize_exact`: an image of another size, a function of the image, the
/// size and the filter. It has just the bytes that its pixels take. The call panics where
/// there is no room for it, which is left out. So are new sizes with a side of more than
/// sixteen bits, where single precision may be too coarse to give a new pixel old ones.
#[verifier::external_body]
pub(crate) fn resized_image(img: &DynamicImage, width: u32, height: u32, filter: Filter) -> (r:
    DynamicImage)
    requires
        has_room(extent(*img), width, height),
        width <= 0xffff && height <= 0xffff,
        is_exact(*img),
    ensures
        r == resized(*img, width, height, filter),
        extent(r) == (width, height),
        is_exact(r),
{
    let filter = match filter {
        Filter::Nearest => image::imageops::FilterType::Nearest,
        Filter::Triangle => image::imageops::FilterType::Triangle,
    };
    img.resize_exact(width, height, filter)
}

/// The image that `RgbImage::from_raw` makes of the bytes of pixels.
pub uninterp spec fn rgb_image(pixels: Seq<u8>, width: u32, height: u32) -> DynamicImage;

/// `RgbImage::from_raw`: the image of some pixels, with three bytes to each. There is none
/// if the bytes are too few. More bytes than the pixels take would stay in the image; they
/// are left out, so that the image has just those that it needs.
#[verifier::external_body]
pub(crate) fn image_of_pixels(pixels: Vec<u8>, width: u32, height: u32) -> (r: Option<
    DynamicImage,
>)
    requires
        pixels@.len() <= 3 * width * height,
    ensures
        r is Some == (3 * width <= usize::MAX && 3 * width * height <= pixels@.len()),
        r matches Some(img) ==> img == rgb_image(pixels@, width, height) && extent(img) == (
            width,
            height,
        ) && is_exact(img),
{
    image::RgbImage::from_raw(width, height, pixels).map(DynamicImage::ImageRgb8)
}

/// The data that `DynamicImage::write_to` writes for an image as PNG, or nothing where it
/// fails.
pub uninterp spec fn png_form(img: DynamicImage) -> Option<Seq<u8>>;

/// `DynamicImage::write_to`, as PNG: the data of an image, a function of the image. The
/// call panics for an image with more bytes than its pixels take, which is left out.
#[verifier::external_body]
pub(crate) fn png_of(img: &DynamicImage) -> (r: Option<Vec<u8>>)
    requires
        is_exact(*img),
    ensures
        match r {
            Some(png) => png_form(*img) == Some(png@),
            None => png_form(*img) is None,
        },
{
    let mut png = std::io::Cursor::new(Vec::new());
    img.write_to(&mut png, ImageFormat::Png).ok()?;
    Some(png.into_inner())
}

} // verus!
