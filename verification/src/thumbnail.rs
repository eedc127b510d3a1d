//! Small versions of images.
use image::DynamicImage;
use std::sync::Arc;
use vstd::prelude::*;

use crate::kitty::CachedImage;
use crate::picture;
use crate::picture::decoded_image;
use crate::picture::extent_of;
use crate::picture::guessed_format;
use crate::picture::png_of;
use crate::picture::resized_image;
use crate::picture::Filter;

verus! {

/// How large an image is shown at most.
pub const THUMBNAIL_MAX_WIDTH: u32 = 800;

pub const THUMBNAIL_MAX_HEIGHT: u32 = 600;

/// How large a frame of a video is shown at most.
pub const VIDEO_THUMBNAIL_MAX_WIDTH: u32 = 360;

pub const VIDEO_THUMBNAIL_MAX_HEIGHT: u32 = 240;

/// An image that has been read.
pub struct Picture {
    image: DynamicImage,
}

impl View for Picture {
    type V = DynamicImage;

    closed spec fn view(&self) -> DynamicImage {
        self.image
    }
}

/// The image that some bytes hold, in the format that their start tells.
pub open spec fn image_in(bytes: Seq<u8>) -> Option<DynamicImage> {
    match picture::format_in(bytes) {
        Some(format) => picture::decoded(bytes, format),
        None => None,
    }
}

/// The PNG data of an image that has been scaled.
pub open spec fn small_png(img: DynamicImage, width: u32, height: u32) -> Option<Seq<u8>> {
    picture::png_form(picture::resized(img, width, height, Filter::Triangle))
}

impl Picture {
    /// Whether the image has just the bytes that its pixels take.
    #[verifier::type_invariant]
    spec fn wf(self) -> bool {
        picture::is_exact(self.image)
    }

    /// Reads the image that some bytes hold, if they hold one.
    pub fn read(bytes: &[u8]) -> (r: Option<Self>)
        ensures
            match r {
                Some(p) => image_in(bytes@) == Some(p@),
                None => image_in(bytes@) is None,
            },
    {
        match guessed_format(bytes) {
            Some(format) => match decoded_image(bytes, format) {
                Some(image) => Some(Picture { image }),
                None => None,
            },
            None => None,
        }
    }

    /// The width and height of the image, from which those of the small version are found.
    pub fn dimensions(&self) -> (r: (u32, u32))
        ensures
            r == picture::extent(self@),
    {
        extent_of(&self.image)
    }
}

/// Makes the small version of an image, in a size that is not above the largest one. There
/// is none if the image cannot be scaled or written.
pub fn load_thumbnail(picture: &Picture, width: u32, height: u32) -> (r: Option<CachedImage>)
    requires
        width <= THUMBNAIL_MAX_WIDTH,
        height <= THUMBNAIL_MAX_HEIGHT,
    ensures
        r is Some == (picture::has_room(picture::extent(picture@), width, height) && small_png(
            picture@,
            width,
            height,
        ) is Some),
        r matches Some(img) ==> {
            &&& Some(img.data@) == small_png(picture@, width, height)
            &&& img.width == width
            &&& img.height == height
            &&& !img.is_raw_rgb
        },
{
    proof {
        use_type_invariant(picture);
    }
    let wide: u128 = extent_of(&picture.image).0 as u128;
    proof {
        assert(0 <= wide * height <= 0xffff_ffff * 600) by (nonlinear_arith)
            requires
                0 <= wide <= 0xffff_ffff,
                0 <= height <= 600,
        ;
        assert(0 <= width * height <= 800 * 600) by (nonlinear_arith)
            requires
                0 <= width <= 800,
                0 <= height <= 600,
        ;
    }
    if wide * height as u128 * 16 > isize::MAX as u128 {
        return None;
    }
    let small = resized_image(&picture.image, width, height, Filter::Triangle);
    match png_of(&small) {
        Some(png) => Some(
            CachedImage { data: Arc::new(png), width, height, is_raw_rgb: false },
        ),
        None => None,
    }
}

} // verus!
