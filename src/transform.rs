use vstd::prelude::*;
use image::DynamicImage;
use crate::descriptor::{Blur, Resize};
use crate::orient::OrientationFix;

verus! {

#[verifier::external_type_specification]
#[verifier::external_body]
pub struct ExDynamicImage(image::DynamicImage);

/// The image mirrored left to right.
pub uninterp spec fn flipped_h(img: DynamicImage) -> DynamicImage;

/// The image mirrored top to bottom.
pub uninterp spec fn flipped_v(img: DynamicImage) -> DynamicImage;

/// The image turned a quarter clockwise.
pub uninterp spec fn rotated_90(img: DynamicImage) -> DynamicImage;

/// The image turned half a turn.
pub uninterp spec fn rotated_180(img: DynamicImage) -> DynamicImage;

/// The image turned three quarters clockwise.
pub uninterp spec fn rotated_270(img: DynamicImage) -> DynamicImage;

/// The image scaled to exactly `width` by `height` with the Catmull-Rom filter.
pub uninterp spec fn resized_bicubic(img: DynamicImage, width: u32, height: u32) -> DynamicImage;

/// The image scaled to exactly `width` by `height` with the nearest filter.
pub uninterp spec fn resized_nearest(img: DynamicImage, width: u32, height: u32) -> DynamicImage;

/// Relies on image's `imageops::flip_horizontal`: the result depends on the
/// image alone.
#[verifier::external_body]
fn flip_horizontal(img: &DynamicImage) -> (r: DynamicImage)
    ensures
        r == flipped_h(*img),
{
    DynamicImage::from(image::imageops::flip_horizontal(img))
}

/// Relies on image's `imageops::flip_vertical`: the result depends on the
/// image alone.
#[verifier::external_body]
fn flip_vertical(img: &DynamicImage) -> (r: DynamicImage)
    ensures
        r == flipped_v(*img),
{
    DynamicImage::from(image::imageops::flip_vertical(img))
}

/// Relies on image's `imageops::rotate90`: the result depends on the image
/// alone.
#[verifier::external_body]
fn rotate90(img: &DynamicImage) -> (r: DynamicImage)
    ensures
        r == rotated_90(*img),
{
    DynamicImage::from(image::imageops::rotate90(img))
}

/// Relies on image's `imageops::rotate180`: the result depends on the image
/// alone.
#[verifier::external_body]
fn rotate180(img: &DynamicImage) -> (r: DynamicImage)
    ensures
        r == rotated_180(*img),
{
    DynamicImage::from(image::imageops::rotate180(img))
}

/// Relies on image's `imageops::rotate270`: the result depends on the image
/// alone.
#[verifier::external_body]
fn rotate270(img: &DynamicImage) -> (r: DynamicImage)
    ensures
        r == rotated_270(*img),
{
    DynamicImage::from(image::imageops::rotate270(img))
}

/// Relies on image's `DynamicImage::resize_exact` with the Catmull-Rom
/// (bicubic) filter: the image scaled to exactly `width` by `height`.
#[verifier::external_body]
fn resize_bicubic(img: &DynamicImage, width: u32, height: u32) -> (r: DynamicImage)
    ensures
        r == resized_bicubic(*img, width, height),
{
    img.resize_exact(width, height, image::imageops::FilterType::CatmullRom)
}

/// Relies on image's `DynamicImage::resize_exact` with the nearest-neighbour
/// filter: the image scaled to exactly `width` by `height`.
#[verifier::external_body]
fn resize_nearest(img: &DynamicImage, width: u32, height: u32) -> (r: DynamicImage)
    ensures
        r == resized_nearest(*img, width, height),
{
    img.resize_exact(width, height, image::imageops::FilterType::Nearest)
}

/// The upright image for an orientation transform.
pub open spec fn oriented_of(img: DynamicImage, fix: OrientationFix) -> DynamicImage {
    match fix {
        OrientationFix::Identity => img,
        OrientationFix::FlipHorizontal => flipped_h(img),
        OrientationFix::Rotate180 => rotated_180(img),
        OrientationFix::FlipVertical => flipped_v(img),
        OrientationFix::Transpose => rotated_270(flipped_h(img)),
        OrientationFix::Rotate90 => rotated_90(img),
        OrientationFix::Transverse => rotated_90(flipped_h(img)),
        OrientationFix::Rotate270 => rotated_270(img),
    }
}

/// Applies an orientation transform.
pub fn apply_orientation(img: DynamicImage, fix: OrientationFix) -> (r: DynamicImage)
    ensures
        r == oriented_of(img, fix),
{
    match fix {
        OrientationFix::Identity => img,
        OrientationFix::FlipHorizontal => flip_horizontal(&img),
        OrientationFix::Rotate180 => rotate180(&img),
        OrientationFix::FlipVertical => flip_vertical(&img),
        OrientationFix::Transpose => rotate270(&flip_horizontal(&img)),
        OrientationFix::Rotate90 => rotate90(&img),
        OrientationFix::Transverse => rotate90(&flip_horizontal(&img)),
        OrientationFix::Rotate270 => rotate270(&img),
    }
}

/// The upright source scaled for a resize request, with a bicubic filter.
pub fn resized_for(img: DynamicImage, fix: OrientationFix, r: Resize) -> (out: DynamicImage)
    ensures
        out == resized_bicubic(oriented_of(img, fix), r.width, r.height),
{
    let upright = apply_orientation(img, fix);
    resize_bicubic(&upright, r.width, r.height)
}

/// The upright source scaled to the tiny raster of a blur request, with a
/// nearest-neighbour filter.
pub fn blurred_raster_for(img: DynamicImage, fix: OrientationFix, b: Blur) -> (out: DynamicImage)
    ensures
        out == resized_nearest(oriented_of(img, fix), b.width, b.height),
{
    let upright = apply_orientation(img, fix);
    resize_nearest(&upright, b.width, b.height)
}

} // verus!
