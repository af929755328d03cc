use image::{DynamicImage, GenericImageView, Rgba, RgbaImage};
use leptos_image::descriptor::{Blur, Resize};
use leptos_image::orient::OrientationFix;
use leptos_image::transform::{apply_orientation, blurred_raster_for, resized_for};

fn two_by_one() -> DynamicImage {
    let mut img = RgbaImage::new(2, 1);
    img.put_pixel(0, 0, Rgba([255, 0, 0, 255]));
    img.put_pixel(1, 0, Rgba([0, 0, 255, 255]));
    DynamicImage::ImageRgba8(img)
}

#[test]
fn identity_keeps_the_image() {
    let out = apply_orientation(two_by_one(), OrientationFix::Identity);
    assert_eq!(out.get_pixel(0, 0), Rgba([255, 0, 0, 255]));
    assert_eq!(out.dimensions(), (2, 1));
}

#[test]
fn flips_mirror_pixels() {
    let out = apply_orientation(two_by_one(), OrientationFix::FlipHorizontal);
    assert_eq!(out.get_pixel(0, 0), Rgba([0, 0, 255, 255]));
    assert_eq!(out.get_pixel(1, 0), Rgba([255, 0, 0, 255]));
    let out = apply_orientation(two_by_one(), OrientationFix::FlipVertical);
    assert_eq!(out.get_pixel(0, 0), Rgba([255, 0, 0, 255]));
    let out = apply_orientation(two_by_one(), OrientationFix::Rotate180);
    assert_eq!(out.get_pixel(0, 0), Rgba([0, 0, 255, 255]));
}

#[test]
fn quarter_turns_swap_dimensions() {
    let out = apply_orientation(two_by_one(), OrientationFix::Rotate90);
    assert_eq!(out.dimensions(), (1, 2));
    assert_eq!(out.get_pixel(0, 0), Rgba([255, 0, 0, 255]));
    let out = apply_orientation(two_by_one(), OrientationFix::Rotate270);
    assert_eq!(out.dimensions(), (1, 2));
    assert_eq!(out.get_pixel(0, 0), Rgba([0, 0, 255, 255]));
    // the transpose maps (x, y) to (y, x)
    let out = apply_orientation(two_by_one(), OrientationFix::Transpose);
    assert_eq!(out.dimensions(), (1, 2));
    assert_eq!(out.get_pixel(0, 0), Rgba([255, 0, 0, 255]));
    assert_eq!(out.get_pixel(0, 1), Rgba([0, 0, 255, 255]));
    // the transverse maps (x, y) to (h - 1 - y, w - 1 - x)
    let out = apply_orientation(two_by_one(), OrientationFix::Transverse);
    assert_eq!(out.dimensions(), (1, 2));
    assert_eq!(out.get_pixel(0, 0), Rgba([0, 0, 255, 255]));
    assert_eq!(out.get_pixel(0, 1), Rgba([255, 0, 0, 255]));
}

#[test]
fn resizes_are_exact() {
    let big = DynamicImage::ImageRgba8(RgbaImage::new(200, 200));
    let out = resized_for(big.clone(), OrientationFix::Identity, Resize { width: 100, height: 80, quality: 75 });
    assert_eq!(out.dimensions(), (100, 80));
    let blur = Blur { width: 20, height: 10, svg_width: 100, svg_height: 100, sigma: 15 };
    let small = blurred_raster_for(big, OrientationFix::Rotate90, blur);
    assert_eq!(small.dimensions(), (20, 10));
}
