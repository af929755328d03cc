use vstd::prelude::*;
use vstd::string::*;
use base64::Engine;
use crate::codec::{decimal_string, decimal_text};
use crate::descriptor::Blur;

verus! {

/// The standard padded base64 text of a byte string.
pub uninterp spec fn base64_standard(b: Seq<u8>) -> Seq<char>;

/// Relies on base64's `STANDARD` engine, `Engine::encode`: the padded base64
/// text of the bytes, four characters for each three bytes begun.
#[verifier::external_body]
fn base64_standard_encode(b: &Vec<u8>) -> (r: String)
    ensures
        r@ == base64_standard(b@),
        r@.len() == 4 * ((b@.len() + 2) / 3),
{
    base64::engine::general_purpose::STANDARD.encode(b)
}

pub open spec fn svg_head() -> Seq<char> {
    "<svg xmlns=\"http://www.w3.org/2000/svg\" width=\"100%\" height=\"100%\" viewBox=\"0 0 "@
}

pub open spec fn svg_filter() -> Seq<char> {
    "\" preserveAspectRatio=\"none\"><filter id=\"a\" filterUnits=\"userSpaceOnUse\" color-interpolation-filters=\"sRGB\"><feGaussianBlur stdDeviation=\""@
}

pub open spec fn svg_image() -> Seq<char> {
    "\" edgeMode=\"duplicate\"/><feComponentTransfer><feFuncA type=\"discrete\" tableValues=\"1 1\"/></feComponentTransfer></filter><image filter=\"url(#a)\" width=\"100%\" height=\"100%\" href=\"data:image/webp;base64,"@
}

pub open spec fn svg_tail() -> Seq<char> {
    "\" /></svg>"@
}

/// The placeholder document: an SVG sized to its container, with the given
/// view box, that draws the embedded WebP raster through a Gaussian blur of
/// strength `sigma`.
pub open spec fn blur_markup(b: Blur, data: Seq<char>) -> Seq<char> {
    svg_head() + decimal_text(b.svg_width as nat) + " "@ + decimal_text(b.svg_height as nat)
        + svg_filter() + decimal_text(b.sigma as nat) + svg_image() + data + svg_tail()
}

/// Builds the placeholder SVG for a blur request from the encoded bytes of
/// its small raster.
pub fn create_image_blur(blur: Blur, webp: &Vec<u8>) -> (r: String)
    ensures
        r@ == blur_markup(blur, base64_standard(webp@)),
{
    let data = base64_standard_encode(webp);
    let mut out = String::from_str("<svg xmlns=\"http://www.w3.org/2000/svg\" width=\"100%\" height=\"100%\" viewBox=\"0 0 ");
    out.append(decimal_string(blur.svg_width).as_str());
    out.append(" ");
    out.append(decimal_string(blur.svg_height).as_str());
    out.append("\" preserveAspectRatio=\"none\"><filter id=\"a\" filterUnits=\"userSpaceOnUse\" color-interpolation-filters=\"sRGB\"><feGaussianBlur stdDeviation=\"");
    out.append(decimal_string(blur.sigma as u32).as_str());
    out.append("\" edgeMode=\"duplicate\"/><feComponentTransfer><feFuncA type=\"discrete\" tableValues=\"1 1\"/></feComponentTransfer></filter><image filter=\"url(#a)\" width=\"100%\" height=\"100%\" href=\"data:image/webp;base64,");
    out.append(data.as_str());
    out.append("\" /></svg>");
    out
}

} // verus!
