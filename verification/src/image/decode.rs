//! Gray planes from encoded image bytes (PNG and the other built-in formats
//! of the `image` crate, named by the file extension): the crate decodes,
//! this module turns each sample layout into gray levels.

use vstd::prelude::*;
use super::{GrayImage, Plane};
use super::gray::{gray_of_interleaved, rgb_to_gray, rgba_to_gray};

verus! {

/// `image::ImageError`, carried opaque; nothing is claimed of it.
#[verifier::external_type_specification]
#[verifier::external_body]
pub struct ExImageError(image::ImageError);

/// Sample layout of a decoded image.
#[derive(Clone, Copy, Debug, PartialEq, Eq, Structural)]
pub enum PixelLayout {
    /// One gray byte per pixel.
    Luma8,
    /// R, G, B bytes per pixel.
    Rgb8,
    /// R, G, B, A bytes per pixel.
    Rgba8,
}

/// A decoded image: `w x h` pixels of `layout`, row-major, interleaved.
#[derive(Clone, Debug)]
pub struct DecodedImage {
    pub w: usize,
    pub h: usize,
    pub layout: PixelLayout,
    pub data: Vec<u8>,
}

/// Bytes per pixel of a layout.
pub open spec fn channels(layout: PixelLayout) -> int {
    match layout {
        PixelLayout::Luma8 => 1,
        PixelLayout::Rgb8 => 3,
        PixelLayout::Rgba8 => 4,
    }
}

/// What `image::load_from_memory_with_format` decodes `bytes` to in the
/// built-in format that the file extension `ext` names (width, height,
/// layout and samples, other layouts converted to RGB), or `None` when the
/// extension names no built-in format or decoding fails.
pub uninterp spec fn image_decoded(bytes: Seq<u8>, ext: Seq<char>) -> Option<(usize, usize, PixelLayout, Seq<u8>)>;

/// Gray levels of `n` pixels of samples `data` in `layout`.
pub open spec fn gray_of_layout(layout: PixelLayout, data: Seq<u8>, n: int) -> Seq<u8> {
    match layout {
        PixelLayout::Luma8 => data,
        PixelLayout::Rgb8 => gray_of_interleaved(data, 3, n),
        PixelLayout::Rgba8 => gray_of_interleaved(data, 4, n),
    }
}

/// Decodes `bytes` with `image::load_from_memory_with_format` in the
/// built-in format that `image::ImageFormat::from_extension` gives for
/// `ext` (an unknown extension is the crate's "unsupported extension"
/// error). A built-in format bypasses the crate's registries of decoding
/// hooks. 8-bit luma, RGB and RGBA images keep their samples; any other
/// layout is converted with `to_rgb8`. Claimed: success and the result are
/// a function of the bytes and the extension (named [`image_decoded`]), and
/// the samples are exactly `w * h` pixels of the layout (the crate sizes its
/// decode buffers and `to_rgb8` buffers to that). The error is left unsaid.
#[verifier::external_body]
fn decode_image(bytes: &[u8], ext: &str) -> (r: Result<DecodedImage, image::ImageError>)
    ensures
        r is Ok <==> image_decoded(bytes@, ext@) is Some,
        r matches Ok(d) ==> image_decoded(bytes@, ext@) == Some((d.w, d.h, d.layout, d.data@))
            && d.data@.len() == d.w * d.h * channels(d.layout),
{
    let unsupported = image::error::ImageFormatHint::PathExtension(ext.into()).into();
    let format = image::ImageFormat::from_extension(ext).ok_or(image::ImageError::Unsupported(unsupported))?;
    let img = image::load_from_memory_with_format(bytes, format)?;
    let (w, h) = (img.width() as usize, img.height() as usize);
    let (layout, data) = match img {
        image::DynamicImage::ImageLuma8(g) => (PixelLayout::Luma8, g.into_raw()),
        image::DynamicImage::ImageRgb8(c) => (PixelLayout::Rgb8, c.into_raw()),
        image::DynamicImage::ImageRgba8(c) => (PixelLayout::Rgba8, c.into_raw()),
        other => (PixelLayout::Rgb8, other.to_rgb8().into_raw()),
    };
    Ok(DecodedImage { w, h, layout, data })
}

/// The gray plane of a decoded image: luma samples as they are, RGB and
/// RGBA through the fixed-point gray conversion.
pub fn gray_of_decoded(d: &DecodedImage) -> (g: GrayImage)
    requires
        d.data@.len() == d.w * d.h * channels(d.layout),
    ensures
        g.w == d.w,
        g.h == d.h,
        g.wf(),
        g.data@ == gray_of_layout(d.layout, d.data@, d.w * d.h),
{
    match d.layout {
        PixelLayout::Luma8 => Plane { w: d.w, h: d.h, data: d.data.clone() },
        PixelLayout::Rgb8 => rgb_to_gray(&d.data, d.w, d.h),
        PixelLayout::Rgba8 => rgba_to_gray(&d.data, d.w, d.h),
    }
}

/// Decode the bytes of an image file whose extension is `ext` (`png`,
/// `jpg`, ...) to a gray plane. Fails exactly when the decoder fails;
/// otherwise the plane has the decoded dimensions and the gray levels of
/// the decoded samples.
pub fn load_gray_bytes(bytes: &[u8], ext: &str) -> (r: Result<GrayImage, image::ImageError>)
    ensures
        r is Ok <==> image_decoded(bytes@, ext@) is Some,
        image_decoded(bytes@, ext@) matches Some(t) ==> r matches Ok(g) && g.w == t.0 && g.h == t.1
            && g.wf() && g.data@ == gray_of_layout(t.2, t.3, t.0 * t.1),
{
    match decode_image(bytes, ext) {
        Ok(d) => Ok(gray_of_decoded(&d)),
        Err(e) => Err(e),
    }
}

} // verus!
