//! Raster images in files.
use image::codecs::png::PngEncoder;
use image::{ExtendedColorType, ImageEncoder};
use vstd::prelude::*;

verus! {

/// The pixels of an encoded raster image: its RGBA bytes, its width and its height. `None` where
/// the bytes are no image that can be decoded.
pub uninterp spec fn decoded_pixels(data: Seq<u8>) -> Option<(Seq<u8>, u32, u32)>;

/// `image::load_from_memory` of the `image` crate decodes an image, whatever its format, and
/// `DynamicImage::to_rgba8` gives its pixels as RGBA, four bytes a pixel, row by row.
#[verifier::external_body]
pub(crate) fn decode_pixels(data: &[u8]) -> (r: Option<(Vec<u8>, u32, u32)>)
    ensures
        (match r {
            Some((rgba, w, h)) => Some((rgba@, w, h)),
            None => None,
        }) == decoded_pixels(data@),
        r matches Some((rgba, w, h)) ==> rgba@.len() == w * h * 4,
{
    let decoded = image::load_from_memory(data).ok()?.to_rgba8();
    let (w, h) = decoded.dimensions();
    Some((decoded.into_raw(), w, h))
}

/// The PNG file of an image, RGBA, or the reason for which it cannot be encoded.
pub uninterp spec fn png_file(rgba: Seq<u8>, width: u32, height: u32) -> Result<
    Seq<u8>,
    Seq<char>,
>;

/// Whether an image has pixels, but no more than sixteen million of them.
pub open spec fn is_moderate(width: u32, height: u32) -> bool {
    width > 0 && height > 0 && width * height <= 0x100_0000
}

/// `PngEncoder` of the `image` crate writes an image into a PNG file, which keeps every pixel as it
/// is. It takes RGBA of exactly four bytes a pixel, and refuses an image without pixels with an error
/// that says so. Whether the file of a very large image can be decoded again is not said: decoding
/// has a limit on memory.
#[verifier::external_body]
fn png_bytes(rgba: &[u8], width: u32, height: u32) -> (r: Result<Vec<u8>, String>)
    requires
        rgba@.len() == width * height * 4,
    ensures
        (match r {
            Ok(file) => Ok(file@),
            Err(e) => Err(e@),
        }) == png_file(rgba@, width, height),
        r is Ok == (width > 0 && height > 0),
        r matches Ok(file) ==> is_moderate(width, height) ==> decoded_pixels(file@) == Some(
            (rgba@, width, height),
        ),
{
    let mut file = Vec::new();
    let encoder = PngEncoder::new(&mut file);
    let done = encoder.write_image(rgba, width, height, ExtendedColorType::Rgba8);
    done.map(|()| file).map_err(|e| e.to_string())
}

/// The PNG file of an image, RGBA; an error, which says why, exactly if the image has no pixels. What
/// is written is read back: decoding the file gives the image, if it is not too large.
pub fn encode_png(rgba: &[u8], width: u32, height: u32) -> (r: Result<Vec<u8>, String>)
    requires
        rgba@.len() == width * height * 4,
    ensures
        (match r {
            Ok(file) => Ok(file@),
            Err(e) => Err(e@),
        }) == png_file(rgba@, width, height),
        r is Ok == (width > 0 && height > 0),
        r matches Ok(file) ==> is_moderate(width, height) ==> decoded_pixels(file@) == Some(
            (rgba@, width, height),
        ),
{
    png_bytes(rgba, width, height)
}

} // verus!
