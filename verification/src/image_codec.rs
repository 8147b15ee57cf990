//! Image re-encoding through the `image` crate: decode any supported format, then encode as
//! lossless WebP, JPEG of a given quality, or PNG.
use vstd::prelude::*;

use crate::error::CodropError;

verus! {

#[verifier::external_type_specification]
#[verifier::external_body]
pub struct ExImageError(image::ImageError);

/// Supported image formats for re-encoding.
#[derive(Debug, Clone, Copy, PartialEq, Eq, Structural)]
pub enum CodropImageFormat {
    /// Chosen by the library: WebP.
    Auto,
    /// Lossless WebP.
    WebP,
    /// PNG.
    Png,
    /// JPEG with a configurable quality.
    Jpeg,
}

/// The format with code `val`; unknown codes mean `Auto`.
pub open spec fn spec_format_of(val: u8) -> CodropImageFormat {
    if val == 1 {
        CodropImageFormat::WebP
    } else if val == 2 {
        CodropImageFormat::Png
    } else if val == 3 {
        CodropImageFormat::Jpeg
    } else {
        CodropImageFormat::Auto
    }
}

impl CodropImageFormat {
    /// The format with code `val` (1 WebP, 2 PNG, 3 JPEG); any other code means `Auto`.
    pub fn from_u8(val: u8) -> (r: Self)
        ensures
            r == spec_format_of(val),
    {
        if val == 1 {
            CodropImageFormat::WebP
        } else if val == 2 {
            CodropImageFormat::Png
        } else if val == 3 {
            CodropImageFormat::Jpeg
        } else {
            CodropImageFormat::Auto
        }
    }
}

/// Image re-encoding options.
#[derive(Debug, Clone, Copy, PartialEq, Eq)]
pub struct ImageOptions {
    pub format: CodropImageFormat,
    /// JPEG quality from 1 to 100; values outside are clamped.
    pub quality: u8,
}

impl Default for ImageOptions {
    fn default() -> (r: Self)
        ensures
            r.format == CodropImageFormat::Auto,
            r.quality == 85,
    {
        ImageOptions { format: CodropImageFormat::Auto, quality: 85 }
    }
}

/// The format an image is re-encoded to: `Auto` means WebP.
pub open spec fn target_format(f: CodropImageFormat) -> CodropImageFormat {
    match f {
        CodropImageFormat::Auto => CodropImageFormat::WebP,
        other => other,
    }
}

/// The signature an encoded image of format `f` starts with.
pub open spec fn has_signature(v: Seq<u8>, f: CodropImageFormat) -> bool {
    match f {
        CodropImageFormat::Jpeg => v.len() >= 2 && v[0] == 0xFFu8 && v[1] == 0xD8u8,
        CodropImageFormat::Png => v.len() >= 8 && v.subrange(0, 8) == seq![137u8, 80u8, 78u8, 71u8, 13u8, 10u8, 26u8, 10u8],
        _ => v.len() >= 12 && v.subrange(0, 4) == seq![0x52u8, 0x49u8, 0x46u8, 0x46u8] && v.subrange(8, 12) == seq![
            0x57u8,
            0x45u8,
            0x42u8,
            0x50u8,
        ],
    }
}

/// Whether `image::load_from_memory` decodes `data` (the format guessed from its bytes).
pub uninterp spec fn image_decodes(data: Seq<u8>) -> bool;

/// The bytes that a lossless `image::codecs::webp::WebPEncoder` writes for the image that
/// `image::load_from_memory` decodes from `data`; `None` when that encoding fails.
pub uninterp spec fn webp_reencoded(data: Seq<u8>) -> Option<Seq<u8>>;

/// The bytes that `image::codecs::png::PngEncoder` writes for the image that
/// `image::load_from_memory` decodes from `data`; `None` when that encoding fails.
pub uninterp spec fn png_reencoded(data: Seq<u8>) -> Option<Seq<u8>>;

/// The bytes that `image::codecs::jpeg::JpegEncoder` of quality `quality` writes for the
/// image that `image::load_from_memory` decodes from `data`; `None` when that encoding fails.
pub uninterp spec fn jpeg_reencoded(data: Seq<u8>, quality: u8) -> Option<Seq<u8>>;

/// Which step of a re-encoding failed, with the `image` crate's error.
pub enum ImageFailure {
    /// `image::load_from_memory` refused the input.
    Decode(image::ImageError),
    /// The encoder refused the decoded image.
    Encode(image::ImageError),
}

/// `r` is the outcome of a decoding that succeeds when `decodes` holds, followed by an
/// encoding of the image into `encoded`.
pub open spec fn reencode_outcome(decodes: bool, encoded: Option<Seq<u8>>, r: Result<Vec<u8>, ImageFailure>) -> bool {
    if !decodes {
        r matches Err(ImageFailure::Decode(_))
    } else {
        match encoded {
            Some(out) => r matches Ok(v) && v@ == out,
            None => r matches Err(ImageFailure::Encode(_)),
        }
    }
}

/// Formats an `image::ImageError` with its `Display` after a context phrase. Nothing is
/// stated of the text.
#[verifier::external_body]
fn describe_image_error(context: &str, e: &image::ImageError) -> String {
    format!("{}: {}", context, e)
}

/// Calls `image::load_from_memory` on `data`, then `DynamicImage::write_with_encoder` with a
/// lossless `image::codecs::webp::WebPEncoder` over a fresh buffer. Both are functions of
/// their input alone. The encoder (from `image-webp`) writes a RIFF container first: on
/// success the buffer starts with `RIFF`, four size bytes and `WEBP`.
#[verifier::external_body]
fn reencode_webp(data: &[u8]) -> (r: Result<Vec<u8>, ImageFailure>)
    ensures
        reencode_outcome(image_decodes(data@), webp_reencoded(data@), r),
        r matches Ok(v) ==> has_signature(v@, CodropImageFormat::WebP),
{
    let img = match image::load_from_memory(data) {
        Ok(i) => i,
        Err(e) => return Err(ImageFailure::Decode(e)),
    };
    let mut output: Vec<u8> = Vec::new();
    match img.write_with_encoder(image::codecs::webp::WebPEncoder::new_lossless(&mut output)) {
        Ok(()) => Ok(output),
        Err(e) => Err(ImageFailure::Encode(e)),
    }
}

/// Calls `image::load_from_memory` on `data`, then `DynamicImage::write_with_encoder` with
/// `image::codecs::jpeg::JpegEncoder` of quality `quality` over a fresh buffer. Both are
/// functions of their input alone. The encoder writes the start-of-image marker first: on
/// success the buffer starts with `FF D8`.
#[verifier::external_body]
fn reencode_jpeg(data: &[u8], quality: u8) -> (r: Result<Vec<u8>, ImageFailure>)
    ensures
        reencode_outcome(image_decodes(data@), jpeg_reencoded(data@, quality), r),
        r matches Ok(v) ==> has_signature(v@, CodropImageFormat::Jpeg),
{
    let img = match image::load_from_memory(data) {
        Ok(i) => i,
        Err(e) => return Err(ImageFailure::Decode(e)),
    };
    let mut output: Vec<u8> = Vec::new();
    match img.write_with_encoder(image::codecs::jpeg::JpegEncoder::new_with_quality(&mut output, quality)) {
        Ok(()) => Ok(output),
        Err(e) => Err(ImageFailure::Encode(e)),
    }
}

/// Calls `image::load_from_memory` on `data`, then `DynamicImage::write_with_encoder` with
/// `image::codecs::png::PngEncoder` over a fresh buffer. Both are functions of their input
/// alone. The `png` crate writes the PNG signature first: on success the buffer starts with
/// `89 50 4E 47 0D 0A 1A 0A`.
#[verifier::external_body]
fn reencode_png(data: &[u8]) -> (r: Result<Vec<u8>, ImageFailure>)
    ensures
        reencode_outcome(image_decodes(data@), png_reencoded(data@), r),
        r matches Ok(v) ==> has_signature(v@, CodropImageFormat::Png),
{
    let img = match image::load_from_memory(data) {
        Ok(i) => i,
        Err(e) => return Err(ImageFailure::Decode(e)),
    };
    let mut output: Vec<u8> = Vec::new();
    match img.write_with_encoder(image::codecs::png::PngEncoder::new(&mut output)) {
        Ok(()) => Ok(output),
        Err(e) => Err(ImageFailure::Encode(e)),
    }
}

/// JPEG quality clamped to 1..=100.
pub open spec fn clamp_quality(q: u8) -> u8 {
    if q < 1 {
        1
    } else if q > 100 {
        100
    } else {
        q
    }
}

/// What re-encoding `data` with `options` gives: `None` when the image does not decode or
/// the encoder fails.
pub open spec fn reencoding(data: Seq<u8>, options: ImageOptions) -> Option<Seq<u8>> {
    if data.len() == 0 || !image_decodes(data) {
        None
    } else {
        match options.format {
            CodropImageFormat::Jpeg => jpeg_reencoded(data, clamp_quality(options.quality)),
            CodropImageFormat::Png => png_reencoded(data),
            _ => webp_reencoded(data),
        }
    }
}

/// The error for a failed re-encoding step, with the step named in its message.
fn failure_error(f: ImageFailure, encoder: &str) -> (e: CodropError)
    ensures
        e is ImageError,
{
    match f {
        ImageFailure::Decode(e) => CodropError::ImageError(describe_image_error("Failed to decode image", &e)),
        ImageFailure::Encode(e) => CodropError::ImageError(describe_image_error(encoder, &e)),
    }
}

/// Decodes the image in `data` and re-encodes it in the requested format (WebP for `Auto`);
/// JPEG quality is clamped to 1..=100. An empty input is refused.
pub fn compress_image(data: &[u8], options: ImageOptions) -> (r: Result<Vec<u8>, CodropError>)
    ensures
        match reencoding(data@, options) {
            Some(out) => r matches Ok(v) && v@ == out,
            None => r matches Err(CodropError::ImageError(_)),
        },
        r matches Ok(v) ==> has_signature(v@, target_format(options.format)),
{
    if data.len() == 0 {
        return Err(CodropError::ImageError("Input image buffer is empty".to_string()));
    }
    match options.format {
        CodropImageFormat::Jpeg => {
            let quality = if options.quality < 1 {
                1
            } else if options.quality > 100 {
                100
            } else {
                options.quality
            };
            match reencode_jpeg(data, quality) {
                Ok(v) => Ok(v),
                Err(f) => Err(failure_error(f, "JPEG encoding failed")),
            }
        },
        CodropImageFormat::Png => match reencode_png(data) {
            Ok(v) => Ok(v),
            Err(f) => Err(failure_error(f, "PNG encoding failed")),
        },
        _ => match reencode_webp(data) {
            Ok(v) => Ok(v),
            Err(f) => Err(failure_error(f, "WebP encoding failed")),
        },
    }
}

} // verus!
