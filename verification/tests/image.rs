use image::codecs::png::PngEncoder;
use image::{Rgba, RgbaImage};
use libcodrop::image_codec::CodropImageFormat;
use libcodrop::{compress_image, CodropError, ImageOptions};

fn red_square_png() -> Vec<u8> {
    // Create a 16x16 red image
    let mut img = RgbaImage::new(16, 16);
    for pixel in img.pixels_mut() {
        *pixel = Rgba([255, 0, 0, 255]);
    }
    let mut png_bytes = Vec::new();
    img.write_with_encoder(PngEncoder::new(&mut png_bytes)).unwrap();
    png_bytes
}

#[test]
fn test_compress_image_empty() {
    let err = compress_image(&[], ImageOptions::default()).unwrap_err();
    match err {
        CodropError::ImageError(_) => {}
        _ => panic!("Expected ImageError"),
    }
}

#[test]
fn test_compress_synthetic_image() {
    let png_bytes = red_square_png();

    // Compress to WebP
    let webp_compressed = compress_image(&png_bytes, ImageOptions { format: CodropImageFormat::WebP, quality: 85 }).unwrap();

    assert!(!webp_compressed.is_empty());
    assert_eq!(&webp_compressed[0..4], b"RIFF");
    assert_eq!(&webp_compressed[8..12], b"WEBP");

    // Compress to JPEG
    let jpeg_compressed = compress_image(&png_bytes, ImageOptions { format: CodropImageFormat::Jpeg, quality: 80 }).unwrap();
    assert!(!jpeg_compressed.is_empty());
    assert_eq!(&jpeg_compressed[0..2], &[0xFF, 0xD8]);
}

#[test]
fn test_compress_image_png_and_auto() {
    let png_bytes = red_square_png();
    let png = compress_image(&png_bytes, ImageOptions { format: CodropImageFormat::Png, quality: 85 }).unwrap();
    assert_eq!(&png[0..8], &[0x89, 0x50, 0x4E, 0x47, 0x0D, 0x0A, 0x1A, 0x0A]);
    let auto = compress_image(&png_bytes, ImageOptions::default()).unwrap();
    assert_eq!(&auto[0..4], b"RIFF");
    assert_eq!(&auto[8..12], b"WEBP");
    // Quality outside 1..=100 is clamped, not refused.
    let jpeg = compress_image(&png_bytes, ImageOptions { format: CodropImageFormat::Jpeg, quality: 0 }).unwrap();
    assert_eq!(&jpeg[0..2], &[0xFF, 0xD8]);
    let jpeg = compress_image(&png_bytes, ImageOptions { format: CodropImageFormat::Jpeg, quality: 255 }).unwrap();
    assert_eq!(&jpeg[0..2], &[0xFF, 0xD8]);
}

#[test]
fn test_compress_image_garbage_is_image_error() {
    let err = compress_image(b"definitely not an image", ImageOptions::default()).unwrap_err();
    assert!(matches!(err, CodropError::ImageError(_)));
}

#[test]
fn test_image_format_codes() {
    assert_eq!(CodropImageFormat::from_u8(1), CodropImageFormat::WebP);
    assert_eq!(CodropImageFormat::from_u8(2), CodropImageFormat::Png);
    assert_eq!(CodropImageFormat::from_u8(3), CodropImageFormat::Jpeg);
    assert_eq!(CodropImageFormat::from_u8(0), CodropImageFormat::Auto);
    assert_eq!(CodropImageFormat::from_u8(200), CodropImageFormat::Auto);
}

#[test]
fn test_compress_image_converts_between_formats() {
    let png_bytes = red_square_png();
    let jpeg = compress_image(&png_bytes, ImageOptions { format: CodropImageFormat::Jpeg, quality: 90 }).unwrap();
    // A JPEG input comes out as PNG, and the PNG output goes back to WebP.
    let png = compress_image(&jpeg, ImageOptions { format: CodropImageFormat::Png, quality: 85 }).unwrap();
    assert_eq!(&png[0..8], &[0x89, 0x50, 0x4E, 0x47, 0x0D, 0x0A, 0x1A, 0x0A]);
    assert_ne!(png, jpeg);
    let webp = compress_image(&png, ImageOptions { format: CodropImageFormat::WebP, quality: 85 }).unwrap();
    assert_eq!(&webp[0..4], b"RIFF");
    // The same input and options give the same bytes.
    let again = compress_image(&png, ImageOptions { format: CodropImageFormat::WebP, quality: 85 }).unwrap();
    assert_eq!(webp, again);
    // JPEG qualities 0 and 1 are the same after clamping; 255 and 100 likewise.
    let q0 = compress_image(&png_bytes, ImageOptions { format: CodropImageFormat::Jpeg, quality: 0 }).unwrap();
    let q1 = compress_image(&png_bytes, ImageOptions { format: CodropImageFormat::Jpeg, quality: 1 }).unwrap();
    assert_eq!(q0, q1);
    let q255 = compress_image(&png_bytes, ImageOptions { format: CodropImageFormat::Jpeg, quality: 255 }).unwrap();
    let q100 = compress_image(&png_bytes, ImageOptions { format: CodropImageFormat::Jpeg, quality: 100 }).unwrap();
    assert_eq!(q255, q100);
}
