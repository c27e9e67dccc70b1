use image::GrayAlphaImage;
use image::RgbaImage;

use picross_rs::picross_image::GameError;
use picross_rs::picross_image::Image;

/// A bitmap with an alpha channel is rejected as unsupported and no puzzle
/// is constructed.
#[test]
fn alpha_channel_is_unsupported() {
    let img = image::DynamicImage::ImageRgba8(RgbaImage::new(4, 4));
    let res = Image::from_image(img);
    assert!(matches!(res, Err(GameError::UnsupportedFormatError(_))));
}

/// A grayscale-with-alpha bitmap is rejected as unsupported too.
#[test]
fn gray_alpha_is_unsupported() {
    let img = image::DynamicImage::ImageLumaA8(GrayAlphaImage::new(2, 3));
    let res = Image::from_image(img);
    assert!(matches!(res, Err(GameError::UnsupportedFormatError(_))));
}

/// Plain 8-bit RGB is accepted.
#[test]
fn rgb8_is_supported() {
    let img = image::DynamicImage::ImageRgb8(image::RgbImage::new(2, 2));
    assert!(Image::from_image(img).is_ok());
}

/// The error conversions wrap the underlying failures unchanged: a read
/// failure becomes IoError, a decode failure becomes ImageError.
#[test]
fn underlying_errors_convert_to_their_variants() {
    let io_err = std::io::Error::new(std::io::ErrorKind::NotFound, "no such file");
    let e = GameError::from(io_err);
    assert!(matches!(e, GameError::IoError(_)));

    let decode_err = image::ImageError::IoError(std::io::Error::new(
        std::io::ErrorKind::UnexpectedEof,
        "truncated data",
    ));
    let e = GameError::from(decode_err);
    assert!(matches!(e, GameError::ImageError(_)));
}
