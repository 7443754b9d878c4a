use wimg::error::{AvifError, ColorType, Error, JpegError, PngError, ResizeError};
use wimg::ffi::{
    avif_encode, avif_set_encode_quality, avif_set_encode_speed, context_new, finish, image_new,
    jpeg_set_encode_quality, last_error_message, png_decode, png_encode, resize,
    webp_set_encode_quality, ErrorCode, SUCCESS,
};
use wimg::image::{Image, ImageFormat};
use wimg::text::{decimal, pad_left};

fn solid(width: u32, height: u32) -> Image {
    Image::from_vec(vec![90; (width * height * 3) as usize], ImageFormat::RGB8, width, height).unwrap()
}

#[test]
fn error_codes() {
    assert_eq!(SUCCESS, 0);
    assert_eq!(ErrorCode::NullPtr.code(), -1);
    assert_eq!(ErrorCode::Decode.code(), -2);
    assert_eq!(ErrorCode::Encode.code(), -3);
    assert_eq!(ErrorCode::Resize.code(), -4);
}

#[test]
fn new_context_has_the_defaults() {
    let ctx = context_new();
    assert!(ctx.last_error.is_none());
    assert_eq!(ctx.jpeg_encode_options.quality, 80);
    assert_eq!(ctx.avif_encode_options.quality, 60);
    assert_eq!(ctx.avif_encode_options.speed, 5);
    assert_eq!(ctx.webp_encode_options.quality, 80);
    let img = image_new();
    assert_eq!((img.width(), img.height(), img.data().len()), (0, 0, 0));
}

#[test]
fn options_are_set_in_the_context() {
    let mut ctx = context_new();
    jpeg_set_encode_quality(Some(&mut ctx), 10);
    avif_set_encode_quality(Some(&mut ctx), 20);
    avif_set_encode_speed(Some(&mut ctx), 3);
    webp_set_encode_quality(Some(&mut ctx), 40);
    assert_eq!(ctx.jpeg_encode_options.quality, 10);
    assert_eq!(ctx.avif_encode_options.quality, 20);
    assert_eq!(ctx.avif_encode_options.speed, 3);
    assert_eq!(ctx.webp_encode_options.quality, 40);
    jpeg_set_encode_quality(None, 1);
    avif_set_encode_quality(None, 1);
    avif_set_encode_speed(None, 1);
    webp_set_encode_quality(None, 1);
}

#[test]
fn resize_with_a_handle_missing() {
    let mut ctx = context_new();
    let img = solid(4, 4);
    let mut out = image_new();
    assert_eq!(resize(None, Some(&img), 2, 2, false, Some(&mut out)), -1);
    assert_eq!(resize(Some(&mut ctx), None, 2, 2, false, Some(&mut out)), -1);
    assert_eq!(resize(Some(&mut ctx), Some(&img), 2, 2, false, None), -1);
    assert!(ctx.last_error.is_none());
    assert_eq!(out.width(), 0);
    assert!(last_error_message(None).is_none());
}

#[test]
fn resize_through_the_session() {
    let mut ctx = context_new();
    let img = solid(8, 4);
    let mut out = image_new();
    assert_eq!(resize(Some(&mut ctx), Some(&img), 4, 2, false, Some(&mut out)), 0);
    assert_eq!((out.width(), out.height()), (4, 2));
    assert!(out.data().iter().all(|b| *b == 90));
    assert!(ctx.last_error.is_none());
    assert!(last_error_message(Some(&mut ctx)).is_none());
}

#[test]
fn failed_resize_keeps_the_failure() {
    let mut ctx = context_new();
    jpeg_set_encode_quality(Some(&mut ctx), 55);
    let img = Image::from_vec(vec![1, 2], ImageFormat::JPEG, 8, 4).unwrap();
    let mut out = solid(1, 1);
    assert_eq!(resize(Some(&mut ctx), Some(&img), 4, 2, false, Some(&mut out)), -4);
    assert_eq!((out.width(), out.height()), (1, 1));
    assert_eq!(ctx.jpeg_encode_options.quality, 55);
    assert_eq!(last_error_message(Some(&mut ctx)).unwrap(), "cannot resize JPEG");
    // Asked for once, the failure is forgotten.
    assert!(last_error_message(Some(&mut ctx)).is_none());
}

#[test]
fn success_leaves_an_older_failure_in_place() {
    let mut ctx = context_new();
    let mut out = image_new();
    let bad = Image::from_vec(vec![], ImageFormat::PNG, 1, 1).unwrap();
    assert_eq!(resize(Some(&mut ctx), Some(&bad), 1, 1, true, Some(&mut out)), -4);
    assert_eq!(resize(Some(&mut ctx), Some(&solid(4, 4)), 2, 2, true, Some(&mut out)), 0);
    assert_eq!(last_error_message(Some(&mut ctx)).unwrap(), "cannot resize PNG");
}

#[test]
fn png_through_the_session() {
    let mut ctx = context_new();
    let img = solid(3, 2);
    let mut file = image_new();
    assert_eq!(png_encode(Some(&mut ctx), Some(&img), Some(&mut file)), 0);
    assert_eq!(file.format(), ImageFormat::PNG);
    let mut back = image_new();
    assert_eq!(png_decode(Some(&mut ctx), Some(file.data()), Some(&mut back)), 0);
    assert_eq!(back.data(), img.data());
    assert_eq!(png_decode(Some(&mut ctx), None, Some(&mut back)), -1);
    assert_eq!(png_encode(None, Some(&img), Some(&mut file)), -1);
    assert_eq!(png_encode(Some(&mut ctx), Some(&file), Some(&mut back)), -3);
    assert_eq!(last_error_message(Some(&mut ctx)).unwrap(), "cannot encode as PNG PNG");
    assert_eq!(png_encode(Some(&mut ctx), Some(&image_new()), Some(&mut back)), -3);
    assert!(last_error_message(Some(&mut ctx))
        .unwrap()
        .starts_with("failed to process PNG image\n\nCaused by:\n   0: failed to encode image as PNG\n   1: "));
    assert_eq!(png_decode(Some(&mut ctx), Some(b"nothing"), Some(&mut back)), -2);
    let message = last_error_message(Some(&mut ctx)).unwrap();
    assert!(message.starts_with(
        "failed to process PNG image\n\nCaused by:\n   0: failed to decode PNG image\n   1: "
    ));
    assert!(message.len() > 83);
}

#[test]
fn avif_through_the_session() {
    let mut ctx = context_new();
    avif_set_encode_speed(Some(&mut ctx), 10);
    let img = solid(8, 8);
    let mut out = image_new();
    assert_eq!(avif_encode(Some(&mut ctx), Some(&img), Some(&mut out)), 0);
    assert_eq!(out.format(), ImageFormat::AVIF);
    avif_set_encode_speed(Some(&mut ctx), 0);
    assert_eq!(avif_encode(Some(&mut ctx), Some(&img), Some(&mut out)), -3);
    assert_eq!(out.format(), ImageFormat::AVIF);
    assert_eq!(
        last_error_message(Some(&mut ctx)).unwrap(),
        "failed to process AVIF image\n\nCaused by:\n   0: encode options out of range"
    );
    assert_eq!(avif_encode(Some(&mut ctx), None, Some(&mut out)), -1);
    // An image that is already encoded: the status of a failed encode, the
    // failure kept, the images as they were.
    avif_set_encode_speed(Some(&mut ctx), 5);
    let jpeg = Image::from_vec(vec![1, 2], ImageFormat::JPEG, 8, 8).unwrap();
    let mut kept = solid(1, 1);
    assert_eq!(avif_encode(Some(&mut ctx), Some(&jpeg), Some(&mut kept)), ErrorCode::Encode.code());
    assert_eq!((kept.width(), kept.height()), (1, 1));
    assert_eq!(jpeg.data(), &vec![1, 2]);
    assert_eq!(last_error_message(Some(&mut ctx)).unwrap(), "cannot encode as AVIF JPEG");
}

#[test]
fn finish_files_the_outcome() {
    let mut ctx = context_new();
    let mut out = image_new();
    assert_eq!(finish(&mut ctx, &mut out, Ok(solid(2, 2)), ErrorCode::Encode), 0);
    assert_eq!(out.width(), 2);
    let code = finish(&mut ctx, &mut out, Err(Error::Webp("failed to encode")), ErrorCode::Decode);
    assert_eq!(code, -2);
    assert_eq!(out.width(), 2);
    assert_eq!(
        last_error_message(Some(&mut ctx)).unwrap(),
        "failed to process WEBP image: failed to encode"
    );
}

#[test]
fn messages_of_failures() {
    let says = |e: Error| e.message();
    assert_eq!(says(Error::Resize(ResizeError::OutOfMemory)), "failed to resize image");
    assert_eq!(says(Error::Jpeg(JpegError("bad marker".into()))), "failed to process JPEG image: bad marker");
    assert_eq!(says(Error::Png(PngError::UnsupportedAnimation)), "failed to process PNG image");
    assert_eq!(says(Error::Avif(AvifError("x".into()))), "failed to process AVIF image");
    assert_eq!(says(Error::Webp("invalid config")), "failed to process WEBP image: invalid config");
    assert_eq!(says(Error::CropOutOfBounds), "crop out of bounds");
    assert_eq!(says(Error::NullPtr), "received null pointer");
    assert_eq!(
        says(Error::Process { process: "encode as AVIF", format: ImageFormat::WEBP }),
        "cannot encode as AVIF WEBP"
    );
    assert_eq!(ResizeError::OutOfMemory.message(), "out of memory");
    assert_eq!(ResizeError::InvalidParameters.message(), "invalid parameters");
    assert_eq!(PngError::Decode("x".into()).message(), "failed to decode PNG image");
    assert_eq!(PngError::Encode("x".into()).message(), "failed to encode image as PNG");
    assert_eq!(PngError::UnsupportedColorType(ColorType::Indexed).message(), "unsupported color type: Indexed");
    assert_eq!(PngError::UnsupportedAnimation.message(), "animated PNGs are not supported");
    assert_eq!(PngError::InvalidSource(ImageFormat::AVIF).message(), "cannot encode AVIF as PNG");
}

#[test]
fn reports_of_failures() {
    assert_eq!(Error::CropOutOfBounds.report(), "crop out of bounds");
    assert_eq!(
        Error::Resize(ResizeError::InvalidParameters).report(),
        "failed to resize image\n\nCaused by:\n   0: invalid parameters"
    );
    assert_eq!(
        Error::Jpeg(JpegError("Not a JPEG file".into())).report(),
        "failed to process JPEG image: Not a JPEG file\n\nCaused by:\n   0: Not a JPEG file"
    );
    assert_eq!(
        Error::Png(PngError::Decode("Invalid signature".into())).report(),
        "failed to process PNG image\n\nCaused by:\n   0: failed to decode PNG image\n   1: Invalid signature"
    );
    assert_eq!(
        Error::Png(PngError::UnsupportedColorType(ColorType::Grayscale)).report(),
        "failed to process PNG image\n\nCaused by:\n   0: unsupported color type: Grayscale"
    );
    assert_eq!(Error::Png(PngError::Decode("a".into())).causes_list(), vec!["failed to decode PNG image", "a"]);
    assert!(Error::NullPtr.causes_list().is_empty());
}

#[test]
fn numbers_in_decimal() {
    assert_eq!(decimal(0), "0");
    assert_eq!(decimal(7), "7");
    assert_eq!(decimal(10), "10");
    assert_eq!(decimal(255), "255");
    assert_eq!(decimal(1234567890), "1234567890");
    assert_eq!(decimal(u64::MAX), u64::MAX.to_string());
}

#[test]
fn text_set_to_the_right() {
    assert_eq!(pad_left(&"0".to_string(), 4), "   0");
    assert_eq!(pad_left(&"12".to_string(), 4), "  12");
    assert_eq!(pad_left(&"1234".to_string(), 4), "1234");
    assert_eq!(pad_left(&"12345".to_string(), 4), "12345");
    assert_eq!(pad_left(&"".to_string(), 2), "  ");
    assert_eq!(pad_left(&"é".to_string(), 3), "  é");
}
