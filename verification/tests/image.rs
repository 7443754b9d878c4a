use wimg::crop::{crop, Fit};
use wimg::error::Error;
use wimg::image::{Image, ImageFormat, PixelFormat};

fn numbered(width: u32, height: u32, channels: u32, format: ImageFormat) -> Image {
    let data: Vec<u8> = (0..width * height * channels).map(|i| (i % 256) as u8).collect();
    Image::from_vec(data, format, width, height).unwrap()
}

#[test]
fn pixel_size_is_three_or_four() {
    assert_eq!(PixelFormat::RGB8.pixel_size(), 3);
    assert_eq!(PixelFormat::RGBA8.pixel_size(), 4);
}

#[test]
fn pixel_format_of_each_format() {
    assert_eq!(ImageFormat::RGB8.pixel_format(), Some(PixelFormat::RGB8));
    assert_eq!(ImageFormat::RGBA8.pixel_format(), Some(PixelFormat::RGBA8));
    for f in [ImageFormat::JPEG, ImageFormat::PNG, ImageFormat::AVIF, ImageFormat::WEBP] {
        assert_eq!(f.pixel_format(), None);
    }
}

#[test]
fn format_names() {
    assert_eq!(ImageFormat::RGB8.name(), "RGB8");
    assert_eq!(ImageFormat::RGBA8.name(), "RGBA8");
    assert_eq!(ImageFormat::JPEG.name(), "JPEG");
    assert_eq!(ImageFormat::PNG.name(), "PNG");
    assert_eq!(ImageFormat::AVIF.name(), "AVIF");
    assert_eq!(ImageFormat::WEBP.name(), "WEBP");
}

#[test]
fn raw_image_needs_a_buffer_of_its_size() {
    assert!(Image::from_vec(vec![0; 12], ImageFormat::RGB8, 2, 2).is_some());
    assert!(Image::from_vec(vec![0; 11], ImageFormat::RGB8, 2, 2).is_none());
    assert!(Image::from_vec(vec![0; 13], ImageFormat::RGB8, 2, 2).is_none());
    assert!(Image::from_vec(vec![0; 16], ImageFormat::RGBA8, 2, 2).is_some());
    assert!(Image::from_vec(vec![0; 12], ImageFormat::RGBA8, 2, 2).is_none());
    assert!(Image::from_vec(vec![], ImageFormat::RGB8, 0, 7).is_some());
    assert!(Image::from_vec(vec![], ImageFormat::RGB8, 70000, 70000).is_none());
}

#[test]
fn encoded_image_takes_any_buffer() {
    let img = Image::from_vec(vec![1, 2, 3, 4, 5], ImageFormat::PNG, 640, 480).unwrap();
    assert_eq!(img.width(), 640);
    assert_eq!(img.height(), 480);
    assert_eq!(img.format(), ImageFormat::PNG);
    assert_eq!(img.data(), &vec![1, 2, 3, 4, 5]);
}

#[test]
fn mime_types() {
    let of = |f| Image::from_vec(vec![], f, 0, 0).unwrap().mime_type();
    assert_eq!(of(ImageFormat::RGB8), "application/octet-stream");
    assert_eq!(of(ImageFormat::RGBA8), "application/octet-stream");
    assert_eq!(of(ImageFormat::JPEG), "image/jpeg");
    assert_eq!(of(ImageFormat::PNG), "image/png");
    assert_eq!(of(ImageFormat::AVIF), "image/avif");
    assert_eq!(of(ImageFormat::WEBP), "image/webp");
}

#[test]
fn into_vec_gives_the_bytes_back() {
    let img = numbered(2, 3, 3, ImageFormat::RGB8);
    let copy = img.clone();
    assert_eq!(copy.width(), 2);
    assert_eq!(copy.height(), 3);
    assert_eq!(copy.data(), img.data());
    assert_eq!(img.into_vec(), (0..18).collect::<Vec<u8>>());
}

#[test]
fn empty_image_has_no_pixels() {
    let img = Image::empty();
    assert_eq!((img.width(), img.height()), (0, 0));
    assert_eq!(img.format(), ImageFormat::RGB8);
    assert!(img.data().is_empty());
}

#[test]
fn crop_out_of_bounds() {
    let img = numbered(4, 3, 3, ImageFormat::RGB8);
    for (w, h) in [(0, 1), (1, 0), (0, 0), (5, 3), (4, 4), (5, 4), (u32::MAX, 1), (1, u32::MAX)] {
        assert!(matches!(crop(&img, w, h, Fit::Contain), Err(Error::CropOutOfBounds)), "{w}x{h}");
    }
}

#[test]
fn crop_within_bounds_has_the_size_asked_for() {
    let img = numbered(4, 3, 4, ImageFormat::RGBA8);
    for w in 1..=4u32 {
        for h in 1..=3u32 {
            let out = crop(&img, w, h, Fit::Contain).unwrap();
            assert_eq!((out.width(), out.height()), (w, h));
            assert_eq!(out.format(), ImageFormat::RGBA8);
            assert_eq!(out.data().len() as u32, w * h * 4);
        }
    }
}

#[test]
fn crop_keeps_the_centre() {
    // 5 columns, 4 rows; pixel (x, y) holds (10 * y + x) in each channel.
    let mut data = Vec::new();
    for y in 0..4u8 {
        for x in 0..5u8 {
            data.extend_from_slice(&[10 * y + x, 100 + 10 * y + x, 200 + 10 * y + x]);
        }
    }
    let img = Image::from_vec(data, ImageFormat::RGB8, 5, 4).unwrap();
    // (5 - 2) / 2 = 1 column and (4 - 2) / 2 = 1 row are left out before.
    let out = crop(&img, 2, 2, Fit::Contain).unwrap();
    assert_eq!(out.data(), &vec![11, 111, 211, 12, 112, 212, 21, 121, 221, 22, 122, 222]);
    // An odd amount leaves one more out after than before.
    let out = crop(&img, 2, 1, Fit::Contain).unwrap();
    assert_eq!(out.data(), &vec![11, 111, 211, 12, 112, 212]);
    // The whole image is a crop of itself.
    let out = crop(&img, 5, 4, Fit::Contain).unwrap();
    assert_eq!(out.data(), img.data());
}

#[test]
fn crop_of_wide_image_starts_at_250() {
    let mut data = vec![0u8; 1000 * 500 * 3];
    data[250 * 3] = 77;
    let img = Image::from_vec(data, ImageFormat::RGB8, 1000, 500).unwrap();
    let out = crop(&img, 500, 500, Fit::Contain).unwrap();
    assert_eq!(out.data()[0], 77);
    assert_eq!((out.width(), out.height()), (500, 500));
}

#[test]
fn crop_of_encoded_image_is_refused() {
    let img = Image::from_vec(vec![1, 2, 3], ImageFormat::WEBP, 4, 4).unwrap();
    match crop(&img, 2, 2, Fit::Contain) {
        Err(Error::Process { process, format }) => {
            assert_eq!(process, "crop");
            assert_eq!(format, ImageFormat::WEBP);
        }
        _ => panic!("expected a Process error"),
    }
    // The bounds are looked at first.
    assert!(matches!(crop(&img, 5, 2, Fit::Contain), Err(Error::CropOutOfBounds)));
}
