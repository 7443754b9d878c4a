use wimg::error::{ColorType, Error, PngError};
use wimg::image::{Image, ImageFormat};
use wimg::png::{frame_image, frame_size, FrameInfo, Header};
use wimg::webp::{check, encode_request, encoded, EncodeOptions, Step};

fn gradient(width: u32, height: u32, format: ImageFormat) -> Image {
    let channels = if format == ImageFormat::RGBA8 { 4 } else { 3 };
    let mut data = Vec::new();
    for y in 0..height {
        for x in 0..width {
            for c in 0..channels {
                data.push(((x * 7 + y * 13 + c * 29) % 251) as u8);
            }
        }
    }
    Image::from_vec(data, format, width, height).unwrap()
}

#[test]
fn seeds() {
    assert_eq!(wimg::webp::seed(), 0);
    assert_eq!(wimg::jpeg::seed(), 1);
    assert_eq!(wimg::png::seed(), 2);
    assert_eq!(wimg::avif::seed(), 3);
    assert_eq!(wimg::resize::seed(), 1);
}

#[test]
fn no_two_formats_have_one_seed() {
    let seeds = [wimg::webp::seed(), wimg::jpeg::seed(), wimg::png::seed(), wimg::avif::seed()];
    for (i, a) in seeds.iter().enumerate() {
        for b in seeds.iter().skip(i + 1) {
            assert_ne!(a, b);
        }
    }
}

#[test]
fn default_options() {
    assert_eq!(wimg::jpeg::EncodeOptions::default().quality, 80);
    assert_eq!(wimg::webp::EncodeOptions::default().quality, 80);
    assert_eq!(wimg::avif::EncodeOptions::default().quality, 60);
    assert_eq!(wimg::avif::EncodeOptions::default().speed, 5);
}

#[test]
fn png_round_trip_rgb() {
    let img = gradient(17, 9, ImageFormat::RGB8);
    let file = wimg::png::encode(&img).unwrap();
    assert_eq!(file.format(), ImageFormat::PNG);
    assert_eq!((file.width(), file.height()), (17, 9));
    assert_eq!(file.data()[..8], [0x89, b'P', b'N', b'G', 0x0d, 0x0a, 0x1a, 0x0a]);
    let back = wimg::png::decode(file.data()).unwrap();
    assert_eq!(back.format(), ImageFormat::RGB8);
    assert_eq!((back.width(), back.height()), (17, 9));
    assert_eq!(back.data(), img.data());
    // Once more round: the same file, the same pixels.
    let again = wimg::png::encode(&back).unwrap();
    assert_eq!(again.data(), file.data());
    let third = wimg::png::decode(again.data()).unwrap();
    assert_eq!((third.width(), third.height()), (back.width(), back.height()));
    assert_eq!(third.data().len(), back.data().len());
}

#[test]
fn png_round_trip_rgba() {
    let img = gradient(5, 6, ImageFormat::RGBA8);
    let file = wimg::png::encode(&img).unwrap();
    let back = wimg::png::decode(file.data()).unwrap();
    assert_eq!(back.format(), ImageFormat::RGBA8);
    assert_eq!((back.width(), back.height()), (5, 6));
    assert_eq!(back.data(), img.data());
}

#[test]
fn png_encode_of_encoded_image_is_refused() {
    for format in [ImageFormat::JPEG, ImageFormat::PNG, ImageFormat::AVIF, ImageFormat::WEBP] {
        let img = Image::from_vec(vec![1, 2, 3], format, 1, 1).unwrap();
        match wimg::png::encode(&img) {
            Err(Error::Process { process, format: refused }) => {
                assert_eq!(process, "encode as PNG");
                assert_eq!(refused, format);
            }
            _ => panic!("expected a Process error"),
        }
        assert_eq!(img.data(), &vec![1, 2, 3]);
    }
}

#[test]
fn png_encode_of_every_image_with_pixels_succeeds() {
    for (w, h) in [(1u32, 1u32), (1, 7), (7, 1), (3, 5), (64, 2), (2, 300)] {
        for format in [ImageFormat::RGB8, ImageFormat::RGBA8] {
            let img = gradient(w, h, format);
            let file = wimg::png::encode(&img).unwrap();
            assert_eq!(file.format(), ImageFormat::PNG);
            assert_eq!((file.width(), file.height()), (w, h));
            assert_eq!(file.data()[..8], [137, 80, 78, 71, 13, 10, 26, 10]);
            // The header names the size, eight bits and the colour type.
            assert_eq!(file.data()[16..20], w.to_be_bytes());
            assert_eq!(file.data()[20..24], h.to_be_bytes());
            assert_eq!(file.data()[24], 8);
            assert_eq!(file.data()[25], if format == ImageFormat::RGB8 { 2 } else { 6 });
        }
    }
}

#[test]
fn png_encode_of_image_without_pixels_fails() {
    for (w, h) in [(0u32, 0u32), (0, 4), (4, 0)] {
        for format in [ImageFormat::RGB8, ImageFormat::RGBA8] {
            let img = Image::from_vec(vec![], format, w, h).unwrap();
            assert!(matches!(wimg::png::encode(&img), Err(Error::Png(PngError::Encode(_)))));
        }
    }
}

#[test]
fn png_decode_gives_the_frame_that_the_stream_holds() {
    // Two different pictures of one size decode to their own pixels.
    let a = gradient(6, 4, ImageFormat::RGB8);
    let b = Image::from_vec(vec![9u8; 6 * 4 * 3], ImageFormat::RGB8, 6, 4).unwrap();
    let back_a = wimg::png::decode(wimg::png::encode(&a).unwrap().data()).unwrap();
    let back_b = wimg::png::decode(wimg::png::encode(&b).unwrap().data()).unwrap();
    assert_eq!(back_a.data(), a.data());
    assert_eq!(back_b.data(), b.data());
    assert_ne!(back_a.data(), back_b.data());
    // The same stream decodes to the same image every time.
    let file = wimg::png::encode(&a).unwrap();
    assert_eq!(wimg::png::decode(file.data()).unwrap().data(), back_a.data());
}

#[test]
fn png_encode_of_empty_image_fails() {
    assert!(matches!(wimg::png::encode(&Image::empty()), Err(Error::Png(PngError::Encode(_)))));
}

#[test]
fn png_decode_of_what_is_no_png_fails() {
    assert!(matches!(wimg::png::decode(b"not a png"), Err(Error::Png(PngError::Decode(_)))));
    assert!(matches!(wimg::png::decode(&[]), Err(Error::Png(PngError::Decode(_)))));
    let img = gradient(4, 4, ImageFormat::RGB8);
    let file = wimg::png::encode(&img).unwrap().into_vec();
    assert!(matches!(wimg::png::decode(&file[..file.len() / 2]), Err(Error::Png(PngError::Decode(_)))));
}

fn encode_with(color: png::ColorType, pixels: &[u8], width: u32, height: u32, frames: Option<u32>) -> Vec<u8> {
    let mut file = Vec::new();
    {
        let mut encoder = png::Encoder::new(&mut file, width, height);
        encoder.set_color(color);
        encoder.set_depth(png::BitDepth::Eight);
        if let Some(n) = frames {
            encoder.set_animated(n, 0).unwrap();
        }
        let mut writer = encoder.write_header().unwrap();
        for _ in 0..frames.unwrap_or(1) {
            writer.write_image_data(pixels).unwrap();
        }
    }
    file
}

#[test]
fn png_decode_of_grayscale_is_refused() {
    let file = encode_with(png::ColorType::Grayscale, &[1, 2, 3, 4], 2, 2, None);
    assert!(matches!(
        wimg::png::decode(&file),
        Err(Error::Png(PngError::UnsupportedColorType(ColorType::Grayscale)))
    ));
    let file = encode_with(png::ColorType::GrayscaleAlpha, &[1, 2, 3, 4], 2, 1, None);
    assert!(matches!(
        wimg::png::decode(&file),
        Err(Error::Png(PngError::UnsupportedColorType(ColorType::GrayscaleAlpha)))
    ));
}

#[test]
fn png_decode_of_animation_is_refused() {
    let file = encode_with(png::ColorType::Rgb, &[1, 2, 3, 4, 5, 6], 2, 1, Some(2));
    assert!(matches!(wimg::png::decode(&file), Err(Error::Png(PngError::UnsupportedAnimation))));
}

#[test]
fn frame_image_by_colour_type() {
    let info = |color_type, size| FrameInfo { color_type, width: 2, height: 1, size };
    let img = frame_image(info(ColorType::Rgb, 6), vec![1, 2, 3, 4, 5, 6]).unwrap();
    assert_eq!(img.format(), ImageFormat::RGB8);
    assert_eq!(img.data(), &vec![1, 2, 3, 4, 5, 6]);
    let img = frame_image(info(ColorType::Rgba, 8), vec![1, 2, 3, 4, 5, 6, 7, 8, 9, 10]).unwrap();
    assert_eq!(img.format(), ImageFormat::RGBA8);
    assert_eq!(img.data(), &vec![1, 2, 3, 4, 5, 6, 7, 8]);
    let img = frame_image(info(ColorType::Rgb, 6), vec![1, 2]).unwrap();
    assert_eq!(img.data(), &vec![1, 2, 0, 0, 0, 0]);
    for c in [ColorType::Grayscale, ColorType::Indexed, ColorType::GrayscaleAlpha] {
        match frame_image(info(c, 6), vec![0; 6]) {
            Err(Error::Png(PngError::UnsupportedColorType(got))) => assert_eq!(got, c),
            _ => panic!("expected UnsupportedColorType"),
        }
    }
    match frame_image(info(ColorType::Rgb, 5), vec![0; 6]) {
        Err(Error::Png(PngError::Decode(text))) => assert_eq!(text, "frame does not hold its pixels"),
        _ => panic!("expected Decode"),
    }
}

#[test]
fn frame_size_from_the_header() {
    assert_eq!(frame_size(Header { animated: false, frame_size: Some(48) }).unwrap(), 48);
    assert!(matches!(
        frame_size(Header { animated: true, frame_size: Some(48) }),
        Err(Error::Png(PngError::UnsupportedAnimation))
    ));
    assert!(matches!(
        frame_size(Header { animated: true, frame_size: None }),
        Err(Error::Png(PngError::UnsupportedAnimation))
    ));
    match frame_size(Header { animated: false, frame_size: None }) {
        Err(Error::Png(PngError::Decode(text))) => assert_eq!(text, "frame exceeds what memory can hold"),
        _ => panic!("expected Decode"),
    }
}

#[test]
fn png_finish_encode() {
    let img = gradient(3, 2, ImageFormat::RGB8);
    let out = wimg::png::finish_encode(&img, Ok(vec![9, 8, 7])).unwrap();
    assert_eq!(out.format(), ImageFormat::PNG);
    assert_eq!((out.width(), out.height()), (3, 2));
    assert_eq!(out.data(), &vec![9, 8, 7]);
    match wimg::png::finish_encode(&img, Err("too bad".to_string())) {
        Err(Error::Png(PngError::Encode(text))) => assert_eq!(text, "too bad"),
        _ => panic!("expected Encode"),
    }
}

#[test]
fn avif_encode_small_images() {
    let opts = wimg::avif::EncodeOptions { quality: 50, speed: 10 };
    for format in [ImageFormat::RGB8, ImageFormat::RGBA8] {
        let img = gradient(8, 8, format);
        let file = wimg::avif::encode(&img, &opts).unwrap();
        assert_eq!(file.format(), ImageFormat::AVIF);
        assert_eq!((file.width(), file.height()), (8, 8));
        assert_eq!(file.data()[4..12], *b"ftypavif");
        assert_ne!(file.data(), img.data());
    }
}

#[test]
fn avif_encode_with_quality_zero() {
    let img = gradient(8, 8, ImageFormat::RGB8);
    let file = wimg::avif::encode(&img, &wimg::avif::EncodeOptions { quality: 0, speed: 10 }).unwrap();
    assert_eq!(file.format(), ImageFormat::AVIF);
}

#[test]
fn avif_encode_refusals() {
    let img = gradient(8, 8, ImageFormat::RGB8);
    for (quality, speed) in [(101u16, 5u8), (50, 0), (50, 11), (65535, 255)] {
        match wimg::avif::encode(&img, &wimg::avif::EncodeOptions { quality, speed }) {
            Err(Error::Avif(e)) => assert_eq!(e.0, "encode options out of range"),
            _ => panic!("expected Avif"),
        }
    }
    match wimg::avif::encode(&Image::empty(), &wimg::avif::EncodeOptions::default()) {
        Err(Error::Avif(e)) => assert_eq!(e.0, "image has no pixels"),
        _ => panic!("expected Avif"),
    }
    let png = Image::from_vec(vec![1], ImageFormat::PNG, 1, 1).unwrap();
    match wimg::avif::encode(&png, &wimg::avif::EncodeOptions { quality: 200, speed: 0 }) {
        Err(Error::Process { process, format }) => {
            assert_eq!(process, "encode as AVIF");
            assert_eq!(format, ImageFormat::PNG);
        }
        _ => panic!("expected Process"),
    }
}

#[test]
fn avif_request_of_raw_images() {
    use_request(ImageFormat::RGB8, 60, 5, false, 60, 5);
    use_request(ImageFormat::RGBA8, 100, 10, true, 100, 10);
    use_request(ImageFormat::RGB8, 0, 1, false, 1, 1);
    use_request(ImageFormat::RGBA8, 1, 7, true, 1, 7);
}

fn use_request(format: ImageFormat, quality: u16, speed: u8, alpha: bool, told_quality: u16, told_speed: u8) {
    let img = gradient(4, 4, format);
    let request = wimg::avif::encode_request(&img, &wimg::avif::EncodeOptions { quality, speed }).unwrap();
    assert_eq!(request, wimg::avif::EncodeRequest { alpha, quality: told_quality, speed: told_speed });
}

#[test]
fn avif_request_refusals() {
    let img = gradient(4, 4, ImageFormat::RGB8);
    for (quality, speed) in [(101u16, 5u8), (50, 0), (50, 11)] {
        match wimg::avif::encode_request(&img, &wimg::avif::EncodeOptions { quality, speed }) {
            Err(Error::Avif(e)) => assert_eq!(e.0, "encode options out of range"),
            _ => panic!("expected Avif"),
        }
    }
    match wimg::avif::encode_request(&Image::empty(), &wimg::avif::EncodeOptions::default()) {
        Err(Error::Avif(e)) => assert_eq!(e.0, "image has no pixels"),
        _ => panic!("expected Avif"),
    }
    let webp = Image::from_vec(vec![1], ImageFormat::WEBP, 1, 1).unwrap();
    match wimg::avif::encode_request(&webp, &wimg::avif::EncodeOptions::default()) {
        Err(Error::Process { process, format }) => {
            assert_eq!(process, "encode as AVIF");
            assert_eq!(format, ImageFormat::WEBP);
        }
        _ => panic!("expected Process"),
    }
}

#[test]
fn avif_finish_encode() {
    let img = gradient(3, 2, ImageFormat::RGB8);
    let out = wimg::avif::finish_encode(&img, Ok(vec![1, 2])).unwrap();
    assert_eq!(out.format(), ImageFormat::AVIF);
    assert_eq!((out.width(), out.height()), (3, 2));
    match wimg::avif::finish_encode(&img, Err("no luck".to_string())) {
        Err(Error::Avif(e)) => assert_eq!(e.0, "no luck"),
        _ => panic!("expected Avif"),
    }
}

#[test]
fn webp_request_and_refusals() {
    let rgb = gradient(7, 2, ImageFormat::RGB8);
    let request = encode_request(&rgb, &EncodeOptions { quality: 33 }).unwrap();
    assert!(!request.alpha);
    assert_eq!(request.quality, 33);
    assert_eq!(request.row_stride, 21);
    let rgba = gradient(7, 2, ImageFormat::RGBA8);
    let request = encode_request(&rgba, &EncodeOptions::default()).unwrap();
    assert!(request.alpha);
    assert_eq!(request.row_stride, 28);
    let jpeg = Image::from_vec(vec![1], ImageFormat::JPEG, 1, 1).unwrap();
    match encode_request(&jpeg, &EncodeOptions::default()) {
        Err(Error::Process { process, format }) => {
            assert_eq!(process, "encode as WebP");
            assert_eq!(format, ImageFormat::JPEG);
        }
        _ => panic!("expected Process"),
    }
    assert!(check(Step::Encode, 1).is_ok());
    assert!(check(Step::Encode, -1).is_ok());
    let says = |step| match check(step, 0) {
        Err(Error::Webp(text)) => text,
        _ => panic!("expected Webp"),
    };
    assert_eq!(says(Step::Preset), "failed to initialize config preset");
    assert_eq!(says(Step::Validate), "invalid config");
    assert_eq!(says(Step::Picture), "failed to initialize picture");
    assert_eq!(says(Step::Import), "failed to import pixel data");
    assert_eq!(says(Step::Encode), "failed to encode");
    let out = encoded(&rgb, vec![b'R', b'I', b'F', b'F']);
    assert_eq!(out.format(), ImageFormat::WEBP);
    assert_eq!((out.width(), out.height()), (7, 2));
}
