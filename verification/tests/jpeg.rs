use wimg::error::Error;
use wimg::image::{Image, ImageFormat};
use wimg::jpeg::{
    encode_request, encoded, extract_rotation, place_row, rotate180, seed, swap_pixel, turn,
    turned_dimensions, ColorSpace, EncodeOptions, JpegResult, Rotation,
};

/// A file of an opening, a JFIF segment and an Exif segment with one entry.
fn with_orientation(value: u16, big: bool, tag: u16) -> Vec<u8> {
    let e16 = |v: u16| if big { v.to_be_bytes() } else { v.to_le_bytes() };
    let e32 = |v: u32| if big { v.to_be_bytes() } else { v.to_le_bytes() };
    let mut tiff = Vec::new();
    tiff.extend_from_slice(if big { b"MM" } else { b"II" });
    tiff.extend_from_slice(&e16(42));
    tiff.extend_from_slice(&e32(8));
    tiff.extend_from_slice(&e16(2));
    // An entry that is not the orientation.
    tiff.extend_from_slice(&e16(0x010f));
    tiff.extend_from_slice(&e16(2));
    tiff.extend_from_slice(&e32(1));
    tiff.extend_from_slice(&e32(0));
    tiff.extend_from_slice(&e16(tag));
    tiff.extend_from_slice(&e16(3));
    tiff.extend_from_slice(&e32(1));
    tiff.extend_from_slice(&e16(value));
    tiff.extend_from_slice(&e16(0));
    tiff.extend_from_slice(&e32(0));
    let mut data = vec![0xff, 0xd8];
    data.extend_from_slice(&[0xff, 0xe0, 0x00, 0x04, 0x4a, 0x46]);
    data.extend_from_slice(&[0xff, 0xe1]);
    data.extend_from_slice(&((tiff.len() + 8) as u16).to_be_bytes());
    data.extend_from_slice(b"Exif\0\0");
    data.extend_from_slice(&tiff);
    data.extend_from_slice(&[0xff, 0xdb, 0x00, 0x02, 0x12, 0x34]);
    data
}

#[test]
fn seed_is_one() {
    assert_eq!(seed(), 1);
}

#[test]
fn rotation_from_exif() {
    for big in [true, false] {
        assert_eq!(extract_rotation(&with_orientation(3, big, 0x0112)), Some(Rotation::R180));
        assert_eq!(extract_rotation(&with_orientation(6, big, 0x0112)), Some(Rotation::R90));
        assert_eq!(extract_rotation(&with_orientation(8, big, 0x0112)), Some(Rotation::R270));
        for other in [0u16, 1, 2, 4, 5, 7, 9, 0x0600] {
            assert_eq!(extract_rotation(&with_orientation(other, big, 0x0112)), None);
        }
        assert_eq!(extract_rotation(&with_orientation(6, big, 0x0113)), None);
    }
}

#[test]
fn rotation_of_data_that_ends_early() {
    let whole = with_orientation(6, true, 0x0112);
    assert_eq!(extract_rotation(&[]), None);
    assert_eq!(extract_rotation(&[0xff]), None);
    assert_eq!(extract_rotation(&[0xff, 0xd8]), None);
    assert_eq!(extract_rotation(&[0xff, 0xd8, 0xff]), None);
    // The Exif segment ends six bytes before the file does. Cut anywhere
    // before that, the segment announces more than is there.
    let segment_end = whole.len() - 6;
    for len in 0..segment_end {
        assert_eq!(extract_rotation(&whole[..len]), None, "first {len} bytes");
    }
    assert_eq!(extract_rotation(&whole[..segment_end]), Some(Rotation::R90));
}

#[test]
fn rotation_without_exif() {
    // No segment at all after the opening.
    assert_eq!(extract_rotation(&[0xff, 0xd8, 0x00, 0x00, 0x00, 0x00]), None);
    // An APP1 segment that is not Exif.
    let mut data = vec![0xff, 0xd8, 0xff, 0xe1, 0x00, 0x08];
    data.extend_from_slice(b"http:/");
    data.extend_from_slice(&with_orientation(6, true, 0x0112)[2..]);
    assert_eq!(extract_rotation(&data), None);
    // A segment that holds nothing but its length is stepped over.
    let mut data = vec![0xff, 0xd8, 0xff, 0xe0, 0x00, 0x02];
    data.extend_from_slice(&with_orientation(8, false, 0x0112)[2..]);
    assert_eq!(extract_rotation(&data), Some(Rotation::R270));
    // A length of zero leads into the length itself, which starts no segment.
    let mut data = vec![0xff, 0xd8, 0xff, 0xe0, 0x00, 0x00];
    data.extend_from_slice(&with_orientation(8, false, 0x0112)[2..]);
    assert_eq!(extract_rotation(&data), None);
    // An APP1 segment too short to hold anything.
    assert_eq!(extract_rotation(&[0xff, 0xd8, 0xff, 0xe1, 0x00, 0x01, 0, 0]), None);
}

#[test]
fn second_exif_segment_is_read_where_the_first_has_no_orientation() {
    let first = with_orientation(6, true, 0x0113);
    let second = with_orientation(3, false, 0x0112);
    let mut data = first[..first.len() - 6].to_vec();
    data.extend_from_slice(&second[8..]);
    assert_eq!(extract_rotation(&data), Some(Rotation::R180));
}

#[test]
fn swap_pixel_swaps_whole_pixels() {
    let mut data = vec![1, 2, 3, 4, 5, 6, 7, 8, 9, 10, 11, 12];
    swap_pixel::<3>(&mut data, 0, 3);
    assert_eq!(data, vec![10, 11, 12, 4, 5, 6, 7, 8, 9, 1, 2, 3]);
    swap_pixel::<4>(&mut data, 1, 2);
    assert_eq!(data, vec![10, 11, 12, 4, 9, 1, 2, 3, 5, 6, 7, 8]);
    swap_pixel::<1>(&mut data, 0, 11);
    assert_eq!(data, vec![8, 11, 12, 4, 9, 1, 2, 3, 5, 6, 7, 10]);
}

#[test]
fn rotate180_reverses_the_pixels() {
    let mut data = vec![1, 2, 3, 4, 5, 6, 7, 8, 9];
    rotate180::<3>(&mut data);
    assert_eq!(data, vec![7, 8, 9, 4, 5, 6, 1, 2, 3]);
    let mut data = vec![1, 2, 3, 4, 5, 6, 7, 8];
    rotate180::<4>(&mut data);
    assert_eq!(data, vec![5, 6, 7, 8, 1, 2, 3, 4]);
    rotate180::<2>(&mut data);
    assert_eq!(data, vec![3, 4, 1, 2, 7, 8, 5, 6]);
    let mut data: Vec<u8> = vec![];
    rotate180::<3>(&mut data);
    assert!(data.is_empty());
    let mut data = vec![1, 2, 3];
    rotate180::<3>(&mut data);
    assert_eq!(data, vec![1, 2, 3]);
}

/// A picture of 3 by 2 whose pixel (x, y) is (10 * y + x, 0, 9).
fn picture() -> Vec<u8> {
    let mut data = Vec::new();
    for y in 0..2u8 {
        for x in 0..3u8 {
            data.extend_from_slice(&[10 * y + x, 0, 9]);
        }
    }
    data
}

fn reds(img: &Image) -> Vec<u8> {
    img.data().iter().step_by(3).copied().collect()
}

#[test]
fn turn_by_nothing() {
    let out = turn(&picture(), 3, 2, None).unwrap();
    assert_eq!((out.width(), out.height()), (3, 2));
    assert_eq!(out.format(), ImageFormat::RGB8);
    assert_eq!(out.data(), &picture());
}

#[test]
fn turn_by_a_quarter() {
    // 0 1 2        10 0
    // 10 11 12 ->  11 1
    //              12 2
    let out = turn(&picture(), 3, 2, Some(Rotation::R90)).unwrap();
    assert_eq!((out.width(), out.height()), (2, 3));
    assert_eq!(reds(&out), vec![10, 0, 11, 1, 12, 2]);
    assert_eq!(out.data()[1..3], [0, 9]);
}

#[test]
fn turn_by_a_half() {
    let out = turn(&picture(), 3, 2, Some(Rotation::R180)).unwrap();
    assert_eq!((out.width(), out.height()), (3, 2));
    assert_eq!(reds(&out), vec![12, 11, 10, 2, 1, 0]);
}

#[test]
fn turn_by_three_quarters() {
    // 0 1 2        2 12
    // 10 11 12 ->  1 11
    //              0 10
    let out = turn(&picture(), 3, 2, Some(Rotation::R270)).unwrap();
    assert_eq!((out.width(), out.height()), (2, 3));
    assert_eq!(reds(&out), vec![2, 12, 1, 11, 0, 10]);
}

#[test]
fn turn_needs_all_pixels() {
    assert!(turn(&picture()[1..], 3, 2, None).is_none());
    assert!(turn(&picture(), 2, 3, None).is_some());
    assert!(turn(&picture(), 3, 3, None).is_none());
    assert!(turn(&[], 0, 5, Some(Rotation::R90)).is_some());
}

#[test]
fn four_quarter_turns_give_the_picture_back() {
    let mut data = picture();
    let (mut w, mut h) = (3, 2);
    for _ in 0..4 {
        let out = turn(&data, w, h, Some(Rotation::R90)).unwrap();
        w = out.width();
        h = out.height();
        data = out.into_vec();
    }
    assert_eq!((w, h), (3, 2));
    assert_eq!(data, picture());
}

#[test]
fn rows_placed_one_by_one() {
    let source = picture();
    for rotation in [None, Some(Rotation::R90), Some(Rotation::R180), Some(Rotation::R270)] {
        let mut buffer = vec![0u8; source.len()];
        // The rows may come in any order.
        for y in [1u32, 0] {
            let mut row = source[y as usize * 9..(y as usize + 1) * 9].to_vec();
            place_row(&mut buffer, &mut row, y, 3, 2, rotation);
        }
        assert_eq!(&buffer, turn(&source, 3, 2, rotation).unwrap().data());
        let (w, h) = turned_dimensions(rotation, 3, 2);
        assert!(Image::from_vec(buffer, ImageFormat::RGB8, w, h).is_some());
    }
}

#[test]
fn encode_request_of_raw_images() {
    let opts = EncodeOptions { quality: 42 };
    let rgb = Image::from_vec(vec![0; 5 * 2 * 3], ImageFormat::RGB8, 5, 2).unwrap();
    let request = encode_request(&rgb, &opts).unwrap();
    assert_eq!(request.color_space, ColorSpace::Rgb);
    assert_eq!(request.components, 3);
    assert_eq!(request.quality, 42);
    assert_eq!(request.row_stride, 15);
    let rgba = Image::from_vec(vec![0; 5 * 2 * 4], ImageFormat::RGBA8, 5, 2).unwrap();
    let request = encode_request(&rgba, &EncodeOptions::default()).unwrap();
    assert_eq!(request.color_space, ColorSpace::ExtRgba);
    assert_eq!(request.components, 4);
    assert_eq!(request.quality, 80);
    assert_eq!(request.row_stride, 20);
}

#[test]
fn encode_request_of_encoded_image_is_refused() {
    let img = Image::from_vec(vec![1], ImageFormat::AVIF, 5, 2).unwrap();
    match encode_request(&img, &EncodeOptions::default()) {
        Err(Error::Process { process, format }) => {
            assert_eq!(process, "encode as JPEG");
            assert_eq!(format, ImageFormat::AVIF);
        }
        _ => panic!("expected a Process error"),
    }
}

#[test]
fn encoded_file_has_the_size_of_the_image() {
    let img = Image::from_vec(vec![0; 12], ImageFormat::RGB8, 2, 2).unwrap();
    let out = encoded(&img, vec![0xff, 0xd8, 0xff, 0xd9]);
    assert_eq!(out.format(), ImageFormat::JPEG);
    assert_eq!((out.width(), out.height()), (2, 2));
    assert_eq!(out.data(), &vec![0xff, 0xd8, 0xff, 0xd9]);
}

fn field(text: &[u8]) -> [u8; 200] {
    let mut err = [0u8; 200];
    err[..text.len()].copy_from_slice(text);
    err
}

#[test]
fn jpeg_result_ok() {
    assert!(JpegResult::new(true, field(b"ignored")).into_result().is_ok());
}

#[test]
fn jpeg_result_message_ends_at_the_first_zero() {
    let mut err = field(b"Not a JPEG file");
    err[30] = b'x';
    let e = JpegResult::new(false, err).into_result().unwrap_err();
    assert_eq!(e.0, "Not a JPEG file");
    let e = JpegResult::new(false, [0u8; 200]).into_result().unwrap_err();
    assert_eq!(e.0, "");
    let e = JpegResult::new(false, [b'a'; 200]).into_result().unwrap_err();
    assert_eq!(e.0, "a".repeat(200));
}

#[test]
fn jpeg_result_message_that_is_not_text() {
    let e = JpegResult::new(false, field(&[b'o', b'k', 0xff, b'!'])).into_result().unwrap_err();
    assert_eq!(e.0, "ok\u{fffd}!");
}
