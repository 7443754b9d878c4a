//! The PNG adapter: a stream to a raw image and back.

use crate::error::{ColorType, Error};
pub use crate::error::PngError;
use crate::image::{buffer_fits, Image, ImageFormat, ImageView, PixelFormat};
use std::io::Cursor;
use vstd::prelude::*;
use vstd::string::StringExecFns;

verus! {

/// The constant by which a PNG output differs in its content hash.
pub fn seed() -> (s: u32)
    ensures
        s == 2,
{
    2
}

/// What the decoder says of the frame it has written.
#[derive(Debug, Clone, Copy)]
pub struct FrameInfo {
    pub color_type: ColorType,
    pub width: u32,
    pub height: u32,
    /// Number of bytes of the frame.
    pub size: usize,
}

/// What the header of a stream says before any frame is read.
#[derive(Debug, Clone, Copy)]
pub struct Header {
    /// Whether the stream announces an animation.
    pub animated: bool,
    /// Number of bytes that a frame takes, if this machine can hold that number.
    pub frame_size: Option<usize>,
}

/// What the header of a stream says: whether it announces an animation, and
/// how many bytes a frame takes once it is brought to eight bits a sample
/// with palettes and transparency expanded. `None` where the header cannot be
/// read.
pub uninterp spec fn png_header(data: Seq<u8>) -> Option<(bool, nat)>;

/// What the decoder makes of the first frame of a stream, written over a
/// buffer that holds `buf`: the colour type, width and height of the frame,
/// the number of its bytes, and what the buffer holds afterwards. `None` where
/// the frame cannot be read or the buffer is too short for it.
pub uninterp spec fn png_frame(data: Seq<u8>, buf: Seq<u8>) -> Option<
    (ColorType, u32, u32, nat, Seq<u8>),
>;

/// `png::Decoder::new` on the bytes, `set_transformations` to eight bits a
/// sample with palettes and transparency expanded, `read_info`; then whether
/// `Reader::info` holds a frame control, and `Reader::output_buffer_size`.
///
/// Trusted: what comes back depends on the bytes alone, but for the size of
/// the frame, which is handed out only where it is at most the greatest
/// length that this machine can address.
#[verifier::external_body]
fn read_header(data: &[u8]) -> (r: Result<Header, png::DecodingError>)
    ensures
        match r {
            Ok(header) => png_header(data@) matches Some((animated, size)) && header.animated
                == animated && header.frame_size == (if size <= isize::MAX {
                Some(size as usize)
            } else {
                None
            }),
            Err(_) => png_header(data@) is None,
        },
{
    let mut decoder = png::Decoder::new(Cursor::new(data));
    decoder.set_transformations(png::Transformations::STRIP_16 | png::Transformations::EXPAND);
    let reader = decoder.read_info()?;
    Ok(Header {
        animated: reader.info().frame_control.is_some(),
        frame_size: reader.output_buffer_size(),
    })
}

/// The same decoder, then `Reader::next_frame` into `buf`.
///
/// Trusted: `buf` keeps its length, and what comes back and what is written
/// depend on the bytes and on what `buf` held alone.
#[verifier::external_body]
fn read_frame(data: &[u8], buf: &mut Vec<u8>) -> (r: Result<FrameInfo, png::DecodingError>)
    ensures
        final(buf)@.len() == old(buf)@.len(),
        match r {
            Ok(info) => png_frame(data@, old(buf)@) == Some(
                (info.color_type, info.width, info.height, info.size as nat, final(buf)@),
            ),
            Err(_) => png_frame(data@, old(buf)@) is None,
        },
{
    let mut decoder = png::Decoder::new(Cursor::new(data));
    decoder.set_transformations(png::Transformations::STRIP_16 | png::Transformations::EXPAND);
    let info = decoder.read_info()?.next_frame(buf)?;
    let color_type = match info.color_type {
        png::ColorType::Grayscale => ColorType::Grayscale,
        png::ColorType::Rgb => ColorType::Rgb,
        png::ColorType::Indexed => ColorType::Indexed,
        png::ColorType::GrayscaleAlpha => ColorType::GrayscaleAlpha,
        png::ColorType::Rgba => ColorType::Rgba,
    };
    Ok(FrameInfo { color_type, width: info.width, height: info.height, size: info.buffer_size() })
}

/// The words of a `png::DecodingError`.
#[verifier::external_body]
fn decoding_text(e: &png::DecodingError) -> String {
    e.to_string()
}

/// The words of a `png::EncodingError`.
#[verifier::external_body]
fn encoding_text(e: &png::EncodingError) -> String {
    e.to_string()
}

/// The PNG stream that the encoder makes of `width` by `height` pixels of
/// three channels, eight bits each.
pub uninterp spec fn png_rgb8(pixels: Seq<u8>, width: u32, height: u32) -> Seq<u8>;

/// The PNG stream that the encoder makes of `width` by `height` pixels of
/// four channels, eight bits each.
pub uninterp spec fn png_rgba8(pixels: Seq<u8>, width: u32, height: u32) -> Seq<u8>;

/// `png::Encoder::new` with colour type RGB and eight bits, `write_header`,
/// `write_image_data`.
///
/// Trusted: given as many bytes as the size asks for, the encoder refuses a
/// picture exactly where its width or height is zero; the stream written
/// depends on the pixels and the size alone.
#[verifier::external_body]
fn encode_rgb8(pixels: &[u8], width: u32, height: u32) -> (r: Result<Vec<u8>, png::EncodingError>)
    requires
        pixels@.len() == width * height * 3,
    ensures
        r is Err <==> width == 0 || height == 0,
        r matches Ok(stream) ==> stream@ == png_rgb8(pixels@, width, height),
{
    let mut stream = Vec::new();
    let mut encoder = png::Encoder::new(&mut stream, width, height);
    encoder.set_color(png::ColorType::Rgb);
    encoder.set_depth(png::BitDepth::Eight);
    encoder.write_header()?.write_image_data(pixels)?;
    Ok(stream)
}

/// `png::Encoder::new` with colour type RGBA and eight bits, `write_header`,
/// `write_image_data`.
///
/// Trusted: given as many bytes as the size asks for, the encoder refuses a
/// picture exactly where its width or height is zero; the stream written
/// depends on the pixels and the size alone.
#[verifier::external_body]
fn encode_rgba8(pixels: &[u8], width: u32, height: u32) -> (r: Result<Vec<u8>, png::EncodingError>)
    requires
        pixels@.len() == width * height * 4,
    ensures
        r is Err <==> width == 0 || height == 0,
        r matches Ok(stream) ==> stream@ == png_rgba8(pixels@, width, height),
{
    let mut stream = Vec::new();
    let mut encoder = png::Encoder::new(&mut stream, width, height);
    encoder.set_color(png::ColorType::Rgba);
    encoder.set_depth(png::BitDepth::Eight);
    encoder.write_header()?.write_image_data(pixels)?;
    Ok(stream)
}

/// The raw format that a frame of this colour type is kept in.
pub open spec fn raw_format(color_type: ColorType) -> Option<ImageFormat> {
    match color_type {
        ColorType::Rgb => Some(ImageFormat::RGB8),
        ColorType::Rgba => Some(ImageFormat::RGBA8),
        _ => None,
    }
}

/// `pixels` cut or filled with zeros to `size` bytes.
pub open spec fn fitted(pixels: Seq<u8>, size: nat) -> Seq<u8> {
    Seq::new(
        size,
        |i: int|
            if i < pixels.len() {
                pixels[i]
            } else {
                0u8
            },
    )
}

/// What is said of a frame whose bytes are not as many as its size asks for.
pub open spec fn misfit_text() -> Seq<char> {
    "frame does not hold its pixels"@
}

/// What making the image of a decoded frame ends in: `UnsupportedColorType`
/// where the frame is neither RGB nor RGBA, `Decode` where the frame's size
/// is not that of its pixels, else the image of the frame's first `size`
/// bytes.
pub open spec fn frame_outcome(
    color_type: ColorType,
    width: u32,
    height: u32,
    size: nat,
    pixels: Seq<u8>,
    r: Result<Image, Error>,
) -> bool {
    match raw_format(color_type) {
        None => r matches Err(Error::Png(PngError::UnsupportedColorType(c))) && c == color_type,
        Some(format) => if buffer_fits(size, format, width, height) {
            r matches Ok(img) && img@ == (ImageView {
                data: fitted(pixels, size),
                format,
                width: width as nat,
                height: height as nat,
            })
        } else {
            r matches Err(Error::Png(PngError::Decode(text))) && text@ == misfit_text()
        },
    }
}

/// Makes the image of a decoded frame.
///
/// Fails with `UnsupportedColorType` where the frame is neither RGB nor RGBA,
/// and with `Decode` where the frame's size is not that of its pixels.
pub fn frame_image(info: FrameInfo, pixels: Vec<u8>) -> (r: Result<Image, Error>)
    ensures
        frame_outcome(info.color_type, info.width, info.height, info.size as nat, pixels@, r),
{
    let format = match info.color_type {
        ColorType::Rgb => ImageFormat::RGB8,
        ColorType::Rgba => ImageFormat::RGBA8,
        other => {
            return Err(Error::Png(PngError::UnsupportedColorType(other)));
        },
    };
    let mut pixels = pixels;
    let ghost given = pixels@;
    pixels.resize(info.size, 0);
    assert(pixels@ =~= fitted(given, info.size as nat));
    match Image::from_vec(pixels, format, info.width, info.height) {
        Some(img) => Ok(img),
        None => Err(
            Error::Png(PngError::Decode(String::from_str("frame does not hold its pixels"))),
        ),
    }
}

/// What is said of a stream whose frame is larger than memory can be.
pub open spec fn oversize_text() -> Seq<char> {
    "frame exceeds what memory can hold"@
}

/// Reads from the header how many bytes the frame takes.
///
/// Fails with `UnsupportedAnimation` where the stream announces an animation,
/// and with `Decode` where the frame is larger than memory can be.
pub fn frame_size(header: Header) -> (r: Result<usize, Error>)
    ensures
        header.animated ==> r matches Err(Error::Png(PngError::UnsupportedAnimation)),
        !header.animated ==> match header.frame_size {
            Some(size) => r == Ok::<usize, Error>(size),
            None => r matches Err(Error::Png(PngError::Decode(text))) && text@ == oversize_text(),
        },
{
    if header.animated {
        return Err(Error::Png(PngError::UnsupportedAnimation));
    }
    match header.frame_size {
        Some(size) => Ok(size),
        None => Err(
            Error::Png(PngError::Decode(String::from_str("frame exceeds what memory can hold"))),
        ),
    }
}

/// `count` zero bytes.
pub open spec fn zeros(count: nat) -> Seq<u8> {
    Seq::new(count, |i: int| 0u8)
}

/// What decoding a stream ends in.
///
/// It fails with `Decode` where the header cannot be read, with
/// `UnsupportedAnimation` where the header announces an animation, with
/// `Decode` where the frame is larger than this machine can address, and with
/// `Decode` where the frame cannot be read. Else it ends as the making of an
/// image does, of the frame and of what the decoder wrote over as many zero
/// bytes as the header asks for.
pub open spec fn decode_outcome(data: Seq<u8>, r: Result<Image, Error>) -> bool {
    match png_header(data) {
        None => r matches Err(Error::Png(PngError::Decode(_))),
        Some((animated, size)) => if animated {
            r matches Err(Error::Png(PngError::UnsupportedAnimation))
        } else if size > isize::MAX {
            r matches Err(Error::Png(PngError::Decode(text))) && text@ == oversize_text()
        } else {
            match png_frame(data, zeros(size)) {
                None => r matches Err(Error::Png(PngError::Decode(_))),
                Some((color_type, width, height, frame, written)) => frame_outcome(
                    color_type,
                    width,
                    height,
                    frame,
                    written,
                    r,
                ),
            }
        },
    }
}

/// Decodes a PNG stream to a raw image of eight bits a channel.
pub fn decode(data: &[u8]) -> (r: Result<Image, Error>)
    ensures
        decode_outcome(data@, r),
{
    let header = match read_header(data) {
        Ok(header) => header,
        Err(e) => {
            return Err(Error::Png(PngError::Decode(decoding_text(&e))));
        },
    };
    let size = match frame_size(header) {
        Ok(size) => size,
        Err(e) => {
            return Err(e);
        },
    };
    let mut buf: Vec<u8> = vec![0u8; size];
    assert(buf@ =~= zeros(size as nat));
    match read_frame(data, &mut buf) {
        Ok(info) => frame_image(info, buf),
        Err(e) => Err(Error::Png(PngError::Decode(decoding_text(&e)))),
    }
}

/// The PNG stream of a raw image.
pub open spec fn png_of(v: ImageView) -> Seq<u8> {
    match v.format.pixels() {
        Some(PixelFormat::RGB8) => png_rgb8(v.data, v.width as u32, v.height as u32),
        Some(PixelFormat::RGBA8) => png_rgba8(v.data, v.width as u32, v.height as u32),
        None => Seq::empty(),
    }
}

/// Makes the image of an encoding that has ended: the stream as a PNG of the
/// size of `img` where it succeeded, the encoder's words where it did not.
pub fn finish_encode(img: &Image, outcome: Result<Vec<u8>, String>) -> (r: Result<Image, Error>)
    ensures
        match outcome {
            Ok(stream) => r matches Ok(out) && out@ == (ImageView {
                data: stream@,
                format: ImageFormat::PNG,
                width: img@.width,
                height: img@.height,
            }),
            Err(text) => r matches Err(Error::Png(PngError::Encode(t))) && t@ == text@,
        },
{
    match outcome {
        Ok(stream) => Ok(Image::new(stream, ImageFormat::PNG, img.width(), img.height())),
        Err(text) => Err(Error::Png(PngError::Encode(text))),
    }
}

/// What encoding `img` ends in: `Process` where it is not raw pixels,
/// `Encode` where it has no pixels, else the PNG stream of its pixels, with
/// its size.
pub open spec fn encode_outcome(img: ImageView, r: Result<Image, Error>) -> bool {
    if !img.format.is_raw() {
        r matches Err(Error::Process { process, format }) && process@ == "encode as PNG"@
            && format == img.format
    } else if img.width == 0 || img.height == 0 {
        r matches Err(Error::Png(PngError::Encode(_)))
    } else {
        r matches Ok(out) && out@ == (ImageView {
            data: png_of(img),
            format: ImageFormat::PNG,
            width: img.width,
            height: img.height,
        })
    }
}

/// Encodes a raw image as PNG.
///
/// Fails with `Process` where the image is not raw pixels, and with `Encode`
/// where it has no pixels; every other image is encoded.
pub fn encode(img: &Image) -> (r: Result<Image, Error>)
    ensures
        encode_outcome(img@, r),
{
    proof {
        use_type_invariant(img);
    }
    let made = match img.format() {
        ImageFormat::RGB8 => encode_rgb8(img.data().as_slice(), img.width(), img.height()),
        ImageFormat::RGBA8 => encode_rgba8(img.data().as_slice(), img.width(), img.height()),
        _ => {
            return Err(Error::Process { process: "encode as PNG", format: img.format() });
        },
    };
    let outcome = match made {
        Ok(stream) => Ok(stream),
        Err(e) => Err(encoding_text(&e)),
    };
    finish_encode(img, outcome)
}

} // verus!
