//! The AVIF adapter: a raw image to an AVIF file.

use crate::error::{AvifError, Error};
use crate::image::{Image, ImageFormat, ImageView};
use rgb::FromSlice;
use vstd::prelude::*;
use vstd::string::StringExecFns;

verus! {

/// The constant by which an AVIF output differs in its content hash.
pub fn seed() -> (s: u32)
    ensures
        s == 3,
{
    3
}

/// What the encoder is told.
#[derive(Debug, Clone, Copy)]
pub struct EncodeOptions {
    /// From 0, the smallest file, to 100, the best picture.
    pub quality: u16,
    /// From 1, slow, to 10, fast and coarse.
    pub speed: u8,
}

impl Default for EncodeOptions {
    fn default() -> (o: EncodeOptions)
        ensures
            o.quality == 60,
            o.speed == 5,
    {
        EncodeOptions { quality: 60, speed: 5 }
    }
}

impl EncodeOptions {
    /// Whether the encoder can be told these options.
    pub open spec fn in_range(self) -> bool {
        self.quality <= 100 && 1 <= self.speed <= 10
    }
}

/// `ravif::Encoder::new`, `with_quality` and `with_alpha_quality` of
/// `quality`, `with_speed`, YCbCr as the internal colour model and the
/// default thread pool, then `encode_rgb` of the pixels as `width` by
/// `height`. The sizes are 32-bit numbers, which is all that the encoder's
/// picture takes. Nothing is claimed of the outcome: the file depends on the
/// machine's threads too.
#[verifier::external_body]
fn encode_rgb8(pixels: &[u8], width: u32, height: u32, quality: u16, speed: u8) -> (r: Result<
    Vec<u8>,
    ravif::Error,
>)
    requires
        width > 0,
        height > 0,
        pixels@.len() == width * height * 3,
        1 <= quality <= 100,
        1 <= speed <= 10,
{
    let encoder = ravif::Encoder::new().with_quality(quality.into()).with_alpha_quality(
        quality.into(),
    ).with_speed(speed).with_internal_color_model(ravif::ColorModel::YCbCr).with_num_threads(None);
    let made = encoder.encode_rgb(ravif::Img::new(pixels.as_rgb(), width as usize, height as usize));
    made.map(|encoded| encoded.avif_file)
}

/// The same encoder with the colour of wholly transparent pixels cleaned, then
/// `encode_rgba` of the pixels as `width` by `height`. Nothing is claimed of
/// the outcome.
#[verifier::external_body]
fn encode_rgba8(pixels: &[u8], width: u32, height: u32, quality: u16, speed: u8) -> (r: Result<
    Vec<u8>,
    ravif::Error,
>)
    requires
        width > 0,
        height > 0,
        pixels@.len() == width * height * 4,
        1 <= quality <= 100,
        1 <= speed <= 10,
{
    let encoder = ravif::Encoder::new().with_quality(quality.into()).with_alpha_quality(
        quality.into(),
    ).with_speed(speed).with_internal_color_model(ravif::ColorModel::YCbCr).with_num_threads(
        None,
    ).with_alpha_color_mode(ravif::AlphaColorMode::UnassociatedClean);
    let made = encoder.encode_rgba(ravif::Img::new(pixels.as_rgba(), width as usize, height as usize));
    made.map(|encoded| encoded.avif_file)
}

/// The words of a `ravif::Error`.
#[verifier::external_body]
fn error_text(e: &ravif::Error) -> String {
    e.to_string()
}

/// What is said of options that the encoder cannot be told.
pub open spec fn range_text() -> Seq<char> {
    "encode options out of range"@
}

/// What is said of an image without pixels.
pub open spec fn empty_text() -> Seq<char> {
    "image has no pixels"@
}

/// Makes the image of an encoding that has ended: the file as an AVIF of the
/// size of `img` where it succeeded, the encoder's words where it did not.
pub fn finish_encode(img: &Image, outcome: Result<Vec<u8>, String>) -> (r: Result<Image, Error>)
    ensures
        match outcome {
            Ok(file) => r matches Ok(out) && out@ == (ImageView {
                data: file@,
                format: ImageFormat::AVIF,
                width: img@.width,
                height: img@.height,
            }),
            Err(text) => r matches Err(Error::Avif(e)) && e.0@ == text@,
        },
{
    match outcome {
        Ok(file) => Ok(Image::new(file, ImageFormat::AVIF, img.width(), img.height())),
        Err(text) => Err(Error::Avif(AvifError(text))),
    }
}

/// What the encoder is handed for one image.
#[derive(Debug, Clone, Copy, PartialEq, Eq)]
pub struct EncodeRequest {
    /// Whether each pixel has a fourth byte of transparency.
    pub alpha: bool,
    /// From 1 to 100.
    pub quality: u16,
    /// From 1 to 10.
    pub speed: u8,
}

/// What is asked of the encoder for `img` under `opts`, or why nothing is:
/// `Process` where the image is not raw pixels, `Avif` where the options are
/// out of range or the image has no pixels. A quality of zero is handed on
/// as one, the least that the encoder knows.
pub open spec fn request_outcome(img: ImageView, opts: EncodeOptions, r: Result<EncodeRequest, Error>) -> bool {
    if !img.format.is_raw() {
        r matches Err(Error::Process { process, format }) && process@ == "encode as AVIF"@
            && format == img.format
    } else if !opts.in_range() {
        r matches Err(Error::Avif(e)) && e.0@ == range_text()
    } else if img.width == 0 || img.height == 0 {
        r matches Err(Error::Avif(e)) && e.0@ == empty_text()
    } else {
        r == Ok::<EncodeRequest, Error>(
            EncodeRequest {
                alpha: img.format == ImageFormat::RGBA8,
                quality: if opts.quality == 0 {
                    1
                } else {
                    opts.quality
                },
                speed: opts.speed,
            },
        )
    }
}

/// Decides what the encoder is told for `img`.
pub fn encode_request(img: &Image, opts: &EncodeOptions) -> (r: Result<EncodeRequest, Error>)
    ensures
        request_outcome(img@, *opts, r),
{
    let alpha = match img.format() {
        ImageFormat::RGB8 => false,
        ImageFormat::RGBA8 => true,
        _ => {
            return Err(Error::Process { process: "encode as AVIF", format: img.format() });
        },
    };
    if opts.quality > 100 || opts.speed < 1 || opts.speed > 10 {
        return Err(Error::Avif(AvifError(String::from_str("encode options out of range"))));
    }
    if img.width() == 0 || img.height() == 0 {
        return Err(Error::Avif(AvifError(String::from_str("image has no pixels"))));
    }
    let quality: u16 = if opts.quality == 0 {
        1
    } else {
        opts.quality
    };
    Ok(EncodeRequest { alpha, quality, speed: opts.speed })
}

/// What encoding `img` may end in: what keeps the encoder from being asked,
/// or, of an image that it is asked for, an AVIF file of the image's size or
/// the encoder's failure.
pub open spec fn encode_outcome(img: ImageView, opts: EncodeOptions, r: Result<Image, Error>) -> bool {
    if !img.format.is_raw() {
        r matches Err(Error::Process { process, format }) && process@ == "encode as AVIF"@
            && format == img.format
    } else if !opts.in_range() {
        r matches Err(Error::Avif(e)) && e.0@ == range_text()
    } else if img.width == 0 || img.height == 0 {
        r matches Err(Error::Avif(e)) && e.0@ == empty_text()
    } else {
        match r {
            Ok(out) => out@.format == ImageFormat::AVIF && out@.width == img.width && out@.height
                == img.height,
            Err(Error::Avif(_)) => true,
            Err(_) => false,
        }
    }
}

/// Encodes a raw image as AVIF.
///
/// Fails with `Process` where the image is not raw pixels, and with `Avif`
/// where the options are out of range, where the image has no pixels, and
/// where the encoder fails. What the encoder is told is `encode_request`.
pub fn encode(img: &Image, opts: &EncodeOptions) -> (r: Result<Image, Error>)
    ensures
        encode_outcome(img@, *opts, r),
{
    proof {
        use_type_invariant(img);
    }
    let request = match encode_request(img, opts) {
        Ok(request) => request,
        Err(e) => {
            return Err(e);
        },
    };
    let pixels = img.data().as_slice();
    let made = if request.alpha {
        encode_rgba8(pixels, img.width(), img.height(), request.quality, request.speed)
    } else {
        encode_rgb8(pixels, img.width(), img.height(), request.quality, request.speed)
    };
    let outcome = match made {
        Ok(file) => Ok(file),
        Err(e) => Err(error_text(&e)),
    };
    finish_encode(img, outcome)
}

} // verus!
