//! What the toolkit itself decides about WebP: what the encoder is told, and
//! what each of its refusals is called.

use crate::error::Error;
use crate::image::{Image, ImageFormat, ImageView};
use vstd::prelude::*;

verus! {

/// The constant by which a WebP output differs in its content hash.
pub fn seed() -> (s: u32)
    ensures
        s == 0,
{
    0
}

/// What the encoder is told about quality.
#[derive(Debug, Clone, Copy)]
pub struct EncodeOptions {
    /// From 0, the smallest file, to 100, the best picture.
    pub quality: u16,
}

impl Default for EncodeOptions {
    fn default() -> (o: EncodeOptions)
        ensures
            o.quality == 80,
    {
        EncodeOptions { quality: 80 }
    }
}

/// What an encoder is handed for one image.
#[derive(Debug, Clone, Copy)]
pub struct EncodeRequest {
    /// Whether each pixel has a fourth byte of transparency.
    pub alpha: bool,
    pub quality: u16,
    /// Bytes from the start of one row to the start of the next.
    pub row_stride: u64,
}

/// The request that encoding `v` comes to, if it is raw pixels.
pub open spec fn request_for(v: ImageView, quality: u16) -> Option<EncodeRequest> {
    match v.format {
        ImageFormat::RGB8 => Some(
            EncodeRequest { alpha: false, quality, row_stride: (v.width * 3) as u64 },
        ),
        ImageFormat::RGBA8 => Some(
            EncodeRequest { alpha: true, quality, row_stride: (v.width * 4) as u64 },
        ),
        _ => None,
    }
}

/// Decides what the encoder is told for `img`. Fails with `Process` where the
/// image is not raw pixels.
pub fn encode_request(img: &Image, opts: &EncodeOptions) -> (r: Result<EncodeRequest, Error>)
    ensures
        match request_for(img@, opts.quality) {
            Some(request) => r == Ok::<EncodeRequest, Error>(request),
            None => r matches Err(Error::Process { process, format }) && process@
                == "encode as WebP"@ && format == img@.format,
        },
{
    proof {
        use_type_invariant(img);
    }
    match img.format() {
        ImageFormat::RGB8 => Ok(
            EncodeRequest {
                alpha: false,
                quality: opts.quality,
                row_stride: img.width() as u64 * 3,
            },
        ),
        ImageFormat::RGBA8 => Ok(
            EncodeRequest {
                alpha: true,
                quality: opts.quality,
                row_stride: img.width() as u64 * 4,
            },
        ),
        _ => Err(Error::Process { process: "encode as WebP", format: img.format() }),
    }
}

/// The steps of an encoding, each of which the encoder may refuse.
#[derive(Debug, Clone, Copy, PartialEq, Eq, Structural)]
pub enum Step {
    Preset,
    Validate,
    Picture,
    Import,
    Encode,
}

impl Step {
    /// What a refusal of the step is called.
    pub open spec fn refusal(self) -> Seq<char> {
        match self {
            Step::Preset => "failed to initialize config preset"@,
            Step::Validate => "invalid config"@,
            Step::Picture => "failed to initialize picture"@,
            Step::Import => "failed to import pixel data"@,
            Step::Encode => "failed to encode"@,
        }
    }
}

/// Reads the encoder's answer to a step: zero is a refusal, anything else
/// lets the encoding go on.
pub fn check(step: Step, answer: i32) -> (r: Result<(), Error>)
    ensures
        answer != 0 ==> r is Ok,
        answer == 0 ==> (r matches Err(Error::Webp(text)) && text@ == step.refusal()),
{
    if answer != 0 {
        Ok(())
    } else {
        Err(
            Error::Webp(
                match step {
                    Step::Preset => "failed to initialize config preset",
                    Step::Validate => "invalid config",
                    Step::Picture => "failed to initialize picture",
                    Step::Import => "failed to import pixel data",
                    Step::Encode => "failed to encode",
                },
            ),
        )
    }
}

/// The WebP file that the encoder made of `img`, with the size of `img`.
pub fn encoded(img: &Image, bytes: Vec<u8>) -> (out: Image)
    ensures
        out@ == (ImageView {
            data: bytes@,
            format: ImageFormat::WEBP,
            width: img@.width,
            height: img@.height,
        }),
{
    Image::new(bytes, ImageFormat::WEBP, img.width(), img.height())
}

} // verus!
