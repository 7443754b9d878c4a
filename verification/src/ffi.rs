//! The session that an embedding host works through.
//!
//! A host holds a context and images by handle, and a handle may be missing:
//! here a missing handle is `None`. Every operation answers with a status, and
//! keeps the failure itself in the context, where the host can ask for it.

use crate::error::Error;
use crate::image::Image;
use crate::resize::resize_outcome;
use vstd::prelude::*;

verus! {

/// The statuses other than success.
#[derive(Debug, Clone, Copy, PartialEq, Eq, Structural)]
pub enum ErrorCode {
    /// A handle that the operation needs is missing.
    NullPtr,
    /// Failed to decode image.
    Decode,
    /// Failed to encode image.
    Encode,
    /// Failed to resize image.
    Resize,
}

impl ErrorCode {
    /// The number that stands for the status.
    pub open spec fn value(self) -> i32 {
        match self {
            ErrorCode::NullPtr => -1i32,
            ErrorCode::Decode => -2i32,
            ErrorCode::Encode => -3i32,
            ErrorCode::Resize => -4i32,
        }
    }

    /// The number that the host is given.
    pub fn code(&self) -> (c: i32)
        ensures
            c == self.value(),
    {
        match self {
            ErrorCode::NullPtr => -1,
            ErrorCode::Decode => -2,
            ErrorCode::Encode => -3,
            ErrorCode::Resize => -4,
        }
    }
}

/// The status of success.
pub const SUCCESS: i32 = 0;

/// What a session remembers between calls.
#[derive(Debug)]
pub struct Context {
    /// The failure of the last operation that failed, until it is asked for.
    pub last_error: Option<Error>,
    pub jpeg_encode_options: crate::jpeg::EncodeOptions,
    pub avif_encode_options: crate::avif::EncodeOptions,
    pub webp_encode_options: crate::webp::EncodeOptions,
}

impl Context {
    /// Whether `self` differs from `before` in nothing but the failure kept.
    pub open spec fn same_options(self, before: Context) -> bool {
        &&& self.jpeg_encode_options == before.jpeg_encode_options
        &&& self.avif_encode_options == before.avif_encode_options
        &&& self.webp_encode_options == before.webp_encode_options
    }

    /// Whether the context is as a new one: no failure kept, and each
    /// encoder's options at their defaults.
    pub open spec fn fresh(self) -> bool {
        &&& self.last_error is None
        &&& self.jpeg_encode_options.quality == 80
        &&& self.avif_encode_options.quality == 60
        &&& self.avif_encode_options.speed == 5
        &&& self.webp_encode_options.quality == 80
    }
}

impl Default for Context {
    fn default() -> (ctx: Context)
        ensures
            ctx.fresh(),
    {
        Context {
            last_error: None,
            jpeg_encode_options: crate::jpeg::EncodeOptions { quality: 80 },
            avif_encode_options: crate::avif::EncodeOptions { quality: 60, speed: 5 },
            webp_encode_options: crate::webp::EncodeOptions { quality: 80 },
        }
    }
}

/// A new session.
pub fn context_new() -> (ctx: Context)
    ensures
        ctx.fresh(),
{
    Context::default()
}

/// A new image without pixels, for an operation to write its result to.
pub fn image_new() -> (img: Image)
    ensures
        img@.data.len() == 0,
        img@.width == 0,
        img@.height == 0,
        img@.format.is_raw(),
{
    Image::empty()
}

/// Ends an operation: a result goes to `out` and leaves the context as it
/// was; a failure goes to the context and leaves `out` as it was, and the
/// host is given `failure`.
pub fn finish(ctx: &mut Context, out: &mut Image, outcome: Result<Image, Error>, failure: ErrorCode) -> (status: i32)
    ensures
        final(ctx).same_options(*old(ctx)),
        match outcome {
            Ok(img) => {
                &&& status == SUCCESS
                &&& *final(out) == img
                &&& final(ctx).last_error == old(ctx).last_error
            },
            Err(e) => {
                &&& status == failure.value()
                &&& *final(out) == *old(out)
                &&& final(ctx).last_error == Some(e)
            },
        },
{
    match outcome {
        Ok(img) => {
            *out = img;
            SUCCESS
        },
        Err(e) => {
            ctx.last_error = Some(e);
            failure.code()
        },
    }
}

/// Resizes `img` into `out`.
///
/// With a handle missing the status is `NullPtr` and nothing changes. Else
/// the status is success and `out` holds what the resize made, or the status
/// is `Resize`, `out` is as it was and the context holds the failure.
pub fn resize(
    ctx: Option<&mut Context>,
    img: Option<&Image>,
    new_width: u32,
    new_height: u32,
    maintain_aspect: bool,
    out: Option<&mut Image>,
) -> (status: i32)
    ensures
        match (ctx, img, out) {
            (Some(c), Some(img), Some(o)) => {
                &&& final(c).same_options(*c)
                &&& if status == SUCCESS {
                    &&& final(c).last_error == c.last_error
                    &&& resize_outcome(img@, new_width, new_height, maintain_aspect, Ok(*final(o)))
                } else {
                    &&& status == ErrorCode::Resize.value()
                    &&& *final(o) == *o
                    &&& final(c).last_error matches Some(e)
                    &&& resize_outcome(img@, new_width, new_height, maintain_aspect, Err(e))
                }
            },
            (c, _, o) => {
                &&& status == ErrorCode::NullPtr.value()
                &&& c matches Some(c) ==> *final(c) == *c
                &&& o matches Some(o) ==> *final(o) == *o
            },
        },
{
    match (ctx, img, out) {
        (Some(ctx), Some(img), Some(out)) => {
            let outcome = crate::resize::resize(img, new_width, new_height, maintain_aspect);
            finish(ctx, out, outcome, ErrorCode::Resize)
        },
        _ => ErrorCode::NullPtr.code(),
    }
}

/// Decodes a PNG stream into `out`. The status of a failure is `Decode`.
pub fn png_decode(ctx: Option<&mut Context>, data: Option<&[u8]>, out: Option<&mut Image>) -> (status: i32)
    ensures
        match (ctx, data, out) {
            (Some(c), Some(data), Some(o)) => {
                &&& final(c).same_options(*c)
                &&& if status == SUCCESS {
                    &&& final(c).last_error == c.last_error
                    &&& crate::png::decode_outcome(data@, Ok(*final(o)))
                } else {
                    &&& status == ErrorCode::Decode.value()
                    &&& *final(o) == *o
                    &&& final(c).last_error matches Some(e)
                    &&& crate::png::decode_outcome(data@, Err(e))
                }
            },
            (c, _, o) => {
                &&& status == ErrorCode::NullPtr.value()
                &&& c matches Some(c) ==> *final(c) == *c
                &&& o matches Some(o) ==> *final(o) == *o
            },
        },
{
    match (ctx, data, out) {
        (Some(ctx), Some(data), Some(out)) => {
            let outcome = crate::png::decode(data);
            finish(ctx, out, outcome, ErrorCode::Decode)
        },
        _ => ErrorCode::NullPtr.code(),
    }
}

/// Encodes `img` as PNG into `out`. The status of a failure is `Encode`.
pub fn png_encode(ctx: Option<&mut Context>, img: Option<&Image>, out: Option<&mut Image>) -> (status: i32)
    ensures
        match (ctx, img, out) {
            (Some(c), Some(img), Some(o)) => {
                &&& final(c).same_options(*c)
                &&& if status == SUCCESS {
                    &&& final(c).last_error == c.last_error
                    &&& crate::png::encode_outcome(img@, Ok(*final(o)))
                } else {
                    &&& status == ErrorCode::Encode.value()
                    &&& *final(o) == *o
                    &&& final(c).last_error matches Some(e)
                    &&& crate::png::encode_outcome(img@, Err(e))
                }
            },
            (c, _, o) => {
                &&& status == ErrorCode::NullPtr.value()
                &&& c matches Some(c) ==> *final(c) == *c
                &&& o matches Some(o) ==> *final(o) == *o
            },
        },
{
    match (ctx, img, out) {
        (Some(ctx), Some(img), Some(out)) => {
            let outcome = crate::png::encode(img);
            finish(ctx, out, outcome, ErrorCode::Encode)
        },
        _ => ErrorCode::NullPtr.code(),
    }
}

/// Encodes `img` as AVIF into `out`, with the options that the context
/// holds. The status of a failure is `Encode`.
pub fn avif_encode(ctx: Option<&mut Context>, img: Option<&Image>, out: Option<&mut Image>) -> (status: i32)
    ensures
        match (ctx, img, out) {
            (Some(c), Some(img), Some(o)) => {
                &&& final(c).same_options(*c)
                &&& if status == SUCCESS {
                    &&& final(c).last_error == c.last_error
                    &&& crate::avif::encode_outcome(img@, c.avif_encode_options, Ok(*final(o)))
                } else {
                    &&& status == ErrorCode::Encode.value()
                    &&& *final(o) == *o
                    &&& final(c).last_error matches Some(e)
                    &&& crate::avif::encode_outcome(img@, c.avif_encode_options, Err(e))
                }
            },
            (c, _, o) => {
                &&& status == ErrorCode::NullPtr.value()
                &&& c matches Some(c) ==> *final(c) == *c
                &&& o matches Some(o) ==> *final(o) == *o
            },
        },
{
    match (ctx, img, out) {
        (Some(ctx), Some(img), Some(out)) => {
            let outcome = crate::avif::encode(img, &ctx.avif_encode_options);
            finish(ctx, out, outcome, ErrorCode::Encode)
        },
        _ => ErrorCode::NullPtr.code(),
    }
}

/// Sets the quality that JPEG files are encoded with from now on. Without a
/// context nothing happens.
pub fn jpeg_set_encode_quality(ctx: Option<&mut Context>, quality: u16)
    ensures
        ctx matches Some(c) ==> *final(c) == (Context {
            jpeg_encode_options: crate::jpeg::EncodeOptions { quality },
            ..*c
        }),
{
    match ctx {
        Some(ctx) => {
            ctx.jpeg_encode_options.quality = quality;
        },
        None => {},
    }
}

/// Sets the quality that AVIF files are encoded with from now on. Without a
/// context nothing happens.
pub fn avif_set_encode_quality(ctx: Option<&mut Context>, quality: u16)
    ensures
        ctx matches Some(c) ==> *final(c) == (Context {
            avif_encode_options: crate::avif::EncodeOptions {
                quality,
                speed: c.avif_encode_options.speed,
            },
            ..*c
        }),
{
    match ctx {
        Some(ctx) => {
            ctx.avif_encode_options.quality = quality;
        },
        None => {},
    }
}

/// Sets the speed that AVIF files are encoded with from now on. Without a
/// context nothing happens.
pub fn avif_set_encode_speed(ctx: Option<&mut Context>, speed: u8)
    ensures
        ctx matches Some(c) ==> *final(c) == (Context {
            avif_encode_options: crate::avif::EncodeOptions {
                quality: c.avif_encode_options.quality,
                speed,
            },
            ..*c
        }),
{
    match ctx {
        Some(ctx) => {
            ctx.avif_encode_options.speed = speed;
        },
        None => {},
    }
}

/// Sets the quality that WebP files are encoded with from now on. Without a
/// context nothing happens.
pub fn webp_set_encode_quality(ctx: Option<&mut Context>, quality: u16)
    ensures
        ctx matches Some(c) ==> *final(c) == (Context {
            webp_encode_options: crate::webp::EncodeOptions { quality },
            ..*c
        }),
{
    match ctx {
        Some(ctx) => {
            ctx.webp_encode_options.quality = quality;
        },
        None => {},
    }
}

/// Hands out the failure that the context holds, as text, and forgets it.
/// `None` without a context and where no failure is held.
pub fn last_error_message(ctx: Option<&mut Context>) -> (message: Option<String>)
    ensures
        match ctx {
            Some(c) => {
                &&& final(c).last_error is None
                &&& final(c).same_options(*c)
                &&& match c.last_error {
                    Some(e) => message matches Some(text) && text@ == e.report_text(),
                    None => message is None,
                }
            },
            None => message is None,
        },
{
    match ctx {
        Some(ctx) => {
            match ctx.last_error.take() {
                Some(e) => Some(e.report()),
                None => None,
            }
        },
        None => None,
    }
}

} // verus!
