//! The failures that the toolkit reports, and how they read.

use crate::image::ImageFormat;
use crate::text::{decimal, decimal_text, pad_left, right_aligned};
use vstd::prelude::*;
use vstd::string::StringExecFns;

verus! {

/// Why the resampler refused or gave up.
#[derive(Debug, Clone, Copy, PartialEq, Eq, Structural)]
pub enum ResizeError {
    /// The resampler could not get the memory it needs.
    OutOfMemory,
    /// A width or height of zero, or a buffer of the wrong length.
    InvalidParameters,
}

/// What the JPEG codec said when it failed.
#[derive(Debug, Clone)]
pub struct JpegError(pub String);

/// Colour layouts that a PNG stream can hold.
#[derive(Debug, Clone, Copy, PartialEq, Eq, Structural)]
pub enum ColorType {
    Grayscale,
    Rgb,
    Indexed,
    GrayscaleAlpha,
    Rgba,
}

/// Failures of the PNG adapter.
#[derive(Debug, Clone)]
pub enum PngError {
    /// The stream is not a PNG that can be decoded; holds the decoder's words.
    Decode(String),
    /// The encoder failed; holds its words.
    Encode(String),
    /// The decoded frame is neither RGB nor RGBA.
    UnsupportedColorType(ColorType),
    /// The stream holds an animation.
    UnsupportedAnimation,
    /// The image to encode is not raw pixels.
    InvalidSource(ImageFormat),
}

/// What the AVIF encoder said when it failed.
#[derive(Debug, Clone)]
pub struct AvifError(pub String);

/// Every failure of the toolkit.
#[derive(Debug, Clone)]
pub enum Error {
    Resize(ResizeError),
    Jpeg(JpegError),
    Png(PngError),
    Avif(AvifError),
    Webp(&'static str),
    CropOutOfBounds,
    NullPtr,
    /// An operation was asked of an image whose format it cannot work on.
    Process { process: &'static str, format: ImageFormat },
}

impl ResizeError {
    /// What the failure is called.
    pub open spec fn text(self) -> Seq<char> {
        match self {
            ResizeError::OutOfMemory => "out of memory"@,
            ResizeError::InvalidParameters => "invalid parameters"@,
        }
    }

    /// Writes what the failure is called.
    pub fn message(&self) -> (s: String)
        ensures
            s@ == self.text(),
    {
        match self {
            ResizeError::OutOfMemory => String::from_str("out of memory"),
            ResizeError::InvalidParameters => String::from_str("invalid parameters"),
        }
    }
}

impl ColorType {
    /// The name of the layout as it is shown in messages.
    pub open spec fn label(self) -> Seq<char> {
        match self {
            ColorType::Grayscale => "Grayscale"@,
            ColorType::Rgb => "Rgb"@,
            ColorType::Indexed => "Indexed"@,
            ColorType::GrayscaleAlpha => "GrayscaleAlpha"@,
            ColorType::Rgba => "Rgba"@,
        }
    }

    /// The name of the layout as it is shown in messages.
    pub fn name(&self) -> (s: &'static str)
        ensures
            s@ == self.label(),
    {
        match self {
            ColorType::Grayscale => "Grayscale",
            ColorType::Rgb => "Rgb",
            ColorType::Indexed => "Indexed",
            ColorType::GrayscaleAlpha => "GrayscaleAlpha",
            ColorType::Rgba => "Rgba",
        }
    }
}

impl PngError {
    /// The message of the failure itself.
    pub open spec fn text(self) -> Seq<char> {
        match self {
            PngError::Decode(_) => "failed to decode PNG image"@,
            PngError::Encode(_) => "failed to encode image as PNG"@,
            PngError::UnsupportedColorType(c) => "unsupported color type: "@ + c.label(),
            PngError::UnsupportedAnimation => "animated PNGs are not supported"@,
            PngError::InvalidSource(f) => "cannot encode "@ + f.label() + " as PNG"@,
        }
    }

    /// The failure underneath this one, if it has one.
    pub open spec fn cause(self) -> Option<Seq<char>> {
        match self {
            PngError::Decode(s) => Some(s@),
            PngError::Encode(s) => Some(s@),
            _ => None,
        }
    }

    /// Writes the message of the failure itself.
    pub fn message(&self) -> (s: String)
        ensures
            s@ == self.text(),
    {
        match self {
            PngError::Decode(_) => String::from_str("failed to decode PNG image"),
            PngError::Encode(_) => String::from_str("failed to encode image as PNG"),
            PngError::UnsupportedColorType(c) => {
                String::from_str("unsupported color type: ").concat(c.name())
            },
            PngError::UnsupportedAnimation => String::from_str("animated PNGs are not supported"),
            PngError::InvalidSource(f) => {
                String::from_str("cannot encode ").concat(f.name()).concat(" as PNG")
            },
        }
    }
}

impl Error {
    /// The message of the failure itself.
    pub open spec fn text(self) -> Seq<char> {
        match self {
            Error::Resize(_) => "failed to resize image"@,
            Error::Jpeg(e) => "failed to process JPEG image: "@ + e.0@,
            Error::Png(_) => "failed to process PNG image"@,
            Error::Avif(_) => "failed to process AVIF image"@,
            Error::Webp(s) => "failed to process WEBP image: "@ + s@,
            Error::CropOutOfBounds => "crop out of bounds"@,
            Error::NullPtr => "received null pointer"@,
            Error::Process { process, format } => "cannot "@ + process@ + " "@ + format.label(),
        }
    }

    /// The messages of the failures underneath, outermost first.
    pub open spec fn causes(self) -> Seq<Seq<char>> {
        match self {
            Error::Resize(e) => seq![e.text()],
            Error::Jpeg(e) => seq![e.0@],
            Error::Png(e) => match e.cause() {
                Some(c) => seq![e.text(), c],
                None => seq![e.text()],
            },
            Error::Avif(e) => seq![e.0@],
            _ => Seq::empty(),
        }
    }

    /// The message of the failure itself.
    pub fn message(&self) -> (s: String)
        ensures
            s@ == self.text(),
    {
        match self {
            Error::Resize(_) => String::from_str("failed to resize image"),
            Error::Jpeg(e) => String::from_str("failed to process JPEG image: ").concat(
                e.0.as_str(),
            ),
            Error::Png(_) => String::from_str("failed to process PNG image"),
            Error::Avif(_) => String::from_str("failed to process AVIF image"),
            Error::Webp(s) => String::from_str("failed to process WEBP image: ").concat(s),
            Error::CropOutOfBounds => String::from_str("crop out of bounds"),
            Error::NullPtr => String::from_str("received null pointer"),
            Error::Process { process, format } => String::from_str("cannot ").concat(
                process,
            ).concat(" ").concat(format.name()),
        }
    }
}

/// The first `count` causes, one to the line: its number from zero, set to the
/// right of four columns, a colon and the cause.
pub open spec fn cause_lines(causes: Seq<Seq<char>>, count: nat) -> Seq<char>
    decreases count,
{
    if count == 0 {
        Seq::empty()
    } else {
        let i = (count - 1) as nat;
        cause_lines(causes, i) + (if i > 0 {
            "\n"@
        } else {
            Seq::empty()
        }) + right_aligned(decimal_text(i), 4) + ": "@ + causes[i as int]
    }
}

impl Error {
    /// The failure with what lies underneath it: the message, and where there
    /// are causes, a heading and the causes from the outermost on.
    pub open spec fn report_text(self) -> Seq<char> {
        if self.causes().len() == 0 {
            self.text()
        } else {
            self.text() + "\n\nCaused by:\n"@ + cause_lines(self.causes(), self.causes().len())
        }
    }

    /// The messages of the failures underneath, outermost first.
    pub fn causes_list(&self) -> (list: Vec<String>)
        ensures
            list@.len() == self.causes().len(),
            forall|i: int| 0 <= i < list@.len() ==> list@[i]@ == self.causes()[i],
    {
        let mut list: Vec<String> = Vec::new();
        match self {
            Error::Resize(e) => {
                list.push(e.message());
            },
            Error::Jpeg(e) => {
                list.push(e.0.clone());
            },
            Error::Png(e) => {
                list.push(e.message());
                match e {
                    PngError::Decode(s) => {
                        list.push(s.clone());
                    },
                    PngError::Encode(s) => {
                        list.push(s.clone());
                    },
                    _ => {},
                }
            },
            Error::Avif(e) => {
                list.push(e.0.clone());
            },
            _ => {},
        }
        list
    }

    /// Writes the failure with what lies underneath it.
    pub fn report(&self) -> (s: String)
        ensures
            s@ == self.report_text(),
    {
        let mut s = self.message();
        let list = self.causes_list();
        if list.len() == 0 {
            return s;
        }
        s.append("\n\nCaused by:\n");
        let ghost head = s@;
        let ghost causes = self.causes();
        let mut i: usize = 0;
        while i < list.len()
            invariant
                i <= list@.len(),
                list@.len() == causes.len(),
                forall|k: int| 0 <= k < list@.len() ==> list@[k]@ == causes[k],
                s@ == head + cause_lines(causes, i as nat),
            decreases list@.len() - i,
        {
            let ghost so_far = cause_lines(causes, i as nat);
            if i > 0 {
                s.append("\n");
            }
            let number = pad_left(&decimal(i as u64), 4);
            s.append(number.as_str());
            s.append(": ");
            s.append(list[i].as_str());
            proof {
                let line = (if i > 0 {
                    "\n"@
                } else {
                    Seq::empty()
                }) + right_aligned(decimal_text(i as nat), 4) + ": "@ + causes[i as int];
                assert(cause_lines(causes, (i + 1) as nat) == so_far + (if i > 0 {
                    "\n"@
                } else {
                    Seq::empty()
                }) + right_aligned(decimal_text(i as nat), 4) + ": "@ + causes[i as int]);
                assert(s@ =~= head + cause_lines(causes, (i + 1) as nat));
            }
            i += 1;
        }
        s
    }
}

} // verus!
