//! The raw image value and its format tags.

use vstd::prelude::*;

verus! {

/// What the bytes of an [`Image`] hold: raw pixels, or one encoded container.
#[derive(Debug, Clone, Copy, PartialEq, Eq, Structural)]
pub enum ImageFormat {
    RGB8,
    RGBA8,
    JPEG,
    PNG,
    AVIF,
    WEBP,
}

/// Layout of a raw pixel buffer.
#[derive(Debug, Clone, Copy, PartialEq, Eq, Structural)]
pub enum PixelFormat {
    RGB8,
    RGBA8,
}

impl PixelFormat {
    /// Number of bytes one pixel takes.
    pub open spec fn size(self) -> nat {
        match self {
            PixelFormat::RGB8 => 3,
            PixelFormat::RGBA8 => 4,
        }
    }

    /// Number of bytes one pixel takes: 3 for `RGB8`, 4 for `RGBA8`.
    pub fn pixel_size(&self) -> (n: usize)
        ensures
            n == self.size(),
    {
        match self {
            PixelFormat::RGB8 => 3,
            PixelFormat::RGBA8 => 4,
        }
    }
}

impl ImageFormat {
    /// The pixel layout of a raw format; `None` for an encoded container.
    pub open spec fn pixels(self) -> Option<PixelFormat> {
        match self {
            ImageFormat::RGB8 => Some(PixelFormat::RGB8),
            ImageFormat::RGBA8 => Some(PixelFormat::RGBA8),
            _ => None,
        }
    }

    /// Whether the format is raw pixels.
    pub open spec fn is_raw(self) -> bool {
        self.pixels() is Some
    }

    /// The name of the format as it is shown in messages.
    pub open spec fn label(self) -> Seq<char> {
        match self {
            ImageFormat::RGB8 => "RGB8"@,
            ImageFormat::RGBA8 => "RGBA8"@,
            ImageFormat::JPEG => "JPEG"@,
            ImageFormat::PNG => "PNG"@,
            ImageFormat::AVIF => "AVIF"@,
            ImageFormat::WEBP => "WEBP"@,
        }
    }

    /// The media type under which bytes of this format are served.
    pub open spec fn mime(self) -> Seq<char> {
        match self {
            ImageFormat::RGB8 | ImageFormat::RGBA8 => "application/octet-stream"@,
            ImageFormat::JPEG => "image/jpeg"@,
            ImageFormat::PNG => "image/png"@,
            ImageFormat::AVIF => "image/avif"@,
            ImageFormat::WEBP => "image/webp"@,
        }
    }

    /// The pixel layout of a raw format; `None` for an encoded container.
    pub fn pixel_format(&self) -> (p: Option<PixelFormat>)
        ensures
            p == self.pixels(),
    {
        match self {
            ImageFormat::RGB8 => Some(PixelFormat::RGB8),
            ImageFormat::RGBA8 => Some(PixelFormat::RGBA8),
            _ => None,
        }
    }

    /// The name of the format as it is shown in messages.
    pub fn name(&self) -> (s: &'static str)
        ensures
            s@ == self.label(),
    {
        match self {
            ImageFormat::RGB8 => "RGB8",
            ImageFormat::RGBA8 => "RGBA8",
            ImageFormat::JPEG => "JPEG",
            ImageFormat::PNG => "PNG",
            ImageFormat::AVIF => "AVIF",
            ImageFormat::WEBP => "WEBP",
        }
    }
}

/// The mathematical content of an [`Image`].
pub struct ImageView {
    pub data: Seq<u8>,
    pub format: ImageFormat,
    pub width: nat,
    pub height: nat,
}

impl ImageView {
    /// Number of bytes that a raw buffer of this width, height and format holds.
    pub open spec fn raw_len(self) -> nat
        recommends
            self.format.is_raw(),
    {
        self.width * self.height * self.format.pixels().unwrap().size()
    }

    /// A raw image holds exactly one value per channel of each pixel. The bytes
    /// of an encoded container are opaque, and its dimensions only describe the
    /// picture it stands for.
    pub open spec fn well_formed(self) -> bool {
        &&& self.width <= u32::MAX
        &&& self.height <= u32::MAX
        &&& self.format.is_raw() ==> self.data.len() == self.raw_len()
    }

    /// Index in `data` of channel `c` of the pixel in column `x` of row `y`.
    pub open spec fn offset(self, x: int, y: int, c: int) -> int
        recommends
            self.format.is_raw(),
    {
        (y * self.width + x) * self.format.pixels().unwrap().size() + c
    }

    /// Channel `c` of the pixel in column `x` of row `y` of a raw image.
    pub open spec fn sample(self, x: int, y: int, c: int) -> u8
        recommends
            self.format.is_raw(),
            0 <= x < self.width,
            0 <= y < self.height,
            0 <= c < self.format.pixels().unwrap().size(),
    {
        self.data[self.offset(x, y, c)]
    }
}

/// Whether `len` bytes are a buffer that an image of the given format and
/// dimensions can own.
pub open spec fn buffer_fits(len: nat, format: ImageFormat, width: u32, height: u32) -> bool {
    format.is_raw() ==> len == width * height * format.pixels().unwrap().size()
}

/// An owned byte buffer with its format tag and dimensions.
#[derive(Debug)]
pub struct Image {
    data: Vec<u8>,
    format: ImageFormat,
    width: u32,
    height: u32,
}

impl View for Image {
    type V = ImageView;

    closed spec fn view(&self) -> ImageView {
        ImageView {
            data: self.data@,
            format: self.format,
            width: self.width as nat,
            height: self.height as nat,
        }
    }
}

impl Image {
    /// Every image is well formed.
    #[verifier::type_invariant]
    pub open spec fn inv(&self) -> bool {
        self@.well_formed()
    }

    /// Takes ownership of `data` as an image of the given format and size.
    pub(crate) fn new(data: Vec<u8>, format: ImageFormat, width: u32, height: u32) -> (img: Image)
        requires
            buffer_fits(data@.len(), format, width, height),
        ensures
            img@ == (ImageView {
                data: data@,
                format,
                width: width as nat,
                height: height as nat,
            }),
    {
        Image { data, format, width, height }
    }

    /// Takes ownership of `data` as an image of the given format and size, if
    /// the buffer has the length that the format asks for.
    pub fn from_vec(data: Vec<u8>, format: ImageFormat, width: u32, height: u32) -> (r: Option<
        Image,
    >)
        ensures
            r is Some <==> buffer_fits(data@.len(), format, width, height),
            r matches Some(img) ==> img@ == (ImageView {
                data: data@,
                format,
                width: width as nat,
                height: height as nat,
            }),
    {
        let fits = match format.pixel_format() {
            None => true,
            Some(p) => {
                assert(width * height <= 0xffff_ffff * 0xffff_ffff) by (nonlinear_arith)
                    requires
                        width <= 0xffff_ffff,
                        height <= 0xffff_ffff,
                ;
                let area: u64 = (width as u64) * (height as u64);
                let size: usize = p.pixel_size();
                assert(area * size <= 0xffff_ffff_ffff_ffff * 4) by (nonlinear_arith)
                    requires
                        area <= 0xffff_ffff_ffff_ffff,
                        size <= 4,
                ;
                let want: u128 = (area as u128) * (size as u128);
                data.len() as u128 == want
            },
        };
        if fits {
            Some(Image::new(data, format, width, height))
        } else {
            None
        }
    }

    /// The empty raw image: no pixels, `RGB8`.
    pub fn empty() -> (img: Image)
        ensures
            img@ == (ImageView { data: Seq::empty(), format: ImageFormat::RGB8, width: 0, height: 0 }),
    {
        Image::new(Vec::new(), ImageFormat::RGB8, 0, 0)
    }

    /// Number of pixels in a row.
    pub fn width(&self) -> (w: u32)
        ensures
            w == self@.width,
    {
        self.width
    }

    /// Number of rows.
    pub fn height(&self) -> (h: u32)
        ensures
            h == self@.height,
    {
        self.height
    }

    /// What the bytes hold.
    pub fn format(&self) -> (f: ImageFormat)
        ensures
            f == self@.format,
    {
        self.format
    }

    /// The bytes of the image: for raw pixels, as many as the size and the
    /// format ask for.
    pub fn data(&self) -> (d: &Vec<u8>)
        ensures
            d@ == self@.data,
            self@.well_formed(),
    {
        proof {
            use_type_invariant(self);
        }
        &self.data
    }

    /// The media type of the image's bytes.
    pub fn mime_type(&self) -> (s: &'static str)
        ensures
            s@ == self@.format.mime(),
    {
        match self.format {
            ImageFormat::RGB8 | ImageFormat::RGBA8 => "application/octet-stream",
            ImageFormat::JPEG => "image/jpeg",
            ImageFormat::PNG => "image/png",
            ImageFormat::AVIF => "image/avif",
            ImageFormat::WEBP => "image/webp",
        }
    }

    /// Gives up the image for its bytes.
    pub fn into_vec(self) -> (v: Vec<u8>)
        ensures
            v@ == self@.data,
    {
        self.data
    }
}

impl Clone for Image {
    fn clone(&self) -> (img: Image)
        ensures
            img@ == self@,
    {
        proof {
            use_type_invariant(self);
        }
        Image::new(self.data.clone(), self.format, self.width, self.height)
    }
}

} // verus!
