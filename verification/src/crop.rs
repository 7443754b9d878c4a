//! Centred crop of a raw image.

use crate::error::Error;
use crate::image::{Image, ImageFormat, ImageView, PixelFormat};
use vstd::arithmetic::div_mod::lemma_fundamental_div_mod_converse;
use vstd::prelude::*;
use vstd::slice::slice_subrange;

verus! {

/// How the kept region is placed in the source.
#[derive(Debug, Clone, Copy, PartialEq, Eq, Structural)]
pub enum Fit {
    /// The region is centred: both sides of an axis lose the same amount, the
    /// far side one more where the amount is odd.
    Contain,
}

/// Distance from the near edge at which a centred span of `inner` starts in `outer`.
pub open spec fn centred_origin(outer: nat, inner: nat) -> nat
    recommends
        inner <= outer,
{
    ((outer - inner) / 2) as nat
}

/// Whether a region of `width` by `height` is empty or larger than the image.
pub open spec fn out_of_bounds(v: ImageView, width: nat, height: nat) -> bool {
    width == 0 || height == 0 || width > v.width || height > v.height
}

/// The centred region of `width` by `height` of a raw image.
pub open spec fn cropped(v: ImageView, width: nat, height: nat) -> ImageView
    recommends
        v.well_formed(),
        v.format.is_raw(),
        !out_of_bounds(v, width, height),
{
    let size = v.format.pixels().unwrap().size();
    let x0 = centred_origin(v.width, width);
    let y0 = centred_origin(v.height, height);
    let row = width * size;
    ImageView {
        data: Seq::new(
            height * row,
            |i: int| v.data[(i / (row as int) + y0) * (v.width * size) + x0 * size + i % (row as int)],
        ),
        format: v.format,
        width,
        height,
    }
}

/// A cropped image is well formed, and each of its samples is the sample of
/// the source that lies the origin's distance further right and down.
pub proof fn lemma_cropped_samples(v: ImageView, width: nat, height: nat)
    requires
        v.well_formed(),
        v.format.is_raw(),
        !out_of_bounds(v, width, height),
    ensures
        cropped(v, width, height).well_formed(),
        forall|x: int, y: int, c: int|
            0 <= x < width && 0 <= y < height && 0 <= c < v.format.pixels().unwrap().size()
                ==> #[trigger] cropped(v, width, height).sample(x, y, c) == v.sample(
                x + centred_origin(v.width, width),
                y + centred_origin(v.height, height),
                c,
            ),
{
    let size = v.format.pixels().unwrap().size() as int;
    let x0 = centred_origin(v.width, width) as int;
    let y0 = centred_origin(v.height, height) as int;
    let row = (width * size) as int;
    let out = cropped(v, width, height);
    assert(height * row == width * height * size) by (nonlinear_arith)
        requires
            row == width * size,
    ;
    assert forall|x: int, y: int, c: int|
        0 <= x < width && 0 <= y < height && 0 <= c < size implies #[trigger] out.sample(x, y, c)
            == v.sample(x + x0, y + y0, c) by {
        let i = (y * width + x) * size + c;
        let col = x * size + c;
        assert(i == y * row + col && 0 <= col < row && 0 <= i < height * row) by (nonlinear_arith)
            requires
                i == (y * width + x) * size + c,
                col == x * size + c,
                row == width * size,
                0 <= x < width,
                0 <= y < height,
                0 <= c < size,
        ;
        lemma_fundamental_div_mod_converse(i, row, y, col);
        assert((y + y0) * (v.width * size) + x0 * size + col == ((y + y0) * v.width + (x + x0))
            * size + c) by (nonlinear_arith)
            requires
                col == x * size + c,
        ;
    }
}

proof fn lemma_row_in_bounds(
    src_width: int,
    src_height: int,
    size: int,
    width: int,
    x0: int,
    row_index: int,
    total: int,
)
    requires
        0 < size,
        0 < width,
        0 <= x0,
        x0 + width <= src_width,
        0 <= row_index < src_height,
        total == src_width * src_height * size,
    ensures
        0 <= row_index * (src_width * size) <= total,
        0 <= x0 * size <= total,
        row_index * (src_width * size) + x0 * size + width * size <= total,
        0 < width * size <= src_width * size <= total,
{
    assert(0 <= row_index * (src_width * size) <= total && 0 <= x0 * size <= total && row_index
        * (src_width * size) + x0 * size + width * size <= total && 0 < width * size <= src_width
        * size <= total) by (nonlinear_arith)
        requires
            0 < size,
            0 < width,
            0 <= x0,
            x0 + width <= src_width,
            0 <= row_index < src_height,
            total == src_width * src_height * size,
    ;
}

/// Copies the centred region of `width` by `height` out of a raw image.
///
/// Fails with `CropOutOfBounds` where the region is empty or exceeds the
/// image, and with `Process` where the image is not raw pixels.
pub fn crop(img: &Image, width: u32, height: u32, fit: Fit) -> (r: Result<Image, Error>)
    ensures
        out_of_bounds(img@, width as nat, height as nat) ==> r matches Err(Error::CropOutOfBounds),
        !out_of_bounds(img@, width as nat, height as nat) && !img@.format.is_raw() ==> (r matches Err(
            Error::Process { process, format },
        ) && process@ == "crop"@ && format == img@.format),
        !out_of_bounds(img@, width as nat, height as nat) && img@.format.is_raw() ==> (r matches Ok(
            out,
        ) && out@ == cropped(img@, width as nat, height as nat)),
{
    proof {
        use_type_invariant(img);
    }
    if width == 0 || height == 0 || width > img.width() || height > img.height() {
        return Err(Error::CropOutOfBounds);
    }
    let pixel_format = match img.format() {
        ImageFormat::RGB8 => PixelFormat::RGB8,
        ImageFormat::RGBA8 => PixelFormat::RGBA8,
        _ => {
            return Err(Error::Process { process: "crop", format: img.format() });
        },
    };
    let (crop_x, crop_y) = match fit {
        Fit::Contain => ((img.width() - width) / 2, (img.height() - height) / 2),
    };
    let size: usize = pixel_format.pixel_size();
    let src = img.data();
    let total: usize = src.len();
    let ghost v = img@;
    let ghost target = cropped(v, width as nat, height as nat);
    proof {
        lemma_row_in_bounds(
            v.width as int,
            v.height as int,
            size as int,
            width as int,
            crop_x as int,
            0,
            v.data.len() as int,
        );
    }
    let row: usize = width as usize * size;
    let src_row: usize = img.width() as usize * size;
    let mut dst: Vec<u8> = Vec::new();
    let mut y: u32 = 0;
    while y < height
        invariant
            v == img@,
            v.well_formed(),
            v.format.pixels() == Some(pixel_format),
            size == pixel_format.size(),
            src@ == v.data,
            total == v.data.len(),
            0 < width <= v.width,
            0 < height <= v.height,
            crop_x == centred_origin(v.width, width as nat),
            crop_y == centred_origin(v.height, height as nat),
            row == width * size,
            src_row == v.width * size,
            y <= height,
            target == cropped(v, width as nat, height as nat),
            dst@.len() == y * row,
            target.data.len() == height * row,
            forall|i: int| 0 <= i < dst@.len() ==> dst@[i] == target.data[i],
        decreases height - y,
    {
        proof {
            lemma_row_in_bounds(
                v.width as int,
                v.height as int,
                size as int,
                width as int,
                crop_x as int,
                y + crop_y,
                v.data.len() as int,
            );
        }
        let from_start: usize = (y + crop_y) as usize * src_row + crop_x as usize * size;
        let from_end: usize = from_start + row;
        let ghost before = dst@;
        dst.extend_from_slice(slice_subrange(src.as_slice(), from_start, from_end));
        proof {
            assert((y + 1) * row == y * row + row) by (nonlinear_arith);
            assert(0 <= y * row && (y + 1) * row <= height * row) by (nonlinear_arith)
                requires
                    0 <= y < height,
                    0 <= row,
            ;
            assert forall|i: int| 0 <= i < dst@.len() implies dst@[i] == target.data[i] by {
                if i >= before.len() {
                    let col = i - y * row;
                    lemma_fundamental_div_mod_converse(i, row as int, y as int, col);
                }
            }
        }
        y += 1;
    }
    proof {
        assert(dst@ =~= target.data);
        lemma_cropped_samples(v, width as nat, height as nat);
    }
    Ok(Image::new(dst, img.format(), width, height))
}

} // verus!
