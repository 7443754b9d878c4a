//! Aspect-aware resize of a raw image.

use crate::binary64::{product, quotient, rounded, Binary64, Dyadic, MANTISSA_MIN};
use crate::rounding::{
    lemma_apart_is_ordered, lemma_product_at_most_factor, lemma_ratio_at_most_one,
    lemma_ratio_order, lemma_scaled_whole_part,
};
use crate::crop::{crop, cropped, out_of_bounds, Fit};
use crate::error::{Error, ResizeError};
use crate::image::{buffer_fits, Image, ImageFormat, ImageView, PixelFormat};
use rgb::FromSlice;
use vstd::arithmetic::power2::{lemma_pow2_pos, pow2};
use vstd::prelude::*;

verus! {

/// The constant by which a resized output differs in its content hash.
pub fn seed() -> (s: u32)
    ensures
        s == 1,
{
    1
}

/// The quotient of a width by a height.
pub enum AspectView {
    /// Nothing by nothing.
    Undefined,
    /// Something by nothing.
    Infinite,
    Finite(Dyadic),
}

impl AspectView {
    /// Whether the difference of the two is a number of at least two to the
    /// minus 52. Two infinite aspects have no difference, and an undefined one
    /// has none with any other.
    pub open spec fn apart(self, other: AspectView) -> bool {
        match (self, other) {
            (AspectView::Finite(a), AspectView::Finite(b)) => a.apart(b),
            (AspectView::Finite(_), AspectView::Infinite) => true,
            (AspectView::Infinite, AspectView::Finite(_)) => true,
            _ => false,
        }
    }

    /// Whether `self` is greater than `other`.
    pub open spec fn above(self, other: AspectView) -> bool {
        match (self, other) {
            (AspectView::Finite(a), AspectView::Finite(b)) => b.below(a),
            (AspectView::Infinite, AspectView::Finite(_)) => true,
            _ => false,
        }
    }

    /// The whole part of `dividend` divided by the aspect.
    pub open spec fn divide(self, dividend: nat) -> nat {
        match self {
            AspectView::Finite(a) => quotient(dividend, a).to_u32(),
            _ => 0,
        }
    }

    /// The whole part of `factor` times the aspect.
    pub open spec fn times(self, factor: nat) -> nat {
        match self {
            AspectView::Finite(a) => product(factor, a).to_u32(),
            _ => 0,
        }
    }
}

/// The aspect of `width` by `height`, rounded to 53 significant bits.
pub open spec fn aspect_of(width: nat, height: nat) -> AspectView {
    if height == 0 {
        if width == 0 {
            AspectView::Undefined
        } else {
            AspectView::Infinite
        }
    } else {
        AspectView::Finite(rounded(width, height))
    }
}

/// What a resize does to an image: the region it keeps, if it crops, and the
/// size it resamples to.
#[derive(Debug, Clone, Copy, PartialEq, Eq)]
pub struct Plan {
    /// Width and height of the centred region that is kept before resampling.
    pub crop: Option<(u32, u32)>,
    pub width: u32,
    pub height: u32,
}

/// The lesser of two lengths.
pub open spec fn smaller(a: u32, b: u32) -> u32 {
    if a <= b {
        a
    } else {
        b
    }
}

/// The plan for an image of `width` by `height` and a requested size.
///
/// The request is first cut down to the image's own size. Where the aspect of
/// what is left differs from the image's, one of two things happens. To keep
/// the aspect, the side that is too long for it is shortened to the image's
/// aspect. Otherwise the image is first cropped to the aspect of the request.
pub open spec fn planned(
    width: u32,
    height: u32,
    requested_width: u32,
    requested_height: u32,
    maintain_aspect: bool,
) -> Plan {
    let new_width = smaller(requested_width, width);
    let new_height = smaller(requested_height, height);
    let before = aspect_of(width as nat, height as nat);
    let after = aspect_of(new_width as nat, new_height as nat);
    if !after.apart(before) {
        Plan { crop: None, width: new_width, height: new_height }
    } else if maintain_aspect {
        if after.above(before) {
            Plan {
                crop: None,
                width: product(width as nat, rounded(new_height as nat, height as nat)).to_u32() as u32,
                height: new_height,
            }
        } else {
            Plan {
                crop: None,
                width: new_width,
                height: product(height as nat, rounded(new_width as nat, width as nat)).to_u32() as u32,
            }
        }
    } else if after.above(before) {
        Plan {
            crop: Some((width, after.divide(width as nat) as u32)),
            width: new_width,
            height: new_height,
        }
    } else {
        Plan {
            crop: Some((after.times(height as nat) as u32, height)),
            width: new_width,
            height: new_height,
        }
    }
}

/// The whole part of `factor` times the quotient of `num` by `den` is at most
/// `factor`, where `num` is at most `den`.
proof fn lemma_scaled_at_most(factor: u32, num: u32, den: u32)
    requires
        num <= den,
    ensures
        product(factor as nat, rounded(num as nat, den as nat)).to_u32() <= factor,
{
    if num == 0 || den == 0 {
        let zero = rounded(num as nat, den as nat);
        assert(zero == Dyadic::zero());
        assert(factor as nat * zero.mantissa == 0) by (nonlinear_arith)
            requires
                zero.mantissa == 0,
        ;
        assert(product(factor as nat, zero) == Dyadic::zero());
        vstd::arithmetic::power2::lemma2_to64();
        assert(Dyadic::zero().floor() == 0) by (nonlinear_arith)
            requires
                Dyadic::zero().floor() == 0 * pow2(0),
        ;
    } else {
        lemma_ratio_at_most_one(num as nat, den as nat);
        lemma_product_at_most_factor(factor as nat, rounded(num as nat, den as nat));
    }
}

/// No aspect is apart from itself.
proof fn lemma_not_apart_from_itself(a: AspectView)
    ensures
        !a.apart(a),
{
    match a {
        AspectView::Finite(d) => {
            lemma_pow2_pos((-52 - d.exponent) as nat);
        },
        _ => {},
    }
}

/// A resize never enlarges: the planned size is at most the image's on both
/// axes, and a request of at least the image's size on both axes is cut down
/// to the image's size, with nothing cropped.
pub proof fn lemma_never_enlarges(
    width: u32,
    height: u32,
    requested_width: u32,
    requested_height: u32,
    maintain_aspect: bool,
)
    ensures
        planned(width, height, requested_width, requested_height, maintain_aspect).width <= width,
        planned(width, height, requested_width, requested_height, maintain_aspect).height
            <= height,
        requested_width >= width && requested_height >= height ==> planned(
            width,
            height,
            requested_width,
            requested_height,
            maintain_aspect,
        ) == (Plan { crop: None, width, height }),
{
    let new_width = smaller(requested_width, width);
    let new_height = smaller(requested_height, height);
    let before = aspect_of(width as nat, height as nat);
    let after = aspect_of(new_width as nat, new_height as nat);
    if requested_width >= width && requested_height >= height {
        lemma_not_apart_from_itself(before);
    }
    if after.apart(before) && maintain_aspect {
        lemma_scaled_at_most(width, new_height, height);
        lemma_scaled_at_most(height, new_width, width);
    }
}

/// Whether two lengths differ by at most one.
pub open spec fn within_one(a: nat, b: nat) -> bool {
    a <= b + 1 && b <= a + 1
}

/// The whole part of `factor` times the quotient of nothing by `den` is
/// nothing.
proof fn lemma_scaled_nothing(factor: u32, den: u32)
    ensures
        product(factor as nat, rounded(0, den as nat)).to_u32() == 0,
{
    let zero = rounded(0, den as nat);
    assert(factor as nat * zero.mantissa == 0) by (nonlinear_arith)
        requires
            zero.mantissa == 0,
    ;
    vstd::arithmetic::power2::lemma2_to64();
    assert(Dyadic::zero().floor() == 0) by (nonlinear_arith)
        requires
            Dyadic::zero().floor() == 0 * pow2(0),
    ;
}

/// A quotient of 32-bit numbers is below two to the 52.
proof fn lemma_ratio_is_small(num: u32, den: u32)
    requires
        den > 0,
    ensures
        num < den * MANTISSA_MIN,
{
    assert(num < den * MANTISSA_MIN) by (nonlinear_arith)
        requires
            num <= 0xffff_ffff,
            den >= 1,
            MANTISSA_MIN == 0x10_0000_0000_0000,
    ;
}

/// With the aspect kept, a request whose aspect differs from the image's is
/// answered without cropping by a size that is at most the request on both
/// axes and has the image's aspect to within a pixel: one side is the
/// request's, cut down to the image's, and the other differs by at most one
/// from the whole part of what the image's aspect makes of it.
///
/// Which side is kept goes by the aspects themselves: the height where the
/// request is wider than the image, the width where it is narrower. Against
/// the exact length that the image's aspect asks for, the other side is at
/// most one more and less than two short: the arithmetic rounds twice, and a
/// length that lies just above a whole number can come out one below it.
pub proof fn lemma_keeps_aspect(width: u32, height: u32, requested_width: u32, requested_height: u32)
    requires
        aspect_of(
            smaller(requested_width, width) as nat,
            smaller(requested_height, height) as nat,
        ).apart(aspect_of(width as nat, height as nat)),
    ensures
        ({
            let p = planned(width, height, requested_width, requested_height, true);
            let new_width = smaller(requested_width, width);
            let new_height = smaller(requested_height, height);
            let after = aspect_of(new_width as nat, new_height as nat);
            let before = aspect_of(width as nat, height as nat);
            &&& width > 0 && height > 0
            &&& p.crop is None
            &&& p.width <= requested_width
            &&& p.height <= requested_height
            &&& if after.above(before) {
                &&& p.height == new_height
                &&& within_one(p.width as nat, (width as nat * new_height as nat) / (height as nat))
                &&& width * new_height < new_width * height
                &&& p.width * height <= width * new_height + height
                &&& width * new_height < (p.width + 2) * height
            } else {
                &&& p.width == new_width
                &&& within_one(p.height as nat, (height as nat * new_width as nat) / (width as nat))
                &&& new_width * height < width * new_height
                &&& p.height * width <= height * new_width + width
                &&& height * new_width < (p.height + 2) * width
            }
        }),
{
    let new_width = smaller(requested_width, width);
    let new_height = smaller(requested_height, height);
    let after = aspect_of(new_width as nat, new_height as nat);
    let before = aspect_of(width as nat, height as nat);
    let w = width as int;
    let h = height as int;
    let nw = new_width as int;
    let nh = new_height as int;
    assert(height > 0);
    lemma_ratio_is_small(width, height);
    lemma_scaled_at_most(width, new_height, height);
    if new_height == 0 {
        lemma_scaled_nothing(width, height);
        assert((width as nat * new_height as nat) / (height as nat) == 0) by (nonlinear_arith)
            requires
                new_height == 0,
                height > 0,
        ;
        if width == 0 {
            // Nothing by something is zero, which is apart from no aspect
            // that is not above it.
            assert(false);
        }
    } else {
        lemma_ratio_is_small(new_width, new_height);
        let a = rounded(new_width as nat, new_height as nat);
        let b = rounded(width as nat, height as nat);
        lemma_apart_is_ordered(a, b);
        if b.below(a) {
            if w * nh >= nw * h {
                lemma_ratio_order(width as nat, height as nat, new_width as nat, new_height as nat);
            }
            assert(w > 0 && nw > 0) by (nonlinear_arith)
                requires
                    w * nh < nw * h,
                    0 <= nw <= w,
                    0 <= nh,
                    0 <= h,
            ;
            lemma_scaled_whole_part(width as nat, new_height as nat, height as nat);
            assert((w * nh) / h < nw) by (nonlinear_arith)
                requires
                    w * nh < nw * h,
                    h > 0,
                    w * nh >= 0,
            ;
        } else {
            if nw * h >= w * nh {
                lemma_ratio_order(new_width as nat, new_height as nat, width as nat, height as nat);
            }
            assert(w > 0) by (nonlinear_arith)
                requires
                    nw * h < w * nh,
                    0 <= nw,
                    0 <= h,
                    0 <= nh,
                    0 <= w,
            ;
            if new_width == 0 {
                lemma_scaled_nothing(height, width);
                assert((height as nat * new_width as nat) / (width as nat) == 0) by (nonlinear_arith)
                    requires
                        new_width == 0,
                        width > 0,
                ;
            } else {
                lemma_scaled_whole_part(height as nat, new_width as nat, width as nat);
                assert((h * nw) / w < nh) by (nonlinear_arith)
                    requires
                        nw * h < w * nh,
                        w > 0,
                        h * nw >= 0,
                ;
            }
        }
    }
    let p = planned(width, height, requested_width, requested_height, true);
    if after.above(before) {
        let exact = (w * nh) / h;
        let rest = (w * nh) % h;
        vstd::arithmetic::div_mod::lemma_fundamental_div_mod(w * nh, h);
        vstd::arithmetic::div_mod::lemma_mod_division_less_than_divisor(w * nh, h);
        assert(w * nh < nw * h) by (nonlinear_arith)
            requires
                nh == 0 && nw > 0 && h > 0 || w * nh < nw * h,
        ;
        assert(p.width * h <= w * nh + h && w * nh < (p.width + 2) * h) by (nonlinear_arith)
            requires
                w * nh == h * exact + rest,
                0 <= rest < h,
                p.width <= exact + 1,
                exact <= p.width + 1,
        ;
    } else {
        let exact = (h * nw) / w;
        let rest = (h * nw) % w;
        vstd::arithmetic::div_mod::lemma_fundamental_div_mod(h * nw, w);
        vstd::arithmetic::div_mod::lemma_mod_division_less_than_divisor(h * nw, w);
        assert(p.height * w <= h * nw + w && h * nw < (p.height + 2) * w) by (nonlinear_arith)
            requires
                h * nw == w * exact + rest,
                0 <= rest < w,
                p.height <= exact + 1,
                exact <= p.height + 1,
        ;
    }
}

/// An aspect as the plan computes with it.
#[derive(Debug, Clone, Copy)]
enum Aspect {
    Undefined,
    Infinite,
    Finite(Binary64),
}

impl View for Aspect {
    type V = AspectView;

    closed spec fn view(&self) -> AspectView {
        match self {
            Aspect::Undefined => AspectView::Undefined,
            Aspect::Infinite => AspectView::Infinite,
            Aspect::Finite(b) => AspectView::Finite(b@),
        }
    }
}

impl Aspect {
    spec fn well_formed(self) -> bool {
        match self {
            Aspect::Finite(b) => b.is_ratio() && b.in_range(),
            _ => true,
        }
    }

    fn of(width: u32, height: u32) -> (a: Aspect)
        ensures
            a@ == aspect_of(width as nat, height as nat),
            a.well_formed(),
            a is Finite <==> height > 0,
            a matches Aspect::Finite(b) ==> b@ == rounded(width as nat, height as nat),
    {
        if height == 0 {
            if width == 0 {
                Aspect::Undefined
            } else {
                Aspect::Infinite
            }
        } else {
            Aspect::Finite(Binary64::ratio(width, height))
        }
    }

    fn apart(&self, other: &Aspect) -> (b: bool)
        requires
            self.well_formed(),
            other.well_formed(),
        ensures
            b == self@.apart(other@),
    {
        match (self, other) {
            (Aspect::Finite(a), Aspect::Finite(b)) => a.apart(b),
            (Aspect::Finite(_), Aspect::Infinite) => true,
            (Aspect::Infinite, Aspect::Finite(_)) => true,
            _ => false,
        }
    }

    fn above(&self, other: &Aspect) -> (b: bool)
        requires
            self.well_formed(),
            other.well_formed(),
        ensures
            b == self@.above(other@),
    {
        match (self, other) {
            (Aspect::Finite(a), Aspect::Finite(b)) => b.below(a),
            (Aspect::Infinite, Aspect::Finite(_)) => true,
            _ => false,
        }
    }
}

/// A number that another is below is not zero.
proof fn lemma_above_is_positive(a: Dyadic, b: Dyadic)
    requires
        b.below(a),
    ensures
        a.mantissa > 0,
{
    let lo = if b.exponent <= a.exponent {
        b.exponent
    } else {
        a.exponent
    };
    assert(a.mantissa > 0) by (nonlinear_arith)
        requires
            b.mantissa * pow2((b.exponent - lo) as nat) < a.mantissa * pow2((a.exponent - lo) as nat),
    ;
}

/// Zero is apart from no number that is not above it.
proof fn lemma_zero_not_apart(a: Dyadic)
    requires
        !Dyadic::zero().below(a),
    ensures
        !a.apart(Dyadic::zero()),
{
    let z = Dyadic::zero();
    let lo = if a.exponent <= 0 {
        a.exponent
    } else {
        0
    };
    lemma_pow2_pos((-52 - lo) as nat);
    assert(z.scaled_to(lo) == 0) by (nonlinear_arith)
        requires
            z.scaled_to(lo) == 0 * pow2((0 - lo) as nat),
    ;
}

/// Decides what a resize of an image of `width` by `height` to the requested
/// size does.
pub fn plan(
    width: u32,
    height: u32,
    requested_width: u32,
    requested_height: u32,
    maintain_aspect: bool,
) -> (p: Plan)
    ensures
        p == planned(width, height, requested_width, requested_height, maintain_aspect),
{
    let new_width = if requested_width > width {
        width
    } else {
        requested_width
    };
    let new_height = if requested_height > height {
        height
    } else {
        requested_height
    };
    let before = Aspect::of(width, height);
    let after = Aspect::of(new_width, new_height);
    if !after.apart(&before) {
        return Plan { crop: None, width: new_width, height: new_height };
    }
    // A difference needs a height, so the image's aspect is a number.
    assert(height > 0);
    if maintain_aspect {
        if after.above(&before) {
            let scale = Binary64::ratio(new_height, height);
            Plan { crop: None, width: scale.times(width).to_u32(), height: new_height }
        } else {
            proof {
                if width == 0 {
                    lemma_zero_not_apart(after@->Finite_0);
                }
            }
            let scale = Binary64::ratio(new_width, width);
            Plan { crop: None, width: new_width, height: scale.times(height).to_u32() }
        }
    } else if after.above(&before) {
        let crop_height = match after {
            Aspect::Finite(a) => {
                proof {
                    lemma_above_is_positive(a@, before@->Finite_0);
                }
                a.divide(width).to_u32()
            },
            _ => 0,
        };
        Plan { crop: Some((width, crop_height)), width: new_width, height: new_height }
    } else {
        let crop_width = match after {
            Aspect::Finite(a) => a.times(height).to_u32(),
            _ => 0,
        };
        Plan { crop: Some((crop_width, height)), width: new_width, height: new_height }
    }
}

/// The pixels that the triangle filter makes of `w1` by `h1` pixels of three
/// channels, resampled to `w2` by `h2`.
pub uninterp spec fn resampled_rgb8(src: Seq<u8>, w1: nat, h1: nat, w2: nat, h2: nat) -> Seq<u8>;

/// The pixels that the triangle filter makes of `w1` by `h1` pixels of four
/// channels, each channel on its own, resampled to `w2` by `h2`.
pub uninterp spec fn resampled_rgba8(src: Seq<u8>, w1: nat, h1: nat, w2: nat, h2: nat) -> Seq<u8>;

/// The bytes of a raw image resampled to `width` by `height`.
pub open spec fn resampled(src: ImageView, width: nat, height: nat) -> Seq<u8> {
    match src.format.pixels() {
        Some(PixelFormat::RGB8) => resampled_rgb8(src.data, src.width, src.height, width, height),
        Some(PixelFormat::RGBA8) => resampled_rgba8(src.data, src.width, src.height, width, height),
        None => Seq::empty(),
    }
}

/// Whether one of the four lengths is zero.
pub open spec fn degenerate(w1: nat, h1: nat, w2: nat, h2: nat) -> bool {
    w1 == 0 || h1 == 0 || w2 == 0 || h2 == 0
}

/// `resize::new` with `Pixel::RGB8` and the triangle filter, then
/// `Resizer::resize` from `src` into `dst`.
///
/// Trusted: the resampler refuses with `InvalidParameters` exactly where a
/// width or height is zero, before it looks at either buffer; given buffers of
/// the lengths required here it refuses nothing else, but may run out of
/// memory; where it succeeds, what it writes depends on the source pixels and
/// the four lengths alone. `dst` keeps its length.
#[verifier::external_body]
fn resample_rgb8(
    src: &Vec<u8>,
    w1: usize,
    h1: usize,
    dst: &mut Vec<u8>,
    w2: usize,
    h2: usize,
) -> (r: Result<(), ResizeError>)
    requires
        src@.len() == w1 * h1 * 3,
        !degenerate(w1 as nat, h1 as nat, w2 as nat, h2 as nat) ==> old(dst)@.len() == w2 * h2
            * 3 && w2 * w2 <= usize::MAX && w2 * h1 <= usize::MAX,
    ensures
        final(dst)@.len() == old(dst)@.len(),
        r is Ok ==> final(dst)@ == resampled_rgb8(
            src@,
            w1 as nat,
            h1 as nat,
            w2 as nat,
            h2 as nat,
        ),
        (r matches Err(ResizeError::InvalidParameters)) <==> degenerate(
            w1 as nat,
            h1 as nat,
            w2 as nat,
            h2 as nat,
        ),
{
    let done = match resize::new(w1, h1, w2, h2, resize::Pixel::RGB8, resize::Type::Triangle) {
        Ok(mut resizer) => resizer.resize(src.as_rgb(), dst.as_rgb_mut()),
        Err(e) => Err(e),
    };
    match done {
        Ok(()) => Ok(()),
        Err(resize::Error::OutOfMemory) => Err(ResizeError::OutOfMemory),
        Err(resize::Error::InvalidParameters) => Err(ResizeError::InvalidParameters),
    }
}

/// `resize::new` with `Pixel::RGBA8` and the triangle filter, then
/// `Resizer::resize` from `src` into `dst`.
///
/// Trusted: as for three channels, with four bytes to the pixel.
#[verifier::external_body]
fn resample_rgba8(
    src: &Vec<u8>,
    w1: usize,
    h1: usize,
    dst: &mut Vec<u8>,
    w2: usize,
    h2: usize,
) -> (r: Result<(), ResizeError>)
    requires
        src@.len() == w1 * h1 * 4,
        !degenerate(w1 as nat, h1 as nat, w2 as nat, h2 as nat) ==> old(dst)@.len() == w2 * h2
            * 4 && w2 * w2 <= usize::MAX && w2 * h1 <= usize::MAX,
    ensures
        final(dst)@.len() == old(dst)@.len(),
        r is Ok ==> final(dst)@ == resampled_rgba8(
            src@,
            w1 as nat,
            h1 as nat,
            w2 as nat,
            h2 as nat,
        ),
        (r matches Err(ResizeError::InvalidParameters)) <==> degenerate(
            w1 as nat,
            h1 as nat,
            w2 as nat,
            h2 as nat,
        ),
{
    let done = match resize::new(w1, h1, w2, h2, resize::Pixel::RGBA8, resize::Type::Triangle) {
        Ok(mut resizer) => resizer.resize(src.as_rgba(), dst.as_rgba_mut()),
        Err(e) => Err(e),
    };
    match done {
        Ok(()) => Ok(()),
        Err(resize::Error::OutOfMemory) => Err(ResizeError::OutOfMemory),
        Err(resize::Error::InvalidParameters) => Err(ResizeError::InvalidParameters),
    }
}

/// What a resampling of the raw image `src` to `width` by `height` may end in.
///
/// It fails with `InvalidParameters` exactly where the source or the target
/// has no pixels. It may fail for want of memory. Where it succeeds, the image
/// has the source's format, the size asked for and the resampled pixels.
pub open spec fn resample_outcome(src: ImageView, width: u32, height: u32, r: Result<Image, Error>) -> bool {
    match r {
        Ok(out) => {
            &&& !degenerate(src.width, src.height, width as nat, height as nat)
            &&& out@ == (ImageView {
                data: resampled(src, width as nat, height as nat),
                format: src.format,
                width: width as nat,
                height: height as nat,
            })
        },
        Err(Error::Resize(ResizeError::InvalidParameters)) => degenerate(
            src.width,
            src.height,
            width as nat,
            height as nat,
        ),
        Err(Error::Resize(ResizeError::OutOfMemory)) => !degenerate(
            src.width,
            src.height,
            width as nat,
            height as nat,
        ),
        Err(_) => false,
    }
}

/// Makes the image of a resampling that has ended: the pixels as an image of
/// the given format and size where it succeeded, its failure where it did not.
pub fn finish(
    format: ImageFormat,
    width: u32,
    height: u32,
    pixels: Vec<u8>,
    outcome: Result<(), ResizeError>,
) -> (r: Result<Image, Error>)
    requires
        outcome is Ok ==> buffer_fits(pixels@.len(), format, width, height),
    ensures
        outcome is Ok ==> (r matches Ok(img) && img@ == (ImageView {
            data: pixels@,
            format,
            width: width as nat,
            height: height as nat,
        })),
        outcome matches Err(e) ==> (r matches Err(Error::Resize(k)) && k == e),
{
    match outcome {
        Ok(()) => Ok(Image::new(pixels, format, width, height)),
        Err(e) => Err(Error::Resize(e)),
    }
}

/// Resamples a raw image to `width` by `height` with the triangle filter.
///
/// Fails with `Process` where the image is not raw pixels.
pub fn resample(src: &Image, width: u32, height: u32) -> (r: Result<Image, Error>)
    ensures
        !src@.format.is_raw() ==> (r matches Err(Error::Process { process, format }) && process@
            == "resize"@ && format == src@.format),
        src@.format.is_raw() ==> resample_outcome(src@, width, height, r),
{
    proof {
        use_type_invariant(src);
    }
    let pixel_format = match src.format() {
        ImageFormat::RGB8 => PixelFormat::RGB8,
        ImageFormat::RGBA8 => PixelFormat::RGBA8,
        _ => {
            return Err(Error::Process { process: "resize", format: src.format() });
        },
    };
    let size: usize = pixel_format.pixel_size();
    let w1 = src.width();
    let h1 = src.height();
    let none = w1 == 0 || h1 == 0 || width == 0 || height == 0;
    assert(width * height <= 0xffff_ffff * 0xffff_ffff && width * width <= 0xffff_ffff
        * 0xffff_ffff && width * h1 <= 0xffff_ffff * 0xffff_ffff) by (nonlinear_arith)
        requires
            width <= 0xffff_ffff,
            height <= 0xffff_ffff,
            h1 <= 0xffff_ffff,
    ;
    let area: u64 = (width as u64) * (height as u64);
    assert(area * size <= 0xffff_ffff_ffff_ffff * 4) by (nonlinear_arith)
        requires
            area <= 0xffff_ffff_ffff_ffff,
            size <= 4,
    ;
    let len: u128 = (area as u128) * (size as u128);
    let limit: u128 = usize::MAX as u128;
    let square: u64 = (width as u64) * (width as u64);
    let strip: u64 = (width as u64) * (h1 as u64);
    if !none && (len > limit || square as u128 > limit || strip as u128 > limit) {
        // More pixels than this machine can address.
        return Err(Error::Resize(ResizeError::OutOfMemory));
    }
    let mut dst: Vec<u8> = if none {
        Vec::new()
    } else {
        vec![0u8; len as usize]
    };
    assert(src@.data.len() == w1 * h1 * size);
    let outcome = match pixel_format {
        PixelFormat::RGB8 => resample_rgb8(
            src.data(),
            w1 as usize,
            h1 as usize,
            &mut dst,
            width as usize,
            height as usize,
        ),
        PixelFormat::RGBA8 => resample_rgba8(
            src.data(),
            w1 as usize,
            h1 as usize,
            &mut dst,
            width as usize,
            height as usize,
        ),
    };
    finish(src.format(), width, height, dst, outcome)
}

/// The image that the plan resamples: the centred region where it crops, the
/// image itself where it does not.
pub open spec fn source_of(img: ImageView, p: Plan) -> ImageView {
    match p.crop {
        Some((width, height)) => cropped(img, width as nat, height as nat),
        None => img,
    }
}

/// What a resize of `img` to the requested size may end in.
///
/// An image that is not raw pixels is refused with `Process`. Else the plan
/// decides: where the region to keep is empty or exceeds the image, the resize
/// fails with `CropOutOfBounds`; in every other case it ends as the resampling
/// of the image, or of its centred region, to the planned size does.
pub open spec fn resize_outcome(
    img: ImageView,
    new_width: u32,
    new_height: u32,
    maintain_aspect: bool,
    r: Result<Image, Error>,
) -> bool {
    if !img.format.is_raw() {
        r matches Err(Error::Process { process, format }) && process@ == "resize"@ && format
            == img.format
    } else {
        let p = planned(img.width as u32, img.height as u32, new_width, new_height, maintain_aspect);
        match p.crop {
            Some((w, h)) if out_of_bounds(img, w as nat, h as nat) => r matches Err(
                Error::CropOutOfBounds,
            ),
            _ => resample_outcome(source_of(img, p), p.width, p.height, r),
        }
    }
}

/// Resizes a raw image to at most the requested size.
///
/// The image is never enlarged. With `maintain_aspect` the result keeps the
/// image's aspect; without it the result has the aspect of the request, and
/// what does not fit is cut off in equal parts on both sides. What is done is
/// `planned`; the pixels come from the triangle filter.
pub fn resize(img: &Image, new_width: u32, new_height: u32, maintain_aspect: bool) -> (r: Result<
    Image,
    Error,
>)
    ensures
        resize_outcome(img@, new_width, new_height, maintain_aspect, r),
{
    proof {
        use_type_invariant(img);
    }
    if img.format().pixel_format().is_none() {
        return Err(Error::Process { process: "resize", format: img.format() });
    }
    let p = plan(img.width(), img.height(), new_width, new_height, maintain_aspect);
    match p.crop {
        Some((width, height)) => {
            match crop(img, width, height, Fit::Contain) {
                Ok(region) => resample(&region, p.width, p.height),
                Err(e) => Err(e),
            }
        },
        None => resample(img, p.width, p.height),
    }
}

} // verus!
