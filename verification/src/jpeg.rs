//! What the toolkit itself decides about JPEG: the orientation that a file
//! asks for, how decoded rows are laid out to honour it, and what an encoder
//! is told.

use crate::error::Error;
pub use crate::error::JpegError;
use crate::image::{Image, ImageFormat, ImageView};
use vstd::prelude::*;
use vstd::slice::{slice_subrange, slice_to_vec};

verus! {

/// The constant by which a JPEG output differs in its content hash.
pub fn seed() -> (s: u32)
    ensures
        s == 1,
{
    1
}

/// A clockwise turn that a file asks of whoever shows it.
#[derive(Debug, Clone, Copy, PartialEq, Eq, Structural)]
pub enum Rotation {
    R90,
    R180,
    R270,
}

/// The 16-bit number at `at`, most significant byte first if `big`.
pub open spec fn read16(s: Seq<u8>, at: int, big: bool) -> nat
    recommends
        0 <= at,
        at + 2 <= s.len(),
{
    if big {
        (s[at] * 256 + s[at + 1]) as nat
    } else {
        (s[at] + s[at + 1] * 256) as nat
    }
}

/// The 32-bit number at `at`, most significant byte first if `big`.
pub open spec fn read32(s: Seq<u8>, at: int, big: bool) -> nat
    recommends
        0 <= at,
        at + 4 <= s.len(),
{
    if big {
        (s[at] * 0x100_0000 + s[at + 1] * 0x1_0000 + s[at + 2] * 0x100 + s[at + 3]) as nat
    } else {
        (s[at] + s[at + 1] * 0x100 + s[at + 2] * 0x1_0000 + s[at + 3] * 0x100_0000) as nat
    }
}

/// What a search for the orientation in one Exif block comes to.
#[derive(Debug, Clone, Copy, PartialEq, Eq, Structural)]
pub enum Orientation {
    /// The tag is there, with this value.
    Found(u16),
    /// The directory was read to its end and does not hold the tag.
    Missing,
    /// The block ends before what it announces, or is no TIFF header.
    Broken,
}

/// The tag that holds the orientation.
pub const ORIENTATION_TAG: u16 = 0x0112;

/// The orientation among the entries `i..count` of the directory at `dir`.
/// An entry takes twelve bytes: its tag in the first two, its value from the
/// ninth on.
pub open spec fn orientation_from(tiff: Seq<u8>, dir: int, count: int, i: int, big: bool) -> Orientation
    decreases count - i,
{
    if i >= count {
        Orientation::Missing
    } else {
        let at = dir + 2 + i * 12;
        if at + 2 > tiff.len() {
            Orientation::Broken
        } else if read16(tiff, at, big) == ORIENTATION_TAG {
            if at + 10 > tiff.len() {
                Orientation::Broken
            } else {
                Orientation::Found(read16(tiff, at + 8, big) as u16)
            }
        } else {
            orientation_from(tiff, dir, count, i + 1, big)
        }
    }
}

/// The orientation in a TIFF block: two bytes of byte order (`MM` for most
/// significant first), the number 42, the place of the first directory, and
/// there a count followed by that many entries.
pub open spec fn tiff_orientation(tiff: Seq<u8>) -> Orientation {
    if tiff.len() < 8 {
        Orientation::Broken
    } else {
        let big = tiff[0] == 0x4d && tiff[1] == 0x4d;
        if read16(tiff, 2, big) != 0x002a {
            Orientation::Broken
        } else {
            let dir = read32(tiff, 4, big) as int;
            if dir + 2 > tiff.len() {
                Orientation::Broken
            } else {
                orientation_from(tiff, dir, read16(tiff, dir, big) as int, 0, big)
            }
        }
    }
}

/// The turn that an orientation value stands for; the other values ask for
/// none, or for a mirror image, which is not honoured.
pub open spec fn rotation_for(value: u16) -> Option<Rotation> {
    if value == 3 {
        Some(Rotation::R180)
    } else if value == 6 {
        Some(Rotation::R90)
    } else if value == 8 {
        Some(Rotation::R270)
    } else {
        None
    }
}

/// Whether the block starts with `Exif` and two zero bytes.
pub open spec fn is_exif(block: Seq<u8>) -> bool {
    &&& block.len() >= 6
    &&& block[0] == 0x45
    &&& block[1] == 0x78
    &&& block[2] == 0x69
    &&& block[3] == 0x66
    &&& block[4] == 0
    &&& block[5] == 0
}

/// The rotation that the segments from `offset` on ask for.
///
/// A segment is `FF`, a marker byte, and a length of two bytes that counts
/// itself and what follows. Segments other than APP1 (`E1`) are passed over.
/// The first APP1 segment decides if it is no Exif block, is broken, or holds
/// the orientation; one without the tag is passed over too. The search ends
/// without a rotation at the first byte that starts no segment and at the end
/// of the data.
pub open spec fn rotation_from(data: Seq<u8>, offset: int) -> Option<Rotation>
    decreases
            (if offset < data.len() {
                data.len() - offset
            } else {
                0
            }),
{
    if offset < 0 || offset + 4 > data.len() {
        None
    } else if data[offset] != 0xff {
        None
    } else {
        let size = read16(data, offset + 2, true);
        if data[offset + 1] != 0xe1 {
            rotation_from(data, offset + size + 2)
        } else if size < 2 || offset + 2 + size > data.len() {
            None
        } else {
            let block = data.subrange(offset + 4, offset + 2 + size);
            if !is_exif(block) {
                None
            } else {
                match tiff_orientation(block.subrange(6, block.len() as int)) {
                    Orientation::Found(value) => rotation_for(value),
                    Orientation::Broken => None,
                    Orientation::Missing => rotation_from(data, offset + size + 2),
                }
            }
        }
    }
}

/// The rotation that a JPEG file asks for in its Exif data, if any. The
/// segments start after the two bytes that open the file.
pub open spec fn exif_rotation(data: Seq<u8>) -> Option<Rotation> {
    rotation_from(data, 2)
}

fn get16(s: &[u8], at: usize, big: bool) -> (v: u16)
    requires
        at + 2 <= s@.len(),
    ensures
        v == read16(s@, at as int, big),
{
    let a: u16 = s[at] as u16;
    let b: u16 = s[at + 1] as u16;
    if big {
        a * 256 + b
    } else {
        a + b * 256
    }
}

fn get32(s: &[u8], at: usize, big: bool) -> (v: u32)
    requires
        at + 4 <= s@.len(),
    ensures
        v == read32(s@, at as int, big),
{
    let a: u32 = s[at] as u32;
    let b: u32 = s[at + 1] as u32;
    let c: u32 = s[at + 2] as u32;
    let d: u32 = s[at + 3] as u32;
    if big {
        a * 0x100_0000 + b * 0x1_0000 + c * 0x100 + d
    } else {
        a + b * 0x100 + c * 0x1_0000 + d * 0x100_0000
    }
}

fn find_orientation(tiff: &[u8], dir: u32, count: u16, big: bool) -> (r: Orientation)
    ensures
        r == orientation_from(tiff@, dir as int, count as int, 0, big),
{
    let len: u64 = tiff.len() as u64;
    let mut i: u16 = 0;
    while i < count
        invariant
            i <= count,
            len == tiff@.len(),
            tiff@.len() <= usize::MAX,
            orientation_from(tiff@, dir as int, count as int, i as int, big) == orientation_from(
                tiff@,
                dir as int,
                count as int,
                0,
                big,
            ),
        decreases count - i,
    {
        let at: u64 = dir as u64 + 2 + (i as u64) * 12;
        if at + 2 > len {
            return Orientation::Broken;
        }
        if get16(tiff, at as usize, big) == ORIENTATION_TAG {
            if at + 10 > len {
                return Orientation::Broken;
            }
            return Orientation::Found(get16(tiff, (at + 8) as usize, big));
        }
        i += 1;
    }
    Orientation::Missing
}

fn read_tiff(tiff: &[u8]) -> (r: Orientation)
    ensures
        r == tiff_orientation(tiff@),
{
    if tiff.len() < 8 {
        return Orientation::Broken;
    }
    let big = tiff[0] == 0x4d && tiff[1] == 0x4d;
    if get16(tiff, 2, big) != 0x002a {
        return Orientation::Broken;
    }
    let dir: u32 = get32(tiff, 4, big);
    if dir as u64 + 2 > tiff.len() as u64 {
        return Orientation::Broken;
    }
    let count = get16(tiff, dir as usize, big);
    find_orientation(tiff, dir, count, big)
}

fn starts_with_exif(block: &[u8]) -> (b: bool)
    ensures
        b == is_exif(block@),
{
    block.len() >= 6 && block[0] == 0x45 && block[1] == 0x78 && block[2] == 0x69 && block[3]
        == 0x66 && block[4] == 0 && block[5] == 0
}

/// Finds the rotation that a JPEG file asks for in its Exif data.
pub fn extract_rotation(data: &[u8]) -> (r: Option<Rotation>)
    ensures
        r == exif_rotation(data@),
{
    let len: usize = data.len();
    let mut offset: usize = 2;
    loop
        invariant
            len == data@.len(),
            rotation_from(data@, offset as int) == exif_rotation(data@),
        decreases len - offset,
    {
        if len < 4 || offset > len - 4 {
            return None;
        }
        if data[offset] != 0xff {
            return None;
        }
        let size: usize = get16(data, offset + 2, true) as usize;
        let is_app1 = data[offset + 1] == 0xe1;
        if is_app1 {
            if size < 2 || size + 2 > len - offset {
                return None;
            }
            let block = slice_subrange(data, offset + 4, offset + 2 + size);
            if !starts_with_exif(block) {
                return None;
            }
            match read_tiff(slice_subrange(block, 6, block.len())) {
                Orientation::Found(value) => {
                    return if value == 3 {
                        Some(Rotation::R180)
                    } else if value == 6 {
                        Some(Rotation::R90)
                    } else if value == 8 {
                        Some(Rotation::R270)
                    } else {
                        None
                    };
                },
                Orientation::Broken => {
                    return None;
                },
                Orientation::Missing => {},
            }
        }
        if size + 6 > len - offset {
            // The next segment would start where fewer than four bytes are left.
            assert(rotation_from(data@, offset + size + 2) is None);
            return None;
        }
        offset = offset + size + 2;
    }
}

/// In a buffer of pixels of `size` bytes, a byte of an earlier pixel comes
/// before every byte of a later one.
proof fn lemma_pixel_order(p: int, q: int, c: int, size: int)
    requires
        0 <= p < q,
        0 <= c < size,
    ensures
        0 <= p * size <= p * size + c < (p + 1) * size <= q * size,
        (p + 1) * size == p * size + size,
{
    assert(0 <= p * size <= p * size + c < (p + 1) * size <= q * size && (p + 1) * size == p * size
        + size) by (nonlinear_arith)
        requires
            0 <= p < q,
            0 <= c < size,
    ;
}

/// Swaps the pixels `a` and `b` of a buffer of pixels of `PIXEL_SIZE` bytes.
/// `a` comes before `b`.
pub fn swap_pixel<const PIXEL_SIZE: usize>(data: &mut [u8], a: usize, b: usize)
    requires
        a < b,
        (b + 1) * PIXEL_SIZE <= old(data)@.len(),
    ensures
        final(data)@.len() == old(data)@.len(),
        forall|c: int|
            0 <= c < PIXEL_SIZE ==> #[trigger] final(data)@[a * PIXEL_SIZE + c] == old(data)@[b
                * PIXEL_SIZE + c],
        forall|c: int|
            0 <= c < PIXEL_SIZE ==> #[trigger] final(data)@[b * PIXEL_SIZE + c] == old(data)@[a
                * PIXEL_SIZE + c],
        forall|k: int|
            0 <= k < old(data)@.len() && !(a * PIXEL_SIZE <= k < (a + 1) * PIXEL_SIZE) && !(b
                * PIXEL_SIZE <= k < (b + 1) * PIXEL_SIZE) ==> final(data)@[k] == old(data)@[k],
{
    let ghost before = data@;
    let len: usize = data.len();
    proof {
        if PIXEL_SIZE > 0 {
            lemma_pixel_order(a as int, b as int, 0, PIXEL_SIZE as int);
            lemma_pixel_order(b as int, b + 1, 0, PIXEL_SIZE as int);
        }
    }
    if PIXEL_SIZE == 0 {
        return ;
    }
    let first: usize = a * PIXEL_SIZE;
    let second: usize = b * PIXEL_SIZE;
    let mut c: usize = 0;
    while c < PIXEL_SIZE
        invariant
            c <= PIXEL_SIZE,
            first == a * PIXEL_SIZE,
            second == b * PIXEL_SIZE,
            first + PIXEL_SIZE <= second,
            second + PIXEL_SIZE <= before.len(),
            data@.len() == before.len(),
            forall|d: int| 0 <= d < c ==> #[trigger] data@[first + d] == before[second + d],
            forall|d: int| 0 <= d < c ==> #[trigger] data@[second + d] == before[first + d],
            forall|k: int|
                0 <= k < before.len() && !(first <= k < first + c) && !(second <= k < second + c) ==> data@[k]
                    == before[k],
        decreases PIXEL_SIZE - c,
    {
        let x = data[first + c];
        let y = data[second + c];
        data[first + c] = y;
        data[second + c] = x;
        c += 1;
    }
    proof {
        assert((a + 1) * PIXEL_SIZE == first + PIXEL_SIZE && (b + 1) * PIXEL_SIZE == second + PIXEL_SIZE)
            by (nonlinear_arith)
            requires
                first == a * PIXEL_SIZE,
                second == b * PIXEL_SIZE,
        ;
    }
}

/// Number of whole pixels of `size` bytes in `len` bytes.
pub open spec fn pixels_in(len: nat, size: usize) -> int {
    len as int / size as int
}

/// Turns a row of pixels of `PIXEL_SIZE` bytes by half a turn: the pixels come
/// in the opposite order, each with its bytes as they were.
pub fn rotate180<const PIXEL_SIZE: usize>(data: &mut [u8])
    requires
        PIXEL_SIZE > 0,
        old(data)@.len() as int % PIXEL_SIZE as int == 0,
    ensures
        final(data)@.len() == old(data)@.len(),
        forall|p: int, c: int|
            0 <= p < pixels_in(old(data)@.len(), PIXEL_SIZE) && 0 <= c < PIXEL_SIZE
                ==> final(data)@[#[trigger] (p * PIXEL_SIZE + c)] == old(data)@[(pixels_in(
                old(data)@.len(),
                PIXEL_SIZE,
            ) - 1 - p) * PIXEL_SIZE + c],
{
    let ghost before = data@;
    let pixel_count: usize = data.len() / PIXEL_SIZE;
    let ghost n = pixel_count as int;
    let ghost size = PIXEL_SIZE as int;
    assert(n * size == before.len()) by (nonlinear_arith)
        requires
            n == before.len() as int / size,
            before.len() as int % size == 0,
            size > 0,
    ;
    let mut i: usize = 0;
    while i < pixel_count / 2
        invariant
            i <= pixel_count / 2,
            size == PIXEL_SIZE,
            size > 0,
            n == pixel_count,
            n * size == before.len(),
            data@.len() == before.len(),
            forall|p: int, c: int|
                0 <= p < n && (p < i || p >= n - i) && 0 <= c < size ==> data@[#[trigger] (p * size
                    + c)] == before[(n - 1 - p) * size + c],
            forall|p: int, c: int|
                i <= p < n - i && 0 <= c < size ==> data@[#[trigger] (p * size + c)] == before[p
                    * size + c],
        decreases pixel_count / 2 - i,
    {
        let ghost current = data@;
        let j: usize = pixel_count - 1 - i;
        proof {
            lemma_pixel_order(j as int, n, 0, size);
        }
        swap_pixel::<PIXEL_SIZE>(data, i, j);
        proof {
            assert forall|p: int, c: int|
                0 <= p < n && (p < i + 1 || p >= n - (i + 1)) && 0 <= c < size implies data@[#[trigger] (p
                * size + c)] == before[(n - 1 - p) * size + c] by {
                if p == i {
                    assert(current[j * size + c] == before[j * size + c]);
                } else if p == j {
                    assert(current[i * size + c] == before[i * size + c]);
                } else {
                    lemma_pixel_order(p, n, c, size);
                    lemma_pixel_order(i as int, j as int, 0, size);
                    if p < i {
                        lemma_pixel_order(p, i as int, c, size);
                    } else {
                        lemma_pixel_order(j as int, p, 0, size);
                        lemma_pixel_order(i as int, j as int, 0, size);
                    }
                    assert(data@[p * size + c] == current[p * size + c]);
                }
            }
            assert forall|p: int, c: int| i + 1 <= p < n - (i + 1) && 0 <= c < size implies data@[#[trigger] (p
                * size + c)] == before[p * size + c] by {
                lemma_pixel_order(p, j as int, c, size);
                lemma_pixel_order(i as int, p, 0, size);
                lemma_pixel_order(j as int, n, 0, size);
                assert(data@[p * size + c] == current[p * size + c]);
            }
        }
        i += 1;
    }
    proof {
        assert forall|p: int, c: int| 0 <= p < n && 0 <= c < size implies data@[#[trigger] (p * size
            + c)] == before[(n - 1 - p) * size + c] by {
            if i <= p < n - i {
                // An odd count leaves the middle pixel where it was.
                assert(p == n - 1 - p);
            }
        }
    }
}

/// The size of a picture of `width` by `height` after the turn.
pub open spec fn turned_size(rotation: Option<Rotation>, width: u32, height: u32) -> (u32, u32) {
    match rotation {
        Some(Rotation::R90) | Some(Rotation::R270) => (height, width),
        _ => (width, height),
    }
}

/// The place, counted in pixels row by row, that the pixel in column `x` of
/// row `y` of a picture of `width` by `height` has after the turn.
pub open spec fn turned_index(
    rotation: Option<Rotation>,
    width: int,
    height: int,
    x: int,
    y: int,
) -> int {
    match rotation {
        None => y * width + x,
        Some(Rotation::R90) => x * height + (height - 1 - y),
        Some(Rotation::R180) => (height - 1 - y) * width + (width - 1 - x),
        Some(Rotation::R270) => (width - 1 - x) * height + y,
    }
}

/// The place of channel `c` of that pixel among the bytes of the turned picture.
pub open spec fn target(
    rotation: Option<Rotation>,
    width: int,
    height: int,
    x: int,
    y: int,
    c: int,
) -> int {
    turned_index(rotation, width, height, x, y) * 3 + c
}

/// Whether no channel of any pixel of row `y` lands on byte `k`.
pub open spec fn off_row(rotation: Option<Rotation>, width: int, height: int, y: int, k: int) -> bool {
    forall|x: int, c: int|
        0 <= x < width && 0 <= c < 3 ==> k != #[trigger] target(rotation, width, height, x, y, c)
}

/// Two numbers written with the same base are equal only digit by digit.
proof fn lemma_digits(low1: int, high1: int, low2: int, high2: int, base: int)
    requires
        0 <= low1 < base,
        0 <= low2 < base,
        high1 * base + low1 == high2 * base + low2,
    ensures
        low1 == low2,
        high1 == high2,
{
    assert(high1 == high2) by (nonlinear_arith)
        requires
            0 <= low1 < base,
            0 <= low2 < base,
            high1 * base + low1 == high2 * base + low2,
    ;
}

/// The turn sends no two channels of the picture to the same byte, and every
/// channel to a byte of the turned picture.
pub proof fn lemma_target_is_a_permutation(
    rotation: Option<Rotation>,
    width: int,
    height: int,
    x1: int,
    y1: int,
    c1: int,
    x2: int,
    y2: int,
    c2: int,
)
    requires
        0 <= x1 < width,
        0 <= y1 < height,
        0 <= c1 < 3,
        0 <= x2 < width,
        0 <= y2 < height,
        0 <= c2 < 3,
    ensures
        0 <= target(rotation, width, height, x1, y1, c1) < width * height * 3,
        target(rotation, width, height, x1, y1, c1) == target(rotation, width, height, x2, y2, c2)
            ==> x1 == x2 && y1 == y2 && c1 == c2,
{
    let t1 = turned_index(rotation, width, height, x1, y1);
    let t2 = turned_index(rotation, width, height, x2, y2);
    assert(0 <= t1 < width * height) by (nonlinear_arith)
        requires
            0 <= x1 < width,
            0 <= y1 < height,
            t1 == y1 * width + x1 || t1 == x1 * height + (height - 1 - y1) || t1 == (height - 1
                - y1) * width + (width - 1 - x1) || t1 == (width - 1 - x1) * height + y1,
    ;
    assert(0 <= t1 * 3 + c1 < width * height * 3) by (nonlinear_arith)
        requires
            0 <= t1 < width * height,
            0 <= c1 < 3,
    ;
    if t1 * 3 + c1 == t2 * 3 + c2 {
        lemma_digits(c1, t1, c2, t2, 3);
        match rotation {
            None => lemma_digits(x1, y1, x2, y2, width),
            Some(Rotation::R90) => lemma_digits(height - 1 - y1, x1, height - 1 - y2, x2, height),
            Some(Rotation::R180) => lemma_digits(
                width - 1 - x1,
                height - 1 - y1,
                width - 1 - x2,
                height - 1 - y2,
                width,
            ),
            Some(Rotation::R270) => lemma_digits(y1, width - 1 - x1, y2, width - 1 - x2, height),
        }
    }
}

/// The byte that channel `c` of pixel `j` of a row goes to, where the row's
/// first pixel goes to pixel `start` and each next one `step` pixels further.
spec fn slot(start: int, step: int, j: int, c: int) -> int {
    (start + j * step) * 3 + c
}

spec fn off_slots(k: int, start: int, step: int, count: int) -> bool {
    forall|j: int, c: int| 0 <= j < count && 0 <= c < 3 ==> k != #[trigger] slot(start, step, j, c)
}

proof fn lemma_slots(start: int, step: int, j1: int, j2: int, last: int)
    requires
        0 <= start,
        1 <= step,
        0 <= j1 < j2 <= last,
    ensures
        0 <= (start + j1 * step) * 3,
        (start + j1 * step) * 3 + 3 <= (start + j2 * step) * 3,
        (start + j2 * step) * 3 + 3 <= (start + last * step + 1) * 3,
{
    assert(0 <= (start + j1 * step) * 3 && (start + j1 * step) * 3 + 3 <= (start + j2 * step) * 3
        && (start + j2 * step) * 3 + 3 <= (start + last * step + 1) * 3) by (nonlinear_arith)
        requires
            0 <= start,
            1 <= step,
            0 <= j1 < j2 <= last,
    ;
}

/// Copies the pixels of `row` into `buffer`: the first to pixel `start`, each
/// next one `step` pixels further.
fn lay(buffer: &mut Vec<u8>, row: &[u8], start: usize, step: usize, count: usize)
    requires
        step >= 1,
        row@.len() == count * 3,
        count > 0 ==> (start + (count - 1) * step + 1) * 3 <= old(buffer)@.len(),
    ensures
        final(buffer)@.len() == old(buffer)@.len(),
        forall|j: int, c: int|
            0 <= j < count && 0 <= c < 3 ==> final(buffer)@[#[trigger] slot(
                start as int,
                step as int,
                j,
                c,
            )] == row@[j * 3 + c],
        forall|k: int|
            0 <= k < old(buffer)@.len() && off_slots(k, start as int, step as int, count as int)
                ==> #[trigger] final(buffer)@[k] == old(buffer)@[k],
{
    let ghost before = buffer@;
    let len: usize = buffer.len();
    let row_len: usize = row.len();
    let mut j: usize = 0;
    while j < count
        invariant
            j <= count,
            step >= 1,
            row@.len() == count * 3,
            row_len == count * 3,
            len == before.len(),
            count > 0 ==> (start + (count - 1) * step + 1) * 3 <= before.len(),
            buffer@.len() == before.len(),
            forall|i: int, c: int|
                0 <= i < j && 0 <= c < 3 ==> buffer@[#[trigger] slot(start as int, step as int, i, c)]
                    == row@[i * 3 + c],
            forall|k: int|
                0 <= k < before.len() && off_slots(k, start as int, step as int, j as int)
                    ==> #[trigger] buffer@[k] == before[k],
        decreases count - j,
    {
        let ghost current = buffer@;
        proof {
            if j < count - 1 {
                lemma_slots(start as int, step as int, j as int, count - 1, count - 1);
            } else if j > 0 {
                lemma_slots(start as int, step as int, 0, j as int, count - 1);
            } else {
                assert((start + 0 * step + 1) * 3 == start * 3 + 3) by (nonlinear_arith);
                assert((start + 0 * step) * 3 == start * 3) by (nonlinear_arith);
            }
            assert(0 <= j * step <= (count - 1) * step) by (nonlinear_arith)
                requires
                    0 <= j <= count - 1,
                    step >= 1,
            ;
        }
        let at: usize = (start + j * step) * 3;
        let from: usize = j * 3;
        buffer[at] = row[from];
        buffer[at + 1] = row[from + 1];
        buffer[at + 2] = row[from + 2];
        proof {
            assert(slot(start as int, step as int, j as int, 0) == at);
            assert(slot(start as int, step as int, j as int, 1) == at + 1);
            assert(slot(start as int, step as int, j as int, 2) == at + 2);
            assert forall|i: int, c: int| 0 <= i < j + 1 && 0 <= c < 3 implies buffer@[#[trigger] slot(
                start as int,
                step as int,
                i,
                c,
            )] == row@[i * 3 + c] by {
                if i < j {
                    lemma_slots(start as int, step as int, i, j as int, count - 1);
                    assert(current[slot(start as int, step as int, i, c)] == row@[i * 3 + c]);
                }
            }
            assert forall|k: int|
                0 <= k < before.len() && off_slots(
                    k,
                    start as int,
                    step as int,
                    j + 1,
                ) implies #[trigger] buffer@[k] == before[k] by {
                assert(k != slot(start as int, step as int, j as int, 0));
                assert(k != slot(start as int, step as int, j as int, 1));
                assert(k != slot(start as int, step as int, j as int, 2));
                assert(off_slots(k, start as int, step as int, j as int));
                assert(current[k] == before[k]);
            }
        }
        j += 1;
    }
}

/// Whether the pixels of a row are put in the opposite order before the row
/// is laid out.
pub open spec fn mirrors(rotation: Option<Rotation>) -> bool {
    rotation == Some(Rotation::R180) || rotation == Some(Rotation::R270)
}

/// Puts row `y` of a decoded picture of `width` by `height` pixels of three
/// channels where it belongs in the turned picture. For a half turn and for
/// three quarters the row itself comes back with its pixels in the opposite
/// order.
pub fn place_row(
    buffer: &mut Vec<u8>,
    row: &mut [u8],
    y: u32,
    width: u32,
    height: u32,
    rotation: Option<Rotation>,
)
    requires
        old(buffer)@.len() == width * height * 3,
        old(row)@.len() == width * 3,
        y < height,
    ensures
        final(buffer)@.len() == old(buffer)@.len(),
        final(row)@.len() == old(row)@.len(),
        !mirrors(rotation) ==> final(row)@ == old(row)@,
        mirrors(rotation) ==> forall|x: int, c: int|
            0 <= x < width && 0 <= c < 3 ==> final(row)@[#[trigger] (x * 3 + c)] == old(row)@[(width
                - 1 - x) * 3 + c],
        forall|x: int, c: int|
            0 <= x < width && 0 <= c < 3 ==> final(buffer)@[#[trigger] target(
                rotation,
                width as int,
                height as int,
                x,
                y as int,
                c,
            )] == old(row)@[x * 3 + c],
        forall|k: int|
            0 <= k < old(buffer)@.len() && off_row(
                rotation,
                width as int,
                height as int,
                y as int,
                k,
            ) ==> #[trigger] final(buffer)@[k] == old(buffer)@[k],
{
    let ghost before = buffer@;
    let ghost given = row@;
    let ghost w = width as int;
    let ghost h = height as int;
    let total: usize = buffer.len();
    if width == 0 {
        return ;
    }
    proof {
        lemma_target_is_a_permutation(rotation, w, h, 0, y as int, 0, 0, y as int, 0);
        assert(w * h <= total && h <= w * h && w <= w * h && y * w + w <= w * h && (h - 1 - y) * w
            + w <= w * h && (w - 1) * h + h <= w * h) by (nonlinear_arith)
            requires
                total == w * h * 3,
                0 < w,
                0 <= y < h,
        ;
    }
    let count: usize = width as usize;
    let turned_row: usize = (height - 1 - y) as usize;
    let mirrored = match rotation {
        Some(Rotation::R180) | Some(Rotation::R270) => true,
        _ => false,
    };
    if mirrored {
        assert((w * 3) % 3 == 0 && (w * 3) / 3 == w) by (nonlinear_arith);
        rotate180::<3>(row);
    }
    let ghost laid = row@;
    let (start, step): (usize, usize) = match rotation {
        None => (y as usize * count, 1),
        Some(Rotation::R90) => (turned_row, height as usize),
        Some(Rotation::R180) => (turned_row * count, 1),
        Some(Rotation::R270) => (y as usize, height as usize),
    };
    proof {
        assert((start + (count - 1) * step + 1) * 3 <= total) by (nonlinear_arith)
            requires
                total == w * h * 3,
                0 < w,
                0 <= y < h,
                count == w,
                start == y * w && step == 1 || start == h - 1 - y && step == h || start == (h - 1
                    - y) * w && step == 1 || start == y && step == h,
        ;
    }
    lay(buffer, row, start, step, count);
    proof {
        // Pixel `x` of the row as given is pixel `from(x)` of the row as laid.
        assert forall|x: int, c: int| 0 <= x < w && 0 <= c < 3 implies buffer@[#[trigger] target(
            rotation,
            w,
            h,
            x,
            y as int,
            c,
        )] == given[x * 3 + c] by {
            let j = if mirrored {
                w - 1 - x
            } else {
                x
            };
            assert(slot(start as int, step as int, j, c) == target(rotation, w, h, x, y as int, c))
                by (nonlinear_arith)
                requires
                    slot(start as int, step as int, j, c) == (start + j * step) * 3 + c,
                    target(rotation, w, h, x, y as int, c) == turned_index(
                        rotation,
                        w,
                        h,
                        x,
                        y as int,
                    ) * 3 + c,
                    start == y * w && step == 1 && j == x && turned_index(rotation, w, h, x, y as int)
                        == y * w + x || start == h - 1 - y && step == h && j == x && turned_index(
                        rotation,
                        w,
                        h,
                        x,
                        y as int,
                    ) == x * h + (h - 1 - y) || start == (h - 1 - y) * w && step == 1 && j == w - 1
                        - x && turned_index(rotation, w, h, x, y as int) == (h - 1 - y) * w + (w - 1
                        - x) || start == y && step == h && j == w - 1 - x && turned_index(
                        rotation,
                        w,
                        h,
                        x,
                        y as int,
                    ) == (w - 1 - x) * h + y,
            ;
            if mirrored {
                assert(laid[j * 3 + c] == given[(w - 1 - j) * 3 + c]);
            }
        }
        assert forall|k: int|
            0 <= k < before.len() && off_row(rotation, w, h, y as int, k) implies #[trigger] buffer@[k]
            == before[k] by {
            assert forall|j: int, c: int| 0 <= j < count && 0 <= c < 3 implies k != #[trigger] slot(
                start as int,
                step as int,
                j,
                c,
            ) by {
                let x = if mirrored {
                    w - 1 - j
                } else {
                    j
                };
                assert(slot(start as int, step as int, j, c) == target(
                    rotation,
                    w,
                    h,
                    x,
                    y as int,
                    c,
                )) by (nonlinear_arith)
                    requires
                        slot(start as int, step as int, j, c) == (start + j * step) * 3 + c,
                        target(rotation, w, h, x, y as int, c) == turned_index(
                            rotation,
                            w,
                            h,
                            x,
                            y as int,
                        ) * 3 + c,
                        start == y * w && step == 1 && j == x && turned_index(
                            rotation,
                            w,
                            h,
                            x,
                            y as int,
                        ) == y * w + x || start == h - 1 - y && step == h && j == x && turned_index(
                            rotation,
                            w,
                            h,
                            x,
                            y as int,
                        ) == x * h + (h - 1 - y) || start == (h - 1 - y) * w && step == 1 && j == w
                            - 1 - x && turned_index(rotation, w, h, x, y as int) == (h - 1 - y) * w
                            + (w - 1 - x) || start == y && step == h && j == w - 1 - x
                            && turned_index(rotation, w, h, x, y as int) == (w - 1 - x) * h + y,
                ;
            }
            assert(off_slots(k, start as int, step as int, count as int));
        }
    }
}

/// Whether `out` is the picture of `width` by `height` pixels of three
/// channels in `pixels`, turned.
pub open spec fn is_turned(
    out: ImageView,
    pixels: Seq<u8>,
    width: u32,
    height: u32,
    rotation: Option<Rotation>,
) -> bool {
    &&& out.format == ImageFormat::RGB8
    &&& out.width == turned_size(rotation, width, height).0
    &&& out.height == turned_size(rotation, width, height).1
    &&& out.data.len() == pixels.len()
    &&& forall|x: int, y: int, c: int|
        0 <= x < width && 0 <= y < height && 0 <= c < 3 ==> out.data[#[trigger] target(
            rotation,
            width as int,
            height as int,
            x,
            y,
            c,
        )] == pixels[(y * width + x) * 3 + c]
}

/// The size of a picture of `width` by `height` after the turn.
pub fn turned_dimensions(rotation: Option<Rotation>, width: u32, height: u32) -> (size: (u32, u32))
    ensures
        size == turned_size(rotation, width, height),
{
    match rotation {
        Some(Rotation::R90) | Some(Rotation::R270) => (height, width),
        _ => (width, height),
    }
}

/// Turns a decoded picture of `width` by `height` pixels of three channels,
/// given row by row, as the rotation asks. `None` where `pixels` is not of the
/// length that the size asks for.
pub fn turn(pixels: &[u8], width: u32, height: u32, rotation: Option<Rotation>) -> (r: Option<
    Image,
>)
    ensures
        r is Some <==> pixels@.len() == width * height * 3,
        r matches Some(out) ==> is_turned(out@, pixels@, width, height, rotation),
{
    let len: usize = pixels.len();
    assert(width * height <= 0xffff_ffff * 0xffff_ffff) by (nonlinear_arith)
        requires
            width <= 0xffff_ffff,
            height <= 0xffff_ffff,
    ;
    let area: u64 = (width as u64) * (height as u64);
    if (area as u128) * 3 != len as u128 {
        return None;
    }
    let ghost w = width as int;
    let ghost h = height as int;
    let stride: usize = if height == 0 {
        0
    } else {
        assert(w * 3 <= w * h * 3) by (nonlinear_arith)
            requires
                0 <= w,
                1 <= h,
        ;
        width as usize * 3
    };
    let mut buffer: Vec<u8> = vec![0u8; len];
    let mut y: u32 = 0;
    while y < height
        invariant
            y <= height,
            w == width,
            h == height,
            len == w * h * 3,
            pixels@.len() == len,
            buffer@.len() == len,
            height > 0 ==> stride == w * 3,
            forall|x: int, y0: int, c: int|
                0 <= x < w && 0 <= y0 < y && 0 <= c < 3 ==> buffer@[#[trigger] target(
                    rotation,
                    w,
                    h,
                    x,
                    y0,
                    c,
                )] == pixels@[(y0 * w + x) * 3 + c],
        decreases height - y,
    {
        assert(0 <= y * (w * 3) && y * (w * 3) + w * 3 <= w * h * 3) by (nonlinear_arith)
            requires
                0 <= y < h,
                0 <= w,
        ;
        let from: usize = y as usize * stride;
        let mut row: Vec<u8> = slice_to_vec(slice_subrange(pixels, from, from + stride));
        let ghost given = row@;
        let ghost current = buffer@;
        place_row(&mut buffer, row.as_mut_slice(), y, width, height, rotation);
        proof {
            assert forall|x: int, y0: int, c: int|
                0 <= x < w && 0 <= y0 < y + 1 && 0 <= c < 3 implies buffer@[#[trigger] target(
                rotation,
                w,
                h,
                x,
                y0,
                c,
            )] == pixels@[(y0 * w + x) * 3 + c] by {
                if y0 == y {
                    assert((y * w + x) * 3 + c == y * (w * 3) + (x * 3 + c)) by (nonlinear_arith);
                    assert(0 <= x * 3 + c < w * 3) by (nonlinear_arith)
                        requires
                            0 <= x < w,
                            0 <= c < 3,
                    ;
                    assert(given[x * 3 + c] == pixels@[from + (x * 3 + c)]);
                } else {
                    let k = target(rotation, w, h, x, y0, c);
                    lemma_target_is_a_permutation(rotation, w, h, x, y0, c, x, y0, c);
                    assert forall|x1: int, c1: int| 0 <= x1 < w && 0 <= c1 < 3 implies k != #[trigger] target(
                        rotation,
                        w,
                        h,
                        x1,
                        y as int,
                        c1,
                    ) by {
                        lemma_target_is_a_permutation(rotation, w, h, x, y0, c, x1, y as int, c1);
                    }
                    assert(off_row(rotation, w, h, y as int, k));
                    assert(buffer@[k] == current[k]);
                }
            }
        }
        y += 1;
    }
    let (turned_width, turned_height) = turned_dimensions(rotation, width, height);
    assert(turned_width * turned_height * 3 == len) by (nonlinear_arith)
        requires
            len == w * h * 3,
            turned_width == w && turned_height == h || turned_width == h && turned_height == w,
    ;
    Some(Image::new(buffer, ImageFormat::RGB8, turned_width, turned_height))
}

/// What the encoder is told about quality.
#[derive(Debug, Clone, Copy)]
pub struct EncodeOptions {
    /// From 0, the smallest file, to 100, the best picture.
    pub quality: u16,
}

impl Default for EncodeOptions {
    fn default() -> (o: EncodeOptions)
        ensures
            o.quality == 80,
    {
        EncodeOptions { quality: 80 }
    }
}

/// How the encoder is to read the pixels it is given.
#[derive(Debug, Clone, Copy, PartialEq, Eq, Structural)]
pub enum ColorSpace {
    /// Red, green, blue.
    Rgb,
    /// Red, green, blue, and a fourth byte that is passed over.
    ExtRgba,
}

/// What an encoder is handed for one image.
#[derive(Debug, Clone, Copy)]
pub struct EncodeRequest {
    pub color_space: ColorSpace,
    /// Bytes to the pixel.
    pub components: u8,
    pub quality: u16,
    /// Bytes from the start of one row to the start of the next.
    pub row_stride: u64,
}

/// The request that encoding `v` comes to, if it is raw pixels.
pub open spec fn request_for(v: ImageView, quality: u16) -> Option<EncodeRequest> {
    match v.format {
        ImageFormat::RGB8 => Some(
            EncodeRequest {
                color_space: ColorSpace::Rgb,
                components: 3,
                quality,
                row_stride: (v.width * 3) as u64,
            },
        ),
        ImageFormat::RGBA8 => Some(
            EncodeRequest {
                color_space: ColorSpace::ExtRgba,
                components: 4,
                quality,
                row_stride: (v.width * 4) as u64,
            },
        ),
        _ => None,
    }
}

/// Decides what the encoder is told for `img`. Fails with `Process` where the
/// image is not raw pixels.
pub fn encode_request(img: &Image, opts: &EncodeOptions) -> (r: Result<EncodeRequest, Error>)
    ensures
        match request_for(img@, opts.quality) {
            Some(request) => r == Ok::<EncodeRequest, Error>(request),
            None => r matches Err(Error::Process { process, format }) && process@
                == "encode as JPEG"@ && format == img@.format,
        },
{
    proof {
        use_type_invariant(img);
    }
    match img.format() {
        ImageFormat::RGB8 => Ok(
            EncodeRequest {
                color_space: ColorSpace::Rgb,
                components: 3,
                quality: opts.quality,
                row_stride: img.width() as u64 * 3,
            },
        ),
        ImageFormat::RGBA8 => Ok(
            EncodeRequest {
                color_space: ColorSpace::ExtRgba,
                components: 4,
                quality: opts.quality,
                row_stride: img.width() as u64 * 4,
            },
        ),
        _ => Err(Error::Process { process: "encode as JPEG", format: img.format() }),
    }
}

/// The JPEG file that the encoder made of `img`, with the size of `img`.
pub fn encoded(img: &Image, bytes: Vec<u8>) -> (out: Image)
    ensures
        out@ == (ImageView {
            data: bytes@,
            format: ImageFormat::JPEG,
            width: img@.width,
            height: img@.height,
        }),
{
    Image::new(bytes, ImageFormat::JPEG, img.width(), img.height())
}

/// The text that `String::from_utf8_lossy` makes of bytes.
pub uninterp spec fn lossy_text(bytes: Seq<u8>) -> Seq<char>;

/// The characters of bytes that are all ASCII.
pub open spec fn ascii_text(bytes: Seq<u8>) -> Seq<char> {
    Seq::new(bytes.len(), |i: int| bytes[i] as char)
}

/// Whether every byte is below 128.
pub open spec fn all_ascii(bytes: Seq<u8>) -> bool {
    forall|i: int| 0 <= i < bytes.len() ==> bytes[i] < 128
}

/// `String::from_utf8_lossy`: the bytes as text, with the replacement
/// character in place of what is not UTF-8. Bytes that are all ASCII are
/// valid UTF-8 and come back as their characters.
#[verifier::external_body]
fn text_of(bytes: &[u8]) -> (s: String)
    ensures
        s@ == lossy_text(bytes@),
        all_ascii(bytes@) ==> s@ == ascii_text(bytes@),
{
    String::from_utf8_lossy(bytes).into_owned()
}

/// What one call of the codec came to: whether it went well, and if not, its
/// message in a fixed field, ended by a zero byte unless it fills the field.
#[derive(Debug, Clone, Copy)]
#[must_use]
pub struct JpegResult {
    ok: bool,
    err: [u8; 200],
}

/// Number of bytes before the first zero byte, or `s.len()` if there is none.
pub open spec fn text_len(s: Seq<u8>) -> nat
    decreases s.len(),
{
    if s.len() == 0 || s[0] == 0 {
        0
    } else {
        1 + text_len(s.subrange(1, s.len() as int))
    }
}

/// Where the first `n` bytes are not zero and the next one, if any, is, the
/// text is `n` bytes long.
proof fn lemma_text_len_found(s: Seq<u8>, n: int)
    requires
        0 <= n <= s.len(),
        forall|i: int| 0 <= i < n ==> s[i] != 0,
        n < s.len() ==> s[n] == 0,
    ensures
        text_len(s) == n,
    decreases s.len(),
{
    if n > 0 {
        let rest = s.subrange(1, s.len() as int);
        assert forall|i: int| 0 <= i < n - 1 implies rest[i] != 0 by {
            assert(rest[i] == s[i + 1]);
        }
        lemma_text_len_found(rest, n - 1);
    }
}

impl JpegResult {
    /// Whether the call went well.
    pub closed spec fn spec_ok(self) -> bool {
        self.ok
    }

    /// The bytes of the message field.
    pub closed spec fn spec_err(self) -> Seq<u8> {
        self.err@
    }

    /// The outcome of a call, as the codec hands it over.
    pub fn new(ok: bool, err: [u8; 200]) -> (r: JpegResult)
        ensures
            r.spec_ok() == ok,
            r.spec_err() == err@,
    {
        JpegResult { ok, err }
    }

    /// `Ok` where the call went well; else the message up to its first zero
    /// byte, as text.
    pub fn into_result(self) -> (r: Result<(), JpegError>)
        ensures
            self.spec_ok() ==> r is Ok,
            !self.spec_ok() ==> (r matches Err(e) && e.0@ == lossy_text(
                self.spec_err().subrange(0, text_len(self.spec_err()) as int),
            ) && (all_ascii(self.spec_err().subrange(0, text_len(self.spec_err()) as int))
                ==> e.0@ == ascii_text(
                self.spec_err().subrange(0, text_len(self.spec_err()) as int),
            ))),
    {
        if self.ok {
            Ok(())
        } else {
            let mut len: usize = 0;
            while len < 200 && self.err[len] != 0
                invariant
                    len <= 200,
                    forall|i: int| 0 <= i < len ==> self.err@[i] != 0,
                decreases 200 - len,
            {
                len += 1;
            }
            proof {
                lemma_text_len_found(self.err@, len as int);
            }
            Err(JpegError(text_of(slice_subrange(self.err.as_slice(), 0, len))))
        }
    }
}

} // verus!
