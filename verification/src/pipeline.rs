//! The rules of the batch driver: which outputs an input fans out to, what
//! each is hashed under and what it is called.

use crate::hash::{hash_hex, hash_text};
use crate::text::{decimal, decimal_text};
use vstd::prelude::*;
use vstd::string::{StringExecFns, StringSliceAdditionalSpecFns};

verus! {

/// A format that an output can be written in.
#[derive(Debug, Clone, Copy, PartialEq, Eq, Structural)]
pub enum OutputFormat {
    Avif,
    Jpeg,
    Png,
    Webp,
}

/// Said of a word that names no output format.
#[derive(Debug, Clone, Copy, PartialEq, Eq, Structural)]
pub struct ParseOutputFormatError;

impl ParseOutputFormatError {
    /// What is said of such a word.
    pub fn message(&self) -> (s: &'static str)
        ensures
            s@ == "invalid output format"@,
    {
        "invalid output format"
    }
}

/// The byte with a capital letter of ASCII made small.
pub open spec fn lower(b: u8) -> u8 {
    if 0x41 <= b <= 0x5a {
        (b + 0x20) as u8
    } else {
        b
    }
}

/// The bytes with the capital letters of ASCII made small.
pub open spec fn lowered(bytes: Seq<u8>) -> Seq<u8> {
    Seq::new(bytes.len(), |i: int| lower(bytes[i]))
}

/// The format that a word names: `avif`, `jpg` or `jpeg`, `png`, `webp`, in
/// small or capital letters.
pub open spec fn format_named(word: Seq<u8>) -> Option<OutputFormat> {
    let w = lowered(word);
    if w == seq![0x61u8, 0x76, 0x69, 0x66] {
        Some(OutputFormat::Avif)
    } else if w == seq![0x6au8, 0x70, 0x67] || w == seq![0x6au8, 0x70, 0x65, 0x67] {
        Some(OutputFormat::Jpeg)
    } else if w == seq![0x70u8, 0x6e, 0x67] {
        Some(OutputFormat::Png)
    } else if w == seq![0x77u8, 0x65, 0x62, 0x70] {
        Some(OutputFormat::Webp)
    } else {
        None
    }
}

fn small(b: u8) -> (r: u8)
    ensures
        r == lower(b),
{
    if 0x41 <= b && b <= 0x5a {
        b + 0x20
    } else {
        b
    }
}

fn is_word3(bytes: &[u8], a: u8, b: u8, c: u8) -> (r: bool)
    ensures
        r == (lowered(bytes@) == seq![a, b, c]),
{
    if bytes.len() == 3 && small(bytes[0]) == a && small(bytes[1]) == b && small(bytes[2]) == c {
        assert(lowered(bytes@) =~= seq![a, b, c]);
        true
    } else {
        if bytes.len() == 3 {
            let ghost w = seq![a, b, c];
            assert(lowered(bytes@)[0] != w[0] || lowered(bytes@)[1] != w[1] || lowered(bytes@)[2]
                != w[2]);
        } else {
            assert(seq![a, b, c].len() == 3);
        }
        false
    }
}

fn is_word4(bytes: &[u8], a: u8, b: u8, c: u8, d: u8) -> (r: bool)
    ensures
        r == (lowered(bytes@) == seq![a, b, c, d]),
{
    if bytes.len() == 4 && small(bytes[0]) == a && small(bytes[1]) == b && small(bytes[2]) == c
        && small(bytes[3]) == d {
        assert(lowered(bytes@) =~= seq![a, b, c, d]);
        true
    } else {
        if bytes.len() == 4 {
            let ghost w = seq![a, b, c, d];
            assert(lowered(bytes@)[0] != w[0] || lowered(bytes@)[1] != w[1] || lowered(bytes@)[2]
                != w[2] || lowered(bytes@)[3] != w[3]);
        } else {
            assert(seq![a, b, c, d].len() == 4);
        }
        false
    }
}

impl OutputFormat {
    /// The ending of a file of the format.
    pub open spec fn extension(self) -> Seq<char> {
        match self {
            OutputFormat::Avif => "avif"@,
            OutputFormat::Jpeg => "jpg"@,
            OutputFormat::Png => "png"@,
            OutputFormat::Webp => "webp"@,
        }
    }

    /// The media type of the format.
    pub open spec fn mime(self) -> Seq<char> {
        match self {
            OutputFormat::Avif => "image/avif"@,
            OutputFormat::Jpeg => "image/jpeg"@,
            OutputFormat::Png => "image/png"@,
            OutputFormat::Webp => "image/webp"@,
        }
    }

    /// The constant by which outputs of the format differ in their hash: one
    /// for each format, and no two alike.
    pub open spec fn seed_value(self) -> u32 {
        match self {
            OutputFormat::Webp => 0,
            OutputFormat::Jpeg => 1,
            OutputFormat::Png => 2,
            OutputFormat::Avif => 3,
        }
    }

    /// The ending of a file of the format.
    pub fn ext(&self) -> (s: &'static str)
        ensures
            s@ == self.extension(),
    {
        match self {
            OutputFormat::Avif => "avif",
            OutputFormat::Jpeg => "jpg",
            OutputFormat::Png => "png",
            OutputFormat::Webp => "webp",
        }
    }

    /// The media type of the format.
    pub fn mime_type(&self) -> (s: &'static str)
        ensures
            s@ == self.mime(),
    {
        match self {
            OutputFormat::Avif => "image/avif",
            OutputFormat::Jpeg => "image/jpeg",
            OutputFormat::Png => "image/png",
            OutputFormat::Webp => "image/webp",
        }
    }

    /// The seed of the format's adapter.
    pub fn seed(&self) -> (s: u32)
        ensures
            s == self.seed_value(),
    {
        match self {
            OutputFormat::Avif => crate::avif::seed(),
            OutputFormat::Jpeg => crate::jpeg::seed(),
            OutputFormat::Png => crate::png::seed(),
            OutputFormat::Webp => crate::webp::seed(),
        }
    }

    /// Reads the name of a format.
    pub fn parse(word: &str) -> (r: Result<OutputFormat, ParseOutputFormatError>)
        ensures
            match format_named(word.spec_bytes()) {
                Some(format) => r == Ok::<OutputFormat, ParseOutputFormatError>(format),
                None => r is Err,
            },
    {
        let bytes = word.as_bytes();
        if is_word4(bytes, 0x61, 0x76, 0x69, 0x66) {
            Ok(OutputFormat::Avif)
        } else if is_word3(bytes, 0x6a, 0x70, 0x67) || is_word4(bytes, 0x6a, 0x70, 0x65, 0x67) {
            Ok(OutputFormat::Jpeg)
        } else if is_word3(bytes, 0x70, 0x6e, 0x67) {
            Ok(OutputFormat::Png)
        } else if is_word4(bytes, 0x77, 0x65, 0x62, 0x70) {
            Ok(OutputFormat::Webp)
        } else {
            Err(ParseOutputFormatError)
        }
    }
}

/// A format that an input can be read from.
#[derive(Debug, Clone, Copy, PartialEq, Eq, Structural)]
pub enum SourceFormat {
    Jpeg,
    Png,
}

/// Why an input cannot be read.
#[derive(Debug, Clone, Copy, PartialEq, Eq, Structural)]
pub enum InputError {
    /// The file's ending names no format that can be decoded.
    UnsupportedFormat,
    /// The file has no ending to tell its format by.
    MissingExtension,
}

/// The format that a file with this ending is decoded as: `jpg` is JPEG and
/// `png` is PNG, in small letters only.
pub open spec fn source_named(extension: Option<Seq<u8>>) -> Result<SourceFormat, InputError> {
    match extension {
        None => Err(InputError::MissingExtension),
        Some(e) => if e == seq![0x6au8, 0x70, 0x67] {
            Ok(SourceFormat::Jpeg)
        } else if e == seq![0x70u8, 0x6e, 0x67] {
            Ok(SourceFormat::Png)
        } else {
            Err(InputError::UnsupportedFormat)
        },
    }
}

fn is_exactly3(bytes: &[u8], a: u8, b: u8, c: u8) -> (r: bool)
    ensures
        r == (bytes@ == seq![a, b, c]),
{
    if bytes.len() == 3 && bytes[0] == a && bytes[1] == b && bytes[2] == c {
        assert(bytes@ =~= seq![a, b, c]);
        true
    } else {
        if bytes.len() == 3 {
            let ghost w = seq![a, b, c];
            assert(bytes@[0] != w[0] || bytes@[1] != w[1] || bytes@[2] != w[2]);
        } else {
            assert(seq![a, b, c].len() == 3);
        }
        false
    }
}

/// Tells by a file's ending what it is decoded as.
pub fn source_format(extension: Option<&str>) -> (r: Result<SourceFormat, InputError>)
    ensures
        r == source_named(
            match extension {
                Some(e) => Some(e.spec_bytes()),
                None => None,
            },
        ),
{
    match extension {
        None => Err(InputError::MissingExtension),
        Some(e) => {
            let bytes = e.as_bytes();
            if is_exactly3(bytes, 0x6a, 0x70, 0x67) {
                Ok(SourceFormat::Jpeg)
            } else if is_exactly3(bytes, 0x70, 0x6e, 0x67) {
                Ok(SourceFormat::Png)
            } else {
                Err(InputError::UnsupportedFormat)
            }
        },
    }
}

/// The names of the parts of a path, as text.
pub open spec fn parts(path: Seq<String>) -> Seq<Seq<char>> {
    Seq::new(path.len(), |i: int| path[i]@)
}

/// Whether `path` lies under `base`: it has the parts of `base`, in order,
/// before its own.
pub open spec fn lies_under(base: Seq<Seq<char>>, path: Seq<Seq<char>>) -> bool {
    &&& base.len() <= path.len()
    &&& forall|i: int| 0 <= i < base.len() ==> base[i] == path[i]
}

/// Tells whether the input at `path` lies under the base directory, both
/// given by the names of their parts from the root on.
pub fn inside_base(base: &Vec<String>, path: &Vec<String>) -> (r: bool)
    ensures
        r == lies_under(parts(base@), parts(path@)),
{
    if base.len() > path.len() {
        return false;
    }
    let mut i: usize = 0;
    while i < base.len()
        invariant
            i <= base@.len() <= path@.len(),
            forall|k: int| 0 <= k < i ==> parts(base@)[k] == parts(path@)[k],
        decreases base@.len() - i,
    {
        if base[i] != path[i] {
            assert(parts(base@)[i as int] != parts(path@)[i as int]);
            return false;
        }
        i += 1;
    }
    true
}

/// The path of an input as the manifest names it: its parts after those of
/// the base directory. `None` where it does not lie under the base.
pub fn relative_parts(base: &Vec<String>, path: &Vec<String>) -> (r: Option<Vec<String>>)
    ensures
        r is Some <==> lies_under(parts(base@), parts(path@)),
        r matches Some(rest) ==> parts(rest@) == parts(path@).subrange(
            base@.len() as int,
            path@.len() as int,
        ),
{
    if !inside_base(base, path) {
        return None;
    }
    let mut rest: Vec<String> = Vec::new();
    let mut i: usize = base.len();
    while i < path.len()
        invariant
            base@.len() <= i <= path@.len(),
            rest@.len() == i - base@.len(),
            forall|k: int| 0 <= k < rest@.len() ==> rest@[k]@ == path@[base@.len() + k]@,
        decreases path@.len() - i,
    {
        rest.push(path[i].clone());
        i += 1;
    }
    assert(parts(rest@) =~= parts(path@).subrange(base@.len() as int, path@.len() as int));
    Some(rest)
}

/// The seed that an output of the format is hashed under.
pub open spec fn total_seed_value(format: OutputFormat) -> u32 {
    (1 + format.seed_value()) as u32
}

/// No two formats have one seed, and so no two formats are hashed under one
/// seed.
pub proof fn lemma_seeds_differ(a: OutputFormat, b: OutputFormat)
    requires
        a != b,
    ensures
        a.seed_value() != b.seed_value(),
        total_seed_value(a) != total_seed_value(b),
{
}

/// The seed that an output of the format is hashed under: that of the resize
/// and that of the format's adapter together.
pub fn total_seed(format: OutputFormat) -> (s: u32)
    ensures
        s == total_seed_value(format),
{
    crate::resize::seed() + format.seed()
}

/// The size asked of a resize for a pixel density: the base size times the
/// density. A density of zero asks for no output.
pub fn scaled_size(width: u32, height: u32, density: u8) -> (r: Option<(u32, u32)>)
    requires
        width * density <= u32::MAX,
        height * density <= u32::MAX,
    ensures
        density == 0 ==> r is None,
        density > 0 ==> r == Some(((width * density) as u32, (height * density) as u32)),
{
    if density == 0 {
        None
    } else {
        Some((width * density as u32, height * density as u32))
    }
}

/// The size of an output brought back to a density of one: what the manifest
/// records for a variant.
pub fn base_size(width: u32, height: u32, density: u8) -> (r: (u32, u32))
    requires
        density > 0,
    ensures
        r == ((width / density as u32), (height / density as u32)),
{
    (width / density as u32, height / density as u32)
}

/// The key under which the manifest files an output of a density.
pub open spec fn density_label_text(density: u8) -> Seq<char> {
    decimal_text(density as nat) + "x"@
}

/// Writes the key under which the manifest files an output of a density.
pub fn density_label(density: u8) -> (s: String)
    ensures
        s@ == density_label_text(density),
{
    decimal(density as u64).concat("x")
}

/// The name of an output file: the stem of the input, the hash, the density
/// where it is above one, and the format's ending.
pub open spec fn output_name_text(stem: Seq<char>, hash: u64, density: u8, format: OutputFormat) -> Seq<
    char,
> {
    stem + "-"@ + hash_text(hash) + (if density > 1 {
        "@"@ + decimal_text(density as nat) + "x"@
    } else {
        Seq::empty()
    }) + "."@ + format.extension()
}

/// Writes the name of an output file.
pub fn output_name(stem: &str, hash: u64, density: u8, format: OutputFormat) -> (s: String)
    ensures
        s@ == output_name_text(stem@, hash, density, format),
{
    let mut s = String::from_str(stem);
    s.append("-");
    s.append(hash_hex(hash).as_str());
    if density > 1 {
        s.append("@");
        s.append(decimal(density as u64).as_str());
        s.append("x");
        assert(s@ =~= stem@ + "-"@ + hash_text(hash) + ("@"@ + decimal_text(density as nat) + "x"@));
    } else {
        assert(s@ =~= stem@ + "-"@ + hash_text(hash) + Seq::<char>::empty());
    }
    s.append(".");
    s.append(format.ext());
    s
}

/// One output to make: of which input, at which density, in which format.
#[derive(Debug, Clone, Copy, PartialEq, Eq)]
pub struct Job {
    /// Place of the input among the inputs.
    pub image: usize,
    pub density: u8,
    pub format: OutputFormat,
}

/// The outputs of one input at one density: one for each format, in order.
pub open spec fn density_jobs(image: usize, density: u8, formats: Seq<OutputFormat>) -> Seq<Job> {
    Seq::new(formats.len(), |k: int| Job { image, density, format: formats[k] })
}

/// The outputs of one input: those of each density that is not zero, in
/// order.
pub open spec fn image_jobs(image: usize, densities: Seq<u8>, formats: Seq<OutputFormat>) -> Seq<Job>
    decreases densities.len(),
{
    if densities.len() == 0 {
        Seq::empty()
    } else {
        let before = image_jobs(image, densities.drop_last(), formats);
        if densities.last() == 0 {
            before
        } else {
            before + density_jobs(image, densities.last(), formats)
        }
    }
}

/// The outputs of the first `images` inputs, in order.
pub open spec fn jobs_of(images: nat, densities: Seq<u8>, formats: Seq<OutputFormat>) -> Seq<Job>
    decreases images,
{
    if images == 0 {
        Seq::empty()
    } else {
        jobs_of((images - 1) as nat, densities, formats) + image_jobs(
            (images - 1) as usize,
            densities,
            formats,
        )
    }
}

/// Number of densities that are not zero.
pub open spec fn nonzero_count(densities: Seq<u8>) -> nat
    decreases densities.len(),
{
    if densities.len() == 0 {
        0
    } else {
        nonzero_count(densities.drop_last()) + (if densities.last() == 0 {
            0nat
        } else {
            1nat
        })
    }
}

/// One input fans out to as many outputs as there are densities that are not
/// zero, times the formats.
pub proof fn lemma_image_jobs_len(image: usize, densities: Seq<u8>, formats: Seq<OutputFormat>)
    ensures
        image_jobs(image, densities, formats).len() == nonzero_count(densities) * formats.len(),
    decreases densities.len(),
{
    if densities.len() > 0 {
        lemma_image_jobs_len(image, densities.drop_last(), formats);
        assert((nonzero_count(densities.drop_last()) + 1) * formats.len() == nonzero_count(
            densities.drop_last(),
        ) * formats.len() + formats.len()) by (nonlinear_arith);
    } else {
        assert(0 * formats.len() == 0) by (nonlinear_arith);
    }
}

/// The inputs fan out to as many outputs as there are inputs, times the
/// densities that are not zero, times the formats.
pub proof fn lemma_jobs_len(images: nat, densities: Seq<u8>, formats: Seq<OutputFormat>)
    requires
        images <= usize::MAX,
    ensures
        jobs_of(images, densities, formats).len() == images * nonzero_count(densities)
            * formats.len(),
    decreases images,
{
    let per = nonzero_count(densities) * formats.len();
    if images > 0 {
        lemma_jobs_len((images - 1) as nat, densities, formats);
        lemma_image_jobs_len((images - 1) as usize, densities, formats);
        assert(images * nonzero_count(densities) * formats.len() == (images - 1) * nonzero_count(
            densities,
        ) * formats.len() + nonzero_count(densities) * formats.len()) by (nonlinear_arith);
    } else {
        assert(0 * nonzero_count(densities) * formats.len() == 0) by (nonlinear_arith);
    }
}

/// Lists the outputs that `images` inputs fan out to: for each input, for
/// each density that is not zero, one in each format.
pub fn jobs(images: usize, densities: &[u8], formats: &[OutputFormat]) -> (list: Vec<Job>)
    ensures
        list@ == jobs_of(images as nat, densities@, formats@),
        list@.len() == images * nonzero_count(densities@) * formats@.len(),
{
    let mut list: Vec<Job> = Vec::new();
    let mut i: usize = 0;
    while i < images
        invariant
            i <= images,
            list@ == jobs_of(i as nat, densities@, formats@),
        decreases images - i,
    {
        let ghost done = list@;
        let mut d: usize = 0;
        while d < densities.len()
            invariant
                d <= densities@.len(),
                i < images,
                list@ == done + image_jobs(i, densities@.subrange(0, d as int), formats@),
            decreases densities@.len() - d,
        {
            let density = densities[d];
            let ghost upto = densities@.subrange(0, d as int);
            let ghost next = densities@.subrange(0, d + 1);
            assert(next.drop_last() =~= upto);
            assert(next.last() == density);
            if density != 0 {
                let ghost before = list@;
                let mut f: usize = 0;
                while f < formats.len()
                    invariant
                        f <= formats@.len(),
                        list@ == before + density_jobs(i, density, formats@.subrange(0, f as int)),
                    decreases formats@.len() - f,
                {
                    list.push(Job { image: i, density, format: formats[f] });
                    assert(list@ =~= before + density_jobs(
                        i,
                        density,
                        formats@.subrange(0, f + 1),
                    ));
                    f += 1;
                }
                assert(formats@.subrange(0, formats@.len() as int) =~= formats@);
                assert(list@ =~= done + image_jobs(i, next, formats@));
            }
            d += 1;
        }
        assert(densities@.subrange(0, densities@.len() as int) =~= densities@);
        i += 1;
    }
    proof {
        lemma_jobs_len(images as nat, densities@, formats@);
    }
    list
}

} // verus!
