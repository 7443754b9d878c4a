//! The content hash that names an output.

use vstd::prelude::*;

verus! {

/// The 64-bit xxHash of `input` with `seed`.
pub uninterp spec fn xxh64_digest(input: Seq<u8>, seed: u64) -> u64;

/// `xxhash_rust::const_xxh64::xxh64`: a value that depends on the bytes and
/// the seed alone.
#[verifier::external_body]
fn xxh64_of(input: &[u8], seed: u64) -> (h: u64)
    ensures
        h == xxh64_digest(input@, seed),
{
    xxhash_rust::const_xxh64::xxh64(input, seed)
}

/// The hash of `input` under `seed`.
pub open spec fn hash_of(input: Seq<u8>, seed: u32) -> u64 {
    xxh64_digest(input, seed as u64)
}

/// Hashes `input` under `seed`. The same bytes and seed always give the same
/// hash.
pub fn hash(input: &[u8], seed: u32) -> (h: u64)
    ensures
        h == hash_of(input@, seed),
{
    xxh64_of(input, seed as u64)
}

/// The sum of the hash of the source and, where there is one, the hash of
/// the variant's name, kept to 64 bits.
pub open spec fn combined(source: u64, variant: Option<u64>) -> u64 {
    match variant {
        Some(v) => ((source + v) % 0x1_0000_0000_0000_0000) as u64,
        None => source,
    }
}

/// Adds the hash of the variant's name, where there is one, to the hash of
/// the source.
pub fn combine(source: u64, variant: Option<u64>) -> (h: u64)
    ensures
        h == combined(source, variant),
{
    match variant {
        Some(v) => source.wrapping_add(v),
        None => source,
    }
}

/// The content hash of an output: of the source bytes and, where the output
/// is recorded under a variant, of the variant's name, all under one seed.
pub open spec fn content_hash_of(source: Seq<u8>, variant: Option<Seq<u8>>, seed: u32) -> u64 {
    combined(
        hash_of(source, seed),
        match variant {
            Some(name) => Some(hash_of(name, seed)),
            None => None,
        },
    )
}

/// Computes the content hash of an output. What the encoder is told (quality,
/// speed) is no part of it.
pub fn content_hash(source: &[u8], variant: Option<&[u8]>, seed: u32) -> (h: u64)
    ensures
        h == content_hash_of(
            source@,
            match variant {
                Some(name) => Some(name@),
                None => None,
            },
            seed,
        ),
{
    let of_source = hash(source, seed);
    let of_variant = match variant {
        Some(name) => Some(hash(name, seed)),
        None => None,
    };
    combine(of_source, of_variant)
}

/// The byte of `h` that has `index` bytes before it when the most significant
/// comes first.
pub open spec fn be_byte(h: u64, index: int) -> u8
    recommends
        0 <= index < 8,
{
    ((h as int / pow256((7 - index) as nat)) % 256) as u8
}

/// 256 to the `n`.
pub open spec fn pow256(n: nat) -> int
    decreases n,
{
    if n == 0 {
        1
    } else {
        256 * pow256((n - 1) as nat)
    }
}

/// The eight bytes of `h`, most significant first.
pub open spec fn be_bytes(h: u64) -> Seq<u8> {
    Seq::new(8, |i: int| be_byte(h, i))
}

/// Writes `h` as eight bytes, most significant first.
pub fn to_be_bytes(h: u64) -> (bytes: Vec<u8>)
    ensures
        bytes@ == be_bytes(h),
{
    let mut bytes: Vec<u8> = Vec::new();
    proof {
        reveal_with_fuel(pow256, 8);
    }
    bytes.push(((h / 0x100_0000_0000_0000) % 256) as u8);
    bytes.push(((h / 0x1_0000_0000_0000) % 256) as u8);
    bytes.push(((h / 0x100_0000_0000) % 256) as u8);
    bytes.push(((h / 0x1_0000_0000) % 256) as u8);
    bytes.push(((h / 0x100_0000) % 256) as u8);
    bytes.push(((h / 0x1_0000) % 256) as u8);
    bytes.push(((h / 0x100) % 256) as u8);
    bytes.push((h % 256) as u8);
    assert(bytes@ =~= be_bytes(h));
    bytes
}

/// The lowercase hexadecimal digit of `d`.
pub open spec fn hex_digit(d: int) -> char
    recommends
        0 <= d < 16,
{
    "0123456789abcdef"@[d]
}

/// Two lowercase hexadecimal digits for each byte, the high one first.
pub open spec fn hex_text(bytes: Seq<u8>) -> Seq<char> {
    Seq::new(
        2 * bytes.len(),
        |i: int|
            if i % 2 == 0 {
                hex_digit(bytes[i / 2] as int / 16)
            } else {
                hex_digit(bytes[i / 2] as int % 16)
            },
    )
}

/// `hex::encode`: each byte as two lowercase hexadecimal digits, the high one
/// first, in the order of the bytes.
#[verifier::external_body]
fn hex_of(bytes: &Vec<u8>) -> (s: String)
    ensures
        s@ == hex_text(bytes@),
{
    hex::encode(bytes)
}

/// The sixteen hexadecimal digits of `h`, most significant first.
pub open spec fn hash_text(h: u64) -> Seq<char> {
    hex_text(be_bytes(h))
}

/// Writes a hash as it stands in a file name: sixteen lowercase hexadecimal
/// digits, most significant first.
pub fn hash_hex(h: u64) -> (s: String)
    ensures
        s@ == hash_text(h),
        s@.len() == 16,
{
    let bytes = to_be_bytes(h);
    hex_of(&bytes)
}

} // verus!
