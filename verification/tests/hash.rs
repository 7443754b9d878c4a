use wimg::hash::{combine, content_hash, hash, hash_hex, to_be_bytes};
use wimg::pipeline::{total_seed, OutputFormat};

#[test]
fn hash_of_nothing() {
    assert_eq!(hash(b"", 0), 0xef46db3751d8e999);
}

#[test]
fn hash_is_the_seeded_xxh64() {
    for data in [&b"a"[..], b"abc", b"The quick brown fox jumps over the lazy dog", &[0u8; 100]] {
        for seed in [0u32, 1, 2, 0xffff_ffff] {
            assert_eq!(hash(data, seed), xxhash_rust::const_xxh64::xxh64(data, seed as u64));
        }
    }
}

#[test]
fn hash_is_the_same_every_time() {
    let data: Vec<u8> = (0..=255).collect();
    for seed in 0..8 {
        assert_eq!(hash(&data, seed), hash(&data.clone(), seed));
    }
}

#[test]
fn hash_differs_with_the_seed_and_the_bytes() {
    assert_ne!(hash(b"image", 1), hash(b"image", 2));
    assert_ne!(hash(b"image", 1), hash(b"imagf", 1));
    assert_ne!(hash(b"image", 1), 0);
}

#[test]
fn combine_adds_and_wraps() {
    assert_eq!(combine(5, None), 5);
    assert_eq!(combine(5, Some(7)), 12);
    assert_eq!(combine(u64::MAX, Some(1)), 0);
    assert_eq!(combine(u64::MAX, Some(u64::MAX)), u64::MAX - 1);
}

#[test]
fn content_hash_without_variant_is_the_hash_of_the_source() {
    assert_eq!(content_hash(b"source", None, 2), hash(b"source", 2));
}

#[test]
fn content_hash_with_variant_is_the_sum() {
    let expected = hash(b"source", 2).wrapping_add(hash(b"thumb", 2));
    assert_eq!(content_hash(b"source", Some(b"thumb"), 2), expected);
    assert_ne!(content_hash(b"source", Some(b"thumb"), 2), content_hash(b"source", Some(b"large"), 2));
}

#[test]
fn same_bytes_as_jpeg_hash_the_same_whatever_the_quality() {
    let source = b"the same source bytes";
    let seed = total_seed(OutputFormat::Jpeg);
    let with_80 = {
        let _opts = wimg::jpeg::EncodeOptions { quality: 80 };
        hash_hex(content_hash(source, None, seed))
    };
    let again = {
        let _opts = wimg::jpeg::EncodeOptions { quality: 80 };
        hash_hex(content_hash(source, None, seed))
    };
    let with_10 = {
        let _opts = wimg::jpeg::EncodeOptions { quality: 10 };
        hash_hex(content_hash(source, None, seed))
    };
    assert_eq!(with_80, again);
    assert_eq!(with_80, with_10);
}

#[test]
fn bytes_most_significant_first() {
    assert_eq!(to_be_bytes(0x0102030405060708), vec![1, 2, 3, 4, 5, 6, 7, 8]);
    assert_eq!(to_be_bytes(0), vec![0; 8]);
    assert_eq!(to_be_bytes(u64::MAX), vec![255; 8]);
    assert_eq!(to_be_bytes(0xff00), 0xff00u64.to_be_bytes().to_vec());
}

#[test]
fn hash_in_hexadecimal() {
    assert_eq!(hash_hex(0), "0000000000000000");
    assert_eq!(hash_hex(255), "00000000000000ff");
    assert_eq!(hash_hex(0xef46db3751d8e999), "ef46db3751d8e999");
    assert_eq!(hash_hex(0x0123456789abcdef), "0123456789abcdef");
    assert_eq!(hash_hex(u64::MAX), "ffffffffffffffff");
}
