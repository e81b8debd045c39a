use rainbowtable::hashing::hash;
use sha3::{Digest, Sha3_224};

#[test]
fn hash_matches_sha3_hex_prefix() {
    let full = hex::encode(Sha3_224::digest("apple".as_bytes()));
    assert_eq!(hash("apple", 8), full[0..8]);
    assert_eq!(hash("apple", 56), full);
}

#[test]
fn hash_known_empty_string_digest() {
    // SHA3-224 of the empty input.
    assert_eq!(
        hash("", 56),
        "6b4e03423667dbb73b6e15454f0eb1abd4597f9a1b078e3f5b5a6bc7"
    );
    assert_eq!(hash("", 8), "6b4e0342");
}

#[test]
fn hash_shape() {
    for length in [1u32, 8, 28, 56] {
        let h = hash("some plaintext", length);
        assert_eq!(h.chars().count(), length as usize);
        assert!(h.chars().all(|c| c.is_ascii_hexdigit()));
    }
}
