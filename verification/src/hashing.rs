//! The hash function the chain engine runs on: a truncated cryptographic
//! digest rendered as hexadecimal text. The digest itself comes from an
//! outside crate and is treated as a black box; everything around it is
//! stated exactly.

use vstd::prelude::*;

use sha3::Digest;
use vstd::string::StrSliceExecFns;

verus! {

/// The SHA3-224 digest of a plaintext, as a function of its characters.
pub uninterp spec fn sha3_224_of(s: Seq<char>) -> Seq<u8>;

/// The digest bytes the chain engine works from. SHA3-224 output always
/// has 28 bytes; this form carries that shape, so that every contract
/// built on it has a digest of known length.
pub open spec fn digest_bytes(s: Seq<char>) -> Seq<u8> {
    if sha3_224_of(s).len() == 28 {
        sha3_224_of(s)
    } else {
        Seq::new(28, |i: int| 0u8)
    }
}

/// The lowercase hexadecimal digit for a nibble value.
pub open spec fn hex_digit(v: nat) -> char
    recommends
        v < 16,
{
    if v < 10 {
        (48 + v) as char
    } else {
        (87 + v) as char
    }
}

/// Lowercase hexadecimal text of a byte sequence: two digits per byte,
/// high nibble first.
pub open spec fn hex_of(b: Seq<u8>) -> Seq<char> {
    Seq::new(
        2 * b.len(),
        |i: int|
            if i % 2 == 0 {
                hex_digit((b[i / 2] as nat) / 16)
            } else {
                hex_digit((b[i / 2] as nat) % 16)
            },
    )
}

/// What `hash` returns: the digest's hexadecimal text cut to `l`
/// characters. For `l <= 56` the result has exactly `l` characters.
pub open spec fn hash_of(p: Seq<char>, l: nat) -> Seq<char> {
    hex_of(digest_bytes(p)).take(l as int)
}

/// A truncated digest has exactly the asked-for length, for any cut
/// within the 56 hexadecimal characters a digest renders to.
pub proof fn lemma_hash_of_len(p: Seq<char>, l: nat)
    requires
        l <= 56,
    ensures
        hash_of(p, l).len() == l,
{
    assert(digest_bytes(p).len() == 28);
    assert(hex_of(digest_bytes(p)).len() == 56);
}

/// Relies on `sha3::Sha3_224` through `Digest::digest`: a pure function
/// of the input bytes whose output always has 28 bytes.
#[verifier::external_body]
fn sha3_224(s: &str) -> (r: Vec<u8>)
    ensures
        r@ == sha3_224_of(s@),
        r@.len() == 28,
{
    sha3::Sha3_224::digest(s.as_bytes()).to_vec()
}

/// Relies on `hex::encode`: two lowercase hexadecimal digits for each
/// byte, high nibble first.
#[verifier::external_body]
fn hex_encode(bytes: &Vec<u8>) -> (r: String)
    ensures
        r@ == hex_of(bytes@),
{
    hex::encode(bytes.as_slice())
}

/// Hashes a plaintext for chain generation and lookup: the SHA3-224
/// digest, hex-encoded and truncated to `length` characters.
pub fn hash(plaintext: &str, length: u32) -> (r: String)
    requires
        length <= 56,
    ensures
        r@ == hash_of(plaintext@, length as nat),
        r@.len() == length,
{
    let digest = sha3_224(plaintext);
    let hexstr = hex_encode(&digest);
    let cut = hexstr.as_str().substring_char(0, length as usize);
    cut.to_owned()
}

} // verus!
