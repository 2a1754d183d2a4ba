//! The content digest: a 256-bit cryptographic hash of the exact byte
//! sequence, hex-encoded lower-case. It is both the integrity check against
//! the lock table and the key of the artifact cache.

use vstd::prelude::*;

use sha2::Digest;

verus! {

/// The 32-byte digest `sha2` computes for a byte sequence: a pure function
/// of the bytes alone.
pub uninterp spec fn sha256_of(b: Seq<u8>) -> Seq<u8>;

/// The lower-case hex digit of a value below 16.
pub open spec fn hex_digit(n: u8) -> char
    recommends
        n < 16,
{
    seq!['0', '1', '2', '3', '4', '5', '6', '7', '8', '9', 'a', 'b', 'c', 'd', 'e', 'f'][n as int]
}

/// Lower-case hex encoding: two digits per byte, high nibble first.
pub open spec fn hex_of(b: Seq<u8>) -> Seq<char>
    decreases b,
{
    if b.len() == 0 {
        Seq::empty()
    } else {
        seq![hex_digit(b[0] / 16), hex_digit(b[0] % 16)] + hex_of(b.drop_first())
    }
}

/// The digest under which a byte sequence is locked, cached and verified.
pub open spec fn digest_of(b: Seq<u8>) -> Seq<char> {
    hex_of(sha256_of(b))
}

/// Hex encoding writes exactly two characters per byte.
pub proof fn lemma_hex_of_len(b: Seq<u8>)
    ensures
        hex_of(b).len() == 2 * b.len(),
    decreases b,
{
    if b.len() > 0 {
        lemma_hex_of_len(b.drop_first());
    }
}

/// Relies on `sha2::Sha256` (through the `Digest` trait): the 32-byte
/// SHA-256 digest of the bytes, depending on the bytes alone.
#[verifier::external_body]
fn sha256_bytes(bytes: &Vec<u8>) -> (r: Vec<u8>)
    ensures
        r@ == sha256_of(bytes@),
        r@.len() == 32,
{
    sha2::Sha256::digest(bytes).to_vec()
}

/// Relies on `hex::encode`: lower-case hex, two digits per byte, high
/// nibble first.
#[verifier::external_body]
fn hex_lower(bytes: &Vec<u8>) -> (r: String)
    ensures
        r@ == hex_of(bytes@),
{
    hex::encode(bytes)
}

/// The content digest of a byte buffer, as pinned by the lock table: the
/// 256-bit hash of the exact bytes, hex-encoded lower-case, 64 characters.
pub fn hash_bytes(bytes: &Vec<u8>) -> (r: String)
    ensures
        r@ == digest_of(bytes@),
        r@.len() == 64,
{
    let digest = sha256_bytes(bytes);
    let out = hex_lower(&digest);
    proof {
        lemma_hex_of_len(digest@);
    }
    out
}

} // verus!
