//! The digest function: SHA-256 rendered as a lowercase hex string.
//!
//! The tree never looks inside a digest; it only concatenates digests and
//! hashes them again. The digest of a string is therefore modelled as an
//! uninterpreted function of the string's characters, composed with an exact
//! specification of hex encoding.

use vstd::prelude::*;
use vstd::string::StringExecFns;

use sha2::Digest;
use sha2::Sha256;

verus! {

/// The SHA-256 digest of the UTF-8 bytes of a string, as 32 raw bytes.
/// What those bytes are is fixed by the `sha256_digest` wrapper below; all
/// that matters to the tree is that equal strings give equal digests.
pub uninterp spec fn sha256_of(s: Seq<char>) -> Seq<u8>;

/// The lowercase hex digit for a value below 16.
pub open spec fn hex_digit(n: u8) -> char
    recommends
        n < 16,
{
    if n == 0 {
        '0'
    } else if n == 1 {
        '1'
    } else if n == 2 {
        '2'
    } else if n == 3 {
        '3'
    } else if n == 4 {
        '4'
    } else if n == 5 {
        '5'
    } else if n == 6 {
        '6'
    } else if n == 7 {
        '7'
    } else if n == 8 {
        '8'
    } else if n == 9 {
        '9'
    } else if n == 10 {
        'a'
    } else if n == 11 {
        'b'
    } else if n == 12 {
        'c'
    } else if n == 13 {
        'd'
    } else if n == 14 {
        'e'
    } else {
        'f'
    }
}

/// Lowercase hex encoding: two digits per byte, high nibble first.
pub open spec fn hex_of(bytes: Seq<u8>) -> Seq<char> {
    Seq::new(
        bytes.len() * 2,
        |i: int|
            if i % 2 == 0 {
                hex_digit(bytes[i / 2] / 16)
            } else {
                hex_digit(bytes[i / 2] % 16)
            },
    )
}

/// The digest of a string as the tree stores it: the SHA-256 digest of its
/// bytes, hex-encoded.
pub open spec fn hash_of(s: Seq<char>) -> Seq<char> {
    hex_of(sha256_of(s))
}

/// The digest of a parent node: the digest of the left child's hex digest
/// concatenated with the right child's, no delimiter.
pub open spec fn parent_of(left: Seq<char>, right: Seq<char>) -> Seq<char> {
    hash_of(left + right)
}

/// Relies on `sha2::Sha256::digest`: a deterministic function of the input
/// bytes alone, with a 32-byte output.
#[verifier::external_body]
fn sha256_digest(data: &str) -> (r: Vec<u8>)
    ensures
        r@ == sha256_of(data@),
        r@.len() == 32,
{
    Sha256::digest(data).to_vec()
}

/// Relies on `hex::encode`: lowercase hex, two digits per byte, high nibble
/// first.
#[verifier::external_body]
fn hex_encode(bytes: &Vec<u8>) -> (r: String)
    ensures
        r@ == hex_of(bytes@),
{
    hex::encode(bytes)
}

/// Hashes one string to the digest the tree stores for it.
pub fn hash_str(data: &str) -> (r: String)
    ensures
        r@ == hash_of(data@),
{
    let digest = sha256_digest(data);
    hex_encode(&digest)
}

/// Hashes the concatenation of two digests into their parent digest.
pub fn hash_pair(left: &str, right: &str) -> (r: String)
    ensures
        r@ == parent_of(left@, right@),
{
    let combined = left.to_owned().concat(right);
    hash_str(combined.as_str())
}

} // verus!
