//! Content hashing and hash-derived naming.
//!
//! The digest itself is computed by an outside hash function; its result is
//! given a name, `digest_of`, and everything the library proves about content
//! addressing is stated over that name. Hex encoding, by contrast, is small
//! enough to state exactly.

use vstd::prelude::*;
use crate::BlobHash;

verus! {

/// The digest that the outside hash function computes for a byte sequence.
/// It depends on the bytes alone.
pub uninterp spec fn digest_of(data: Seq<u8>) -> Seq<u8>;

/// Relies on blake2's `Blake2b256` through the `Digest` trait: the 32-byte
/// digest is a function of the input bytes alone.
#[verifier::external_body]
pub fn content_digest(data: &[u8]) -> (r: BlobHash)
    ensures
        r@ == digest_of(data@),
{
    let mut hasher = <blake2::Blake2b256 as blake2::Digest>::new();
    blake2::Digest::update(&mut hasher, data);
    let out = blake2::Digest::finalize(hasher);
    out.into()
}

/// The lowercase hex digit for a nibble.
pub open spec fn hex_digit(n: u8) -> char
    recommends
        n < 16,
{
    if n < 10 {
        ((n + 48) as u8) as char
    } else {
        ((n + 87) as u8) as char
    }
}

/// The lowercase hex encoding of a byte sequence: two digits per byte,
/// high nibble first.
pub open spec fn hex_of(bytes: Seq<u8>) -> Seq<char> {
    Seq::new(
        bytes.len() * 2,
        |i: int|
            if i % 2 == 0 {
                hex_digit((bytes[i / 2] / 16) as u8)
            } else {
                hex_digit((bytes[i / 2] % 16) as u8)
            },
    )
}

/// Relies on hex::encode: the lowercase hex encoding of the bytes, high
/// nibble first; and on format!, which joins the directory, one slash, and
/// that encoding.
#[verifier::external_body]
pub fn join_hex_name(dir: &str, hash: &BlobHash) -> (r: String)
    ensures
        r@ == dir@ + seq!['/'] + hex_of(hash@),
{
    format!("{}/{}", dir, hex::encode(hash))
}

} // verus!
