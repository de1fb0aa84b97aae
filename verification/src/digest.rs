//! Digest and hexadecimal helpers: the SHA-1 digest used for the info-hash
//! and for piece verification, and the hexadecimal rendering of digests.

use vstd::prelude::*;
use sha1::Digest;

verus! {

/// The SHA-1 digest of a byte sequence, as the sha1 crate computes it: a
/// function of the input bytes alone.
pub uninterp spec fn sha1_of(data: Seq<u8>) -> Seq<u8>;

/// The ASCII code of the lower-case hexadecimal digit of a nibble.
pub open spec fn hex_digit(n: u8) -> u8 {
    if n < 10 {
        (48 + n) as u8
    } else {
        (87 + n) as u8
    }
}

/// The lower-case hexadecimal rendering of bytes, two digits per byte, as
/// ASCII codes.
pub open spec fn hex_of(data: Seq<u8>) -> Seq<u8>
    decreases data.len(),
{
    if data.len() == 0 {
        Seq::empty()
    } else {
        seq![hex_digit(data[0] / 16), hex_digit(data[0] % 16)] + hex_of(data.drop_first())
    }
}

/// Relies on sha1::Sha1 through the digest::Digest trait: the digest
/// depends on the input bytes alone and is 20 bytes long.
#[verifier::external_body]
pub fn sha1_it(data: &Vec<u8>) -> (r: Vec<u8>)
    ensures
        r@ == sha1_of(data@),
        r@.len() == 20,
{
    sha1::Sha1::digest(data.as_slice()).to_vec()
}

/// Relies on hex::encode: two lower-case hexadecimal digits per input byte,
/// in input order.
#[verifier::external_body]
pub fn hex_bytes(data: &Vec<u8>) -> (r: Vec<u8>)
    ensures
        r@ == hex_of(data@),
{
    hex::encode(data.as_slice()).into_bytes()
}

} // verus!
