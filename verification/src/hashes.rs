//! Block fingerprint strategies.
//!
//! Fingerprints are compared only for equality, never decoded, so each
//! strategy's digest is modelled as an uninterpreted function of the input
//! bytes: the same bytes always give the same fingerprint, and nothing more
//! is assumed.  The fast 64-bit checksum is the strategy of `BlockFile`; the
//! 256-bit digest rendered as lower-case hex is the strategy of
//! `bsyncReader`.
use vstd::prelude::*;

use sha3::Digest;

verus! {

/// The 64-bit xxh3 checksum of a byte sequence.
pub uninterp spec fn xxh3_of(b: Seq<u8>) -> u64;

/// Relies on xxhash_rust::xxh3::xxh3_64: the 64-bit checksum is a function
/// of the input bytes alone.
#[verifier::external_body]
pub(crate) fn xxh3_64_digest(data: &Vec<u8>) -> (r: u64)
    ensures
        r == xxh3_of(data@),
{
    xxhash_rust::xxh3::xxh3_64(data.as_slice())
}

/// The 32-byte SHA3-256 digest of a byte sequence.
pub uninterp spec fn sha3_256_of(b: Seq<u8>) -> Seq<u8>;

/// Relies on sha3::Sha3_256 through the Digest trait (new, update,
/// finalize): the digest is a function of the input bytes alone and is
/// always 32 bytes long.
#[verifier::external_body]
pub(crate) fn sha3_256_digest(data: &Vec<u8>) -> (r: Vec<u8>)
    ensures
        r@ == sha3_256_of(data@),
        r@.len() == 32,
{
    let mut hasher = sha3::Sha3_256::new();
    hasher.update(data.as_slice());
    hasher.finalize().to_vec()
}

/// The lower-case hex digit of a nibble: `0`-`9` then `a`-`f`.
pub open spec fn hex_digit_lower(n: u8) -> u8
    recommends
        n < 16,
{
    if n < 10 {
        (0x30 + n) as u8
    } else {
        (0x57 + n) as u8
    }
}

/// The lower-case hex rendering of a byte sequence: two digits per byte,
/// high nibble first.
pub open spec fn hex_lower_of(s: Seq<u8>) -> Seq<u8> {
    Seq::new(
        s.len() * 2,
        |i: int|
            if i % 2 == 0 {
                hex_digit_lower(s[i / 2] >> 4)
            } else {
                hex_digit_lower(s[i / 2] & 0x0f)
            },
    )
}

/// Relies on base16ct::lower::encode: writes the lower-case hex digits of
/// `src` into the front of `dst` and fails exactly when `dst` is too short,
/// leaving `dst` untouched then.
#[verifier::external_body]
pub(crate) fn hex_encode_lower(src: &Vec<u8>, dst: &mut Vec<u8>) -> (r: bool)
    requires
        src@.len() * 2 <= usize::MAX,
    ensures
        r <==> old(dst)@.len() >= src@.len() * 2,
        r ==> final(dst)@ == hex_lower_of(src@) + old(dst)@.skip(2 * src@.len() as int),
        !r ==> final(dst)@ == old(dst)@,
{
    base16ct::lower::encode(src.as_slice(), dst.as_mut_slice()).is_ok()
}

} // verus!
