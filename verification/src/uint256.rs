//! The 256-bit arithmetic that difficulty computations take from `bitcoin`'s
//! `Uint256`. Numbers cross this boundary as 32 big-endian bytes; each item
//! here is trusted, and its contract is what the `bitcoin` source shows.
use crate::byte_order::be_value;
use bitcoin::util::uint::{ParseLengthError, Uint256};
use vstd::prelude::*;

verus! {

/// `bitcoin`'s error for a byte slice of the wrong length; opaque here.
#[verifier::external_type_specification]
#[verifier::external_body]
pub struct ExParseLengthError(ParseLengthError);

/// `Uint256::from_be_slice`, with the parsed number handed back as its
/// big-endian bytes (`Uint256::to_be_bytes`).
///
/// Trusted: it fails exactly when the slice is not 32 bytes long, and
/// otherwise the number read is the slice itself in big-endian order. What the
/// error value holds (the actual and the expected length) is not stated.
#[verifier::external_body]
pub fn u256_from_be_slice(bytes: &[u8]) -> (r: Result<[u8; 32], ParseLengthError>)
    ensures
        r is Ok <==> bytes@.len() == 32,
        r matches Ok(a) ==> a@ == bytes@,
{
    match Uint256::from_be_slice(bytes) {
        Ok(n) => Ok(n.to_be_bytes()),
        Err(e) => Err(e),
    }
}

/// `>` on `Uint256` (its hand-written `Ord`, most significant word first).
///
/// Trusted: the comparison is that of the numbers the two big-endian byte
/// strings denote.
#[verifier::external_body]
pub fn u256_gt(a: &[u8; 32], b: &[u8; 32]) -> (r: bool)
    ensures
        r == (be_value(a@) > be_value(b@)),
{
    Uint256::from_be_bytes(*a) > Uint256::from_be_bytes(*b)
}

/// `Uint256`'s `Div`, with the quotient handed back as its big-endian bytes
/// (`Uint256::to_be_bytes`).
///
/// Trusted: the quotient is the floor of `a / b` (bitwise long division).
/// `Div` asserts a non-zero divisor, so a zero `b` is excluded.
#[verifier::external_body]
pub fn u256_div(a: &[u8; 32], b: &[u8; 32]) -> (r: [u8; 32])
    requires
        be_value(b@) > 0,
    ensures
        be_value(r@) == be_value(a@) / be_value(b@),
{
    (Uint256::from_be_bytes(*a) / Uint256::from_be_bytes(*b)).to_be_bytes()
}

} // verus!
