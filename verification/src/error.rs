//! Errors of the library.
use bitcoin::util::uint::ParseLengthError;
use vstd::prelude::*;

verus! {

/// What can go wrong in the library's computations and decoders.
#[derive(Debug, Clone, Copy, PartialEq, Eq)]
pub enum Error {
    /// A target handed to the 256-bit arithmetic was not 32 bytes long.
    Uint256Conversion(ParseLengthError),
    /// A 256-bit field was built from this many bytes instead of 32.
    InvalidU256(usize),
    /// A byte string of this length does not fit a field that holds at most
    /// 255 bytes.
    InvalidB0255Size(usize),
    /// A byte string of this length does not fit a field that holds at most
    /// 65535 bytes.
    InvalidB064KSize(usize),
    /// A sequence of this many items does not fit a field that holds at most
    /// 65535 items.
    InvalidSeq064KSize(usize),
    /// The input ended before the message did.
    OutOfBound,
}

} // verus!
