use vstd::prelude::*;

verus! {

/// Errors that can be returned by decoding operations.
#[derive(Debug, Copy, Clone, PartialEq, Eq, Structural)]
pub enum ErrorKind {
    /// An encoded string contained a byte value not valid for the encoding
    /// alphabet.
    InvalidEncodingChar,
    /// The padding is incorrect for the length of the input.
    BadPadding,
}

} // verus!
