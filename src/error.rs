//! Why an encode or a decode failed.
use vstd::prelude::*;

verus! {

/// The failure kinds of the codec.
#[derive(Debug, Clone, Copy, PartialEq, Eq, Structural)]
pub enum CodecError {
    /// The input ended before the bytes that the shape calls for.
    Underflow,
    /// A length does not fit its length field.
    MalformedLength,
    /// The bytes are not a value of the expected shape: text that is not
    /// UTF-8, or an unknown address family.
    InvalidEncoding,
}

} // verus!
