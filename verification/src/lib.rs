//! Encoding and decoding of values to and from byte streams, in a choice of
//! wire formats: fixed-width integers in big- or little-endian order, LEB128
//! variable-length integers, and UTF-8 strings with a length prefix.
//!
//! Encoding appends the bytes of a value to a buffer; decoding reads a value
//! from the front of a buffer and says how many bytes it took. The reading and
//! writing of streams happens around the library, which works on bytes.

pub mod bits;
pub mod numeric;
pub mod varint;
pub mod string;
pub mod variant;

use vstd::prelude::*;

verus! {

/// A wire format: a rule that says how values are laid out as bytes.
pub trait NetFormat {
}

/// Why a value could not be encoded.
#[derive(Debug, Clone, Copy, PartialEq, Eq, Structural)]
pub enum EncodeError {
    /// A length does not fit the type of its prefix.
    LengthOutOfRange,
}

/// Why a value could not be decoded.
#[derive(Debug, Clone, Copy, PartialEq, Eq, Structural)]
pub enum DecodeError {
    /// The input ended before the value did.
    UnexpectedEnd,
    /// A LEB128 integer ran on for more bytes than its type holds.
    Leb128TooLong,
    /// A decoded length does not fit a `usize`.
    LengthOutOfRange,
    /// A string's bytes are not valid UTF-8.
    InvalidUtf8,
}

/// A value that can be written in the format `N`.
pub trait NetEncode<N: NetFormat> {
    /// The bytes that stand for the value, or `None` where the format cannot hold it.
    spec fn spec_encode(&self) -> Option<Seq<u8>>;

    /// Appends the encoding of the value to `out`; on failure `out` is left as it was.
    fn encode(&self, out: &mut Vec<u8>) -> (r: Result<(), EncodeError>)
        ensures
            r is Ok <==> self.spec_encode() is Some,
            r is Ok ==> final(out)@ == old(out)@ + self.spec_encode().unwrap(),
            r is Err ==> final(out)@ == old(out)@,
    ;
}

/// A value that can be read in the format `N`.
pub trait NetDecode<N: NetFormat>: Sized {
    /// Decoding the front of `bytes` gives `v` and takes `n` bytes.
    spec fn spec_decodes(bytes: Seq<u8>, v: Self, n: nat) -> bool;

    /// The error that decoding the front of `bytes` ends in, or `None` where it succeeds.
    spec fn spec_decode_error(bytes: Seq<u8>) -> Option<DecodeError>;

    /// Decodes a value from the front of `bytes`, with the number of bytes it took.
    fn decode(bytes: &[u8]) -> (r: Result<(Self, usize), DecodeError>)
        ensures
            match r {
                Ok((v, n)) => Self::spec_decode_error(bytes@) is None && Self::spec_decodes(bytes@, v, n as nat)
                    && n <= bytes@.len(),
                Err(e) => Self::spec_decode_error(bytes@) == Some(e),
            },
    ;
}

/// An ordinal that names no variant of the enum being decoded.
#[derive(Debug)]
pub struct BadEnumOrdinal<T>(pub T);

/// A name that names no variant of the enum being decoded.
#[derive(Debug)]
pub struct BadEnumName(pub String);

} // verus!
