//! Runtime support for ASN.1 encoders and decoders generated for the ACN
//! and BER encodings: a bit-level stream, a byte-level stream, and the
//! encoding and decoding primitives that generated code calls.
use vstd::prelude::*;

pub mod bits;
pub mod bitstream;
pub mod octets;
pub mod bytestream;
pub mod ber;
pub mod ber_laws;
pub mod acn_int;
pub mod acn_decimal;
pub mod acn_typed;
pub mod acn_pattern;
pub mod acn_string;
pub mod acn_patch;
pub mod acn_laws;
pub mod ber_real;
pub mod acn_ieee754;
pub mod acn_scaled;

verus! {

/// The unsigned integer type of ASN.1 INTEGER values.
pub type Asn1SccUint = u64;

/// The signed integer type of ASN.1 INTEGER values.
pub type Asn1SccSint = i64;

/// A BER tag, written as its big-endian octets.
pub type BerTag = u64;

/// Number of bytes in the widest integer type.
pub const WORD_SIZE: i32 = 8;

/// Number of bytes in a 16-bit word.
pub const NO_OF_BYTES_IN_INT16: i32 = 2;

/// Number of bytes in a 32-bit word.
pub const NO_OF_BYTES_IN_INT32: i32 = 4;

/// All bits set: the starting value of a sign-extended accumulator.
pub const MAX_INT: u64 = 0xFFFF_FFFF_FFFF_FFFF;

/// Errors reported by the encoders and decoders.
#[derive(Debug, Clone, Copy, PartialEq, Eq, Structural)]
pub enum ErrorCode {
    /// The stream ended before the value, or a tag did not match.
    InsufficientData,
    /// A length field is out of range or inconsistent.
    BerLengthMismatch,
    /// A shared determinant was patched with two different values.
    AcnDetConsistencyMismatch,
}

} // verus!
