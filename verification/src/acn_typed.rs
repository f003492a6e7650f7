//! Decoders that narrow the value of an integer decoder to a smaller
//! integer type, failing when it does not fit.
use vstd::prelude::*;
use crate::bitstream::BitStream;
use crate::acn_int::{
    acn_dec_int_positive_integer_const_size, acn_dec_int_positive_integer_const_size_8, acn_dec_int_positive_integer_const_size_big_endian_16, acn_dec_int_positive_integer_const_size_big_endian_32, acn_dec_int_positive_integer_const_size_big_endian_64, acn_dec_int_positive_integer_const_size_little_endian_16, acn_dec_int_positive_integer_const_size_little_endian_32, acn_dec_int_positive_integer_const_size_little_endian_64, acn_dec_int_positive_integer_var_size_length_embedded, acn_dec_int_twos_complement_const_size, acn_dec_int_twos_complement_const_size_8, acn_dec_int_twos_complement_const_size_big_endian_16, acn_dec_int_twos_complement_const_size_big_endian_32, acn_dec_int_twos_complement_const_size_big_endian_64, acn_dec_int_twos_complement_const_size_little_endian_16, acn_dec_int_twos_complement_const_size_little_endian_32, acn_dec_int_twos_complement_const_size_little_endian_64, acn_dec_int_twos_complement_var_size_length_embedded, spec_dec_sint, spec_dec_sint_field, spec_dec_sint_le, spec_dec_sint_var, spec_dec_uint, spec_dec_uint_field, spec_dec_uint_le, spec_dec_uint_var,
};
use crate::acn_decimal::{
    acn_dec_int_bcd_const_size, acn_dec_int_bcd_var_size_length_embedded, acn_dec_int_bcd_var_size_null_terminated, acn_dec_sint_ascii_const_size, acn_dec_sint_ascii_var_size_length_embedded, acn_dec_sint_ascii_var_size_null_terminated, acn_dec_uint_ascii_const_size, acn_dec_uint_ascii_var_size_length_embedded, acn_dec_uint_ascii_var_size_null_terminated, spec_dec_bcd, spec_dec_bcd_null, spec_dec_bcd_var, spec_dec_sint_ascii, spec_dec_sint_ascii_null, spec_dec_sint_ascii_var, spec_dec_uint_ascii, spec_dec_uint_ascii_null, spec_dec_uint_ascii_var,
};

verus! {

/// Decode a positive integer from a constant-size bit field into a `u8`.
pub fn acn_dec_int_positive_integer_const_size_u8(p_bit_strm: &mut BitStream, encoded_size_in_bits: i32) -> (r: (u8, bool))
    requires
        old(p_bit_strm).wf(),
    ensures
        final(p_bit_strm).decoded_in(
            *old(p_bit_strm),
            r.0 as int,
            r.1,
            spec_dec_uint_field(old(p_bit_strm).bits(), old(p_bit_strm).pos(), encoded_size_in_bits as int),
            0,
            255,
        ),
{
    let (v, ok) = acn_dec_int_positive_integer_const_size(p_bit_strm, encoded_size_in_bits);
    if !ok || v > 255 {
        return (0, false);
    }
    (v as u8, true)
}

/// Decode a positive integer from a constant-size bit field into a `u16`.
pub fn acn_dec_int_positive_integer_const_size_u16(p_bit_strm: &mut BitStream, encoded_size_in_bits: i32) -> (r: (u16, bool))
    requires
        old(p_bit_strm).wf(),
    ensures
        final(p_bit_strm).decoded_in(
            *old(p_bit_strm),
            r.0 as int,
            r.1,
            spec_dec_uint_field(old(p_bit_strm).bits(), old(p_bit_strm).pos(), encoded_size_in_bits as int),
            0,
            65535,
        ),
{
    let (v, ok) = acn_dec_int_positive_integer_const_size(p_bit_strm, encoded_size_in_bits);
    if !ok || v > 65535 {
        return (0, false);
    }
    (v as u16, true)
}

/// Decode a positive integer from a constant-size bit field into a `u32`.
pub fn acn_dec_int_positive_integer_const_size_u32(p_bit_strm: &mut BitStream, encoded_size_in_bits: i32) -> (r: (u32, bool))
    requires
        old(p_bit_strm).wf(),
    ensures
        final(p_bit_strm).decoded_in(
            *old(p_bit_strm),
            r.0 as int,
            r.1,
            spec_dec_uint_field(old(p_bit_strm).bits(), old(p_bit_strm).pos(), encoded_size_in_bits as int),
            0,
            4294967295,
        ),
{
    let (v, ok) = acn_dec_int_positive_integer_const_size(p_bit_strm, encoded_size_in_bits);
    if !ok || v > 4294967295 {
        return (0, false);
    }
    (v as u32, true)
}

/// Decode a positive integer from 8 bits into a `u8`.
pub fn acn_dec_int_positive_integer_const_size_8_u8(p_bit_strm: &mut BitStream) -> (r: (u8, bool))
    requires
        old(p_bit_strm).wf(),
    ensures
        final(p_bit_strm).decoded_in(
            *old(p_bit_strm),
            r.0 as int,
            r.1,
            spec_dec_uint(old(p_bit_strm).bits(), old(p_bit_strm).pos(), 8),
            0,
            255,
        ),
{
    let (v, ok) = acn_dec_int_positive_integer_const_size_8(p_bit_strm);
    if !ok || v > 255 {
        return (0, false);
    }
    (v as u8, true)
}

/// Decode a positive integer from big-endian 16-bit into a `u16`.
pub fn acn_dec_int_positive_integer_const_size_big_endian_16_u16(p_bit_strm: &mut BitStream) -> (r: (u16, bool))
    requires
        old(p_bit_strm).wf(),
    ensures
        final(p_bit_strm).decoded_in(
            *old(p_bit_strm),
            r.0 as int,
            r.1,
            spec_dec_uint(old(p_bit_strm).bits(), old(p_bit_strm).pos(), 16),
            0,
            65535,
        ),
{
    let (v, ok) = acn_dec_int_positive_integer_const_size_big_endian_16(p_bit_strm);
    if !ok || v > 65535 {
        return (0, false);
    }
    (v as u16, true)
}

/// Decode a positive integer from big-endian 16-bit into a `u8`.
pub fn acn_dec_int_positive_integer_const_size_big_endian_16_u8(p_bit_strm: &mut BitStream) -> (r: (u8, bool))
    requires
        old(p_bit_strm).wf(),
    ensures
        final(p_bit_strm).decoded_in(
            *old(p_bit_strm),
            r.0 as int,
            r.1,
            spec_dec_uint(old(p_bit_strm).bits(), old(p_bit_strm).pos(), 16),
            0,
            255,
        ),
{
    let (v, ok) = acn_dec_int_positive_integer_const_size_big_endian_16(p_bit_strm);
    if !ok || v > 255 {
        return (0, false);
    }
    (v as u8, true)
}

/// Decode a positive integer from big-endian 32-bit into a `u32`.
pub fn acn_dec_int_positive_integer_const_size_big_endian_32_u32(p_bit_strm: &mut BitStream) -> (r: (u32, bool))
    requires
        old(p_bit_strm).wf(),
    ensures
        final(p_bit_strm).decoded_in(
            *old(p_bit_strm),
            r.0 as int,
            r.1,
            spec_dec_uint(old(p_bit_strm).bits(), old(p_bit_strm).pos(), 32),
            0,
            4294967295,
        ),
{
    let (v, ok) = acn_dec_int_positive_integer_const_size_big_endian_32(p_bit_strm);
    if !ok || v > 4294967295 {
        return (0, false);
    }
    (v as u32, true)
}

/// Decode a positive integer from big-endian 32-bit into a `u16`.
pub fn acn_dec_int_positive_integer_const_size_big_endian_32_u16(p_bit_strm: &mut BitStream) -> (r: (u16, bool))
    requires
        old(p_bit_strm).wf(),
    ensures
        final(p_bit_strm).decoded_in(
            *old(p_bit_strm),
            r.0 as int,
            r.1,
            spec_dec_uint(old(p_bit_strm).bits(), old(p_bit_strm).pos(), 32),
            0,
            65535,
        ),
{
    let (v, ok) = acn_dec_int_positive_integer_const_size_big_endian_32(p_bit_strm);
    if !ok || v > 65535 {
        return (0, false);
    }
    (v as u16, true)
}

/// Decode a positive integer from big-endian 32-bit into a `u8`.
pub fn acn_dec_int_positive_integer_const_size_big_endian_32_u8(p_bit_strm: &mut BitStream) -> (r: (u8, bool))
    requires
        old(p_bit_strm).wf(),
    ensures
        final(p_bit_strm).decoded_in(
            *old(p_bit_strm),
            r.0 as int,
            r.1,
            spec_dec_uint(old(p_bit_strm).bits(), old(p_bit_strm).pos(), 32),
            0,
            255,
        ),
{
    let (v, ok) = acn_dec_int_positive_integer_const_size_big_endian_32(p_bit_strm);
    if !ok || v > 255 {
        return (0, false);
    }
    (v as u8, true)
}

/// Decode a positive integer from big-endian 64-bit into a `u32`.
pub fn acn_dec_int_positive_integer_const_size_big_endian_64_u32(p_bit_strm: &mut BitStream) -> (r: (u32, bool))
    requires
        old(p_bit_strm).wf(),
    ensures
        final(p_bit_strm).decoded_in(
            *old(p_bit_strm),
            r.0 as int,
            r.1,
            spec_dec_uint(old(p_bit_strm).bits(), old(p_bit_strm).pos(), 64),
            0,
            4294967295,
        ),
{
    let (v, ok) = acn_dec_int_positive_integer_const_size_big_endian_64(p_bit_strm);
    if !ok || v > 4294967295 {
        return (0, false);
    }
    (v as u32, true)
}

/// Decode a positive integer from big-endian 64-bit into a `u16`.
pub fn acn_dec_int_positive_integer_const_size_big_endian_64_u16(p_bit_strm: &mut BitStream) -> (r: (u16, bool))
    requires
        old(p_bit_strm).wf(),
    ensures
        final(p_bit_strm).decoded_in(
            *old(p_bit_strm),
            r.0 as int,
            r.1,
            spec_dec_uint(old(p_bit_strm).bits(), old(p_bit_strm).pos(), 64),
            0,
            65535,
        ),
{
    let (v, ok) = acn_dec_int_positive_integer_const_size_big_endian_64(p_bit_strm);
    if !ok || v > 65535 {
        return (0, false);
    }
    (v as u16, true)
}

/// Decode a positive integer from big-endian 64-bit into a `u8`.
pub fn acn_dec_int_positive_integer_const_size_big_endian_64_u8(p_bit_strm: &mut BitStream) -> (r: (u8, bool))
    requires
        old(p_bit_strm).wf(),
    ensures
        final(p_bit_strm).decoded_in(
            *old(p_bit_strm),
            r.0 as int,
            r.1,
            spec_dec_uint(old(p_bit_strm).bits(), old(p_bit_strm).pos(), 64),
            0,
            255,
        ),
{
    let (v, ok) = acn_dec_int_positive_integer_const_size_big_endian_64(p_bit_strm);
    if !ok || v > 255 {
        return (0, false);
    }
    (v as u8, true)
}

/// Decode a positive integer from little-endian 16-bit into a `u16`.
pub fn acn_dec_int_positive_integer_const_size_little_endian_16_u16(p_bit_strm: &mut BitStream) -> (r: (u16, bool))
    requires
        old(p_bit_strm).wf(),
    ensures
        final(p_bit_strm).decoded_in(
            *old(p_bit_strm),
            r.0 as int,
            r.1,
            spec_dec_uint_le(old(p_bit_strm).bits(), old(p_bit_strm).pos(), 2),
            0,
            65535,
        ),
{
    let (v, ok) = acn_dec_int_positive_integer_const_size_little_endian_16(p_bit_strm);
    if !ok || v > 65535 {
        return (0, false);
    }
    (v as u16, true)
}

/// Decode a positive integer from little-endian 16-bit into a `u8`.
pub fn acn_dec_int_positive_integer_const_size_little_endian_16_u8(p_bit_strm: &mut BitStream) -> (r: (u8, bool))
    requires
        old(p_bit_strm).wf(),
    ensures
        final(p_bit_strm).decoded_in(
            *old(p_bit_strm),
            r.0 as int,
            r.1,
            spec_dec_uint_le(old(p_bit_strm).bits(), old(p_bit_strm).pos(), 2),
            0,
            255,
        ),
{
    let (v, ok) = acn_dec_int_positive_integer_const_size_little_endian_16(p_bit_strm);
    if !ok || v > 255 {
        return (0, false);
    }
    (v as u8, true)
}

/// Decode a positive integer from little-endian 32-bit into a `u32`.
pub fn acn_dec_int_positive_integer_const_size_little_endian_32_u32(p_bit_strm: &mut BitStream) -> (r: (u32, bool))
    requires
        old(p_bit_strm).wf(),
    ensures
        final(p_bit_strm).decoded_in(
            *old(p_bit_strm),
            r.0 as int,
            r.1,
            spec_dec_uint_le(old(p_bit_strm).bits(), old(p_bit_strm).pos(), 4),
            0,
            4294967295,
        ),
{
    let (v, ok) = acn_dec_int_positive_integer_const_size_little_endian_32(p_bit_strm);
    if !ok || v > 4294967295 {
        return (0, false);
    }
    (v as u32, true)
}

/// Decode a positive integer from little-endian 32-bit into a `u16`.
pub fn acn_dec_int_positive_integer_const_size_little_endian_32_u16(p_bit_strm: &mut BitStream) -> (r: (u16, bool))
    requires
        old(p_bit_strm).wf(),
    ensures
        final(p_bit_strm).decoded_in(
            *old(p_bit_strm),
            r.0 as int,
            r.1,
            spec_dec_uint_le(old(p_bit_strm).bits(), old(p_bit_strm).pos(), 4),
            0,
            65535,
        ),
{
    let (v, ok) = acn_dec_int_positive_integer_const_size_little_endian_32(p_bit_strm);
    if !ok || v > 65535 {
        return (0, false);
    }
    (v as u16, true)
}

/// Decode a positive integer from little-endian 32-bit into a `u8`.
pub fn acn_dec_int_positive_integer_const_size_little_endian_32_u8(p_bit_strm: &mut BitStream) -> (r: (u8, bool))
    requires
        old(p_bit_strm).wf(),
    ensures
        final(p_bit_strm).decoded_in(
            *old(p_bit_strm),
            r.0 as int,
            r.1,
            spec_dec_uint_le(old(p_bit_strm).bits(), old(p_bit_strm).pos(), 4),
            0,
            255,
        ),
{
    let (v, ok) = acn_dec_int_positive_integer_const_size_little_endian_32(p_bit_strm);
    if !ok || v > 255 {
        return (0, false);
    }
    (v as u8, true)
}

/// Decode a positive integer from little-endian 64-bit into a `u32`.
pub fn acn_dec_int_positive_integer_const_size_little_endian_64_u32(p_bit_strm: &mut BitStream) -> (r: (u32, bool))
    requires
        old(p_bit_strm).wf(),
    ensures
        final(p_bit_strm).decoded_in(
            *old(p_bit_strm),
            r.0 as int,
            r.1,
            spec_dec_uint_le(old(p_bit_strm).bits(), old(p_bit_strm).pos(), 8),
            0,
            4294967295,
        ),
{
    let (v, ok) = acn_dec_int_positive_integer_const_size_little_endian_64(p_bit_strm);
    if !ok || v > 4294967295 {
        return (0, false);
    }
    (v as u32, true)
}

/// Decode a positive integer from little-endian 64-bit into a `u16`.
pub fn acn_dec_int_positive_integer_const_size_little_endian_64_u16(p_bit_strm: &mut BitStream) -> (r: (u16, bool))
    requires
        old(p_bit_strm).wf(),
    ensures
        final(p_bit_strm).decoded_in(
            *old(p_bit_strm),
            r.0 as int,
            r.1,
            spec_dec_uint_le(old(p_bit_strm).bits(), old(p_bit_strm).pos(), 8),
            0,
            65535,
        ),
{
    let (v, ok) = acn_dec_int_positive_integer_const_size_little_endian_64(p_bit_strm);
    if !ok || v > 65535 {
        return (0, false);
    }
    (v as u16, true)
}

/// Decode a positive integer from little-endian 64-bit into a `u8`.
pub fn acn_dec_int_positive_integer_const_size_little_endian_64_u8(p_bit_strm: &mut BitStream) -> (r: (u8, bool))
    requires
        old(p_bit_strm).wf(),
    ensures
        final(p_bit_strm).decoded_in(
            *old(p_bit_strm),
            r.0 as int,
            r.1,
            spec_dec_uint_le(old(p_bit_strm).bits(), old(p_bit_strm).pos(), 8),
            0,
            255,
        ),
{
    let (v, ok) = acn_dec_int_positive_integer_const_size_little_endian_64(p_bit_strm);
    if !ok || v > 255 {
        return (0, false);
    }
    (v as u8, true)
}

/// Decode a positive integer (var-size length-embedded) into a `u8`.
pub fn acn_dec_int_positive_integer_var_size_length_embedded_u8(p_bit_strm: &mut BitStream) -> (r: (u8, bool))
    requires
        old(p_bit_strm).wf(),
    ensures
        final(p_bit_strm).decoded_in(
            *old(p_bit_strm),
            r.0 as int,
            r.1,
            spec_dec_uint_var(old(p_bit_strm).bits(), old(p_bit_strm).pos()),
            0,
            255,
        ),
{
    let (v, ok) = acn_dec_int_positive_integer_var_size_length_embedded(p_bit_strm);
    if !ok || v > 255 {
        return (0, false);
    }
    (v as u8, true)
}

/// Decode a positive integer (var-size length-embedded) into a `u16`.
pub fn acn_dec_int_positive_integer_var_size_length_embedded_u16(p_bit_strm: &mut BitStream) -> (r: (u16, bool))
    requires
        old(p_bit_strm).wf(),
    ensures
        final(p_bit_strm).decoded_in(
            *old(p_bit_strm),
            r.0 as int,
            r.1,
            spec_dec_uint_var(old(p_bit_strm).bits(), old(p_bit_strm).pos()),
            0,
            65535,
        ),
{
    let (v, ok) = acn_dec_int_positive_integer_var_size_length_embedded(p_bit_strm);
    if !ok || v > 65535 {
        return (0, false);
    }
    (v as u16, true)
}

/// Decode a positive integer (var-size length-embedded) into a `u32`.
pub fn acn_dec_int_positive_integer_var_size_length_embedded_u32(p_bit_strm: &mut BitStream) -> (r: (u32, bool))
    requires
        old(p_bit_strm).wf(),
    ensures
        final(p_bit_strm).decoded_in(
            *old(p_bit_strm),
            r.0 as int,
            r.1,
            spec_dec_uint_var(old(p_bit_strm).bits(), old(p_bit_strm).pos()),
            0,
            4294967295,
        ),
{
    let (v, ok) = acn_dec_int_positive_integer_var_size_length_embedded(p_bit_strm);
    if !ok || v > 4294967295 {
        return (0, false);
    }
    (v as u32, true)
}

/// Decode a signed integer from a two's complement constant-size bit field into an `i8`.
pub fn acn_dec_int_twos_complement_const_size_i8(p_bit_strm: &mut BitStream, encoded_size_in_bits: i32) -> (r: (i8, bool))
    requires
        old(p_bit_strm).wf(),
    ensures
        final(p_bit_strm).decoded_in(
            *old(p_bit_strm),
            r.0 as int,
            r.1,
            spec_dec_sint_field(old(p_bit_strm).bits(), old(p_bit_strm).pos(), encoded_size_in_bits as int),
            -128,
            127,
        ),
{
    let (v, ok) = acn_dec_int_twos_complement_const_size(p_bit_strm, encoded_size_in_bits);
    if !ok || v > 127 || v < -128 {
        return (0, false);
    }
    (v as i8, true)
}

/// Decode a signed integer from a two's complement constant-size bit field into an `i16`.
pub fn acn_dec_int_twos_complement_const_size_i16(p_bit_strm: &mut BitStream, encoded_size_in_bits: i32) -> (r: (i16, bool))
    requires
        old(p_bit_strm).wf(),
    ensures
        final(p_bit_strm).decoded_in(
            *old(p_bit_strm),
            r.0 as int,
            r.1,
            spec_dec_sint_field(old(p_bit_strm).bits(), old(p_bit_strm).pos(), encoded_size_in_bits as int),
            -32768,
            32767,
        ),
{
    let (v, ok) = acn_dec_int_twos_complement_const_size(p_bit_strm, encoded_size_in_bits);
    if !ok || v > 32767 || v < -32768 {
        return (0, false);
    }
    (v as i16, true)
}

/// Decode a signed integer from a two's complement constant-size bit field into an `i32`.
pub fn acn_dec_int_twos_complement_const_size_i32(p_bit_strm: &mut BitStream, encoded_size_in_bits: i32) -> (r: (i32, bool))
    requires
        old(p_bit_strm).wf(),
    ensures
        final(p_bit_strm).decoded_in(
            *old(p_bit_strm),
            r.0 as int,
            r.1,
            spec_dec_sint_field(old(p_bit_strm).bits(), old(p_bit_strm).pos(), encoded_size_in_bits as int),
            -2147483648,
            2147483647,
        ),
{
    let (v, ok) = acn_dec_int_twos_complement_const_size(p_bit_strm, encoded_size_in_bits);
    if !ok || v > 2147483647 || v < -2147483648 {
        return (0, false);
    }
    (v as i32, true)
}

/// Decode a signed integer from 8 bits into an `i8`.
pub fn acn_dec_int_twos_complement_const_size_8_i8(p_bit_strm: &mut BitStream) -> (r: (i8, bool))
    requires
        old(p_bit_strm).wf(),
    ensures
        final(p_bit_strm).decoded_in(
            *old(p_bit_strm),
            r.0 as int,
            r.1,
            spec_dec_sint(old(p_bit_strm).bits(), old(p_bit_strm).pos(), 8),
            -128,
            127,
        ),
{
    let (v, ok) = acn_dec_int_twos_complement_const_size_8(p_bit_strm);
    if !ok || v > 127 || v < -128 {
        return (0, false);
    }
    (v as i8, true)
}

/// Decode a signed integer from big-endian 16-bit into an `i16`.
pub fn acn_dec_int_twos_complement_const_size_big_endian_16_i16(p_bit_strm: &mut BitStream) -> (r: (i16, bool))
    requires
        old(p_bit_strm).wf(),
    ensures
        final(p_bit_strm).decoded_in(
            *old(p_bit_strm),
            r.0 as int,
            r.1,
            spec_dec_sint(old(p_bit_strm).bits(), old(p_bit_strm).pos(), 16),
            -32768,
            32767,
        ),
{
    let (v, ok) = acn_dec_int_twos_complement_const_size_big_endian_16(p_bit_strm);
    if !ok || v > 32767 || v < -32768 {
        return (0, false);
    }
    (v as i16, true)
}

/// Decode a signed integer from big-endian 16-bit into an `i8`.
pub fn acn_dec_int_twos_complement_const_size_big_endian_16_i8(p_bit_strm: &mut BitStream) -> (r: (i8, bool))
    requires
        old(p_bit_strm).wf(),
    ensures
        final(p_bit_strm).decoded_in(
            *old(p_bit_strm),
            r.0 as int,
            r.1,
            spec_dec_sint(old(p_bit_strm).bits(), old(p_bit_strm).pos(), 16),
            -128,
            127,
        ),
{
    let (v, ok) = acn_dec_int_twos_complement_const_size_big_endian_16(p_bit_strm);
    if !ok || v > 127 || v < -128 {
        return (0, false);
    }
    (v as i8, true)
}

/// Decode a signed integer from big-endian 32-bit into an `i32`.
pub fn acn_dec_int_twos_complement_const_size_big_endian_32_i32(p_bit_strm: &mut BitStream) -> (r: (i32, bool))
    requires
        old(p_bit_strm).wf(),
    ensures
        final(p_bit_strm).decoded_in(
            *old(p_bit_strm),
            r.0 as int,
            r.1,
            spec_dec_sint(old(p_bit_strm).bits(), old(p_bit_strm).pos(), 32),
            -2147483648,
            2147483647,
        ),
{
    let (v, ok) = acn_dec_int_twos_complement_const_size_big_endian_32(p_bit_strm);
    if !ok || v > 2147483647 || v < -2147483648 {
        return (0, false);
    }
    (v as i32, true)
}

/// Decode a signed integer from big-endian 32-bit into an `i16`.
pub fn acn_dec_int_twos_complement_const_size_big_endian_32_i16(p_bit_strm: &mut BitStream) -> (r: (i16, bool))
    requires
        old(p_bit_strm).wf(),
    ensures
        final(p_bit_strm).decoded_in(
            *old(p_bit_strm),
            r.0 as int,
            r.1,
            spec_dec_sint(old(p_bit_strm).bits(), old(p_bit_strm).pos(), 32),
            -32768,
            32767,
        ),
{
    let (v, ok) = acn_dec_int_twos_complement_const_size_big_endian_32(p_bit_strm);
    if !ok || v > 32767 || v < -32768 {
        return (0, false);
    }
    (v as i16, true)
}

/// Decode a signed integer from big-endian 32-bit into an `i8`.
pub fn acn_dec_int_twos_complement_const_size_big_endian_32_i8(p_bit_strm: &mut BitStream) -> (r: (i8, bool))
    requires
        old(p_bit_strm).wf(),
    ensures
        final(p_bit_strm).decoded_in(
            *old(p_bit_strm),
            r.0 as int,
            r.1,
            spec_dec_sint(old(p_bit_strm).bits(), old(p_bit_strm).pos(), 32),
            -128,
            127,
        ),
{
    let (v, ok) = acn_dec_int_twos_complement_const_size_big_endian_32(p_bit_strm);
    if !ok || v > 127 || v < -128 {
        return (0, false);
    }
    (v as i8, true)
}

/// Decode a signed integer from big-endian 64-bit into an `i32`.
pub fn acn_dec_int_twos_complement_const_size_big_endian_64_i32(p_bit_strm: &mut BitStream) -> (r: (i32, bool))
    requires
        old(p_bit_strm).wf(),
    ensures
        final(p_bit_strm).decoded_in(
            *old(p_bit_strm),
            r.0 as int,
            r.1,
            spec_dec_sint(old(p_bit_strm).bits(), old(p_bit_strm).pos(), 64),
            -2147483648,
            2147483647,
        ),
{
    let (v, ok) = acn_dec_int_twos_complement_const_size_big_endian_64(p_bit_strm);
    if !ok || v > 2147483647 || v < -2147483648 {
        return (0, false);
    }
    (v as i32, true)
}

/// Decode a signed integer from big-endian 64-bit into an `i16`.
pub fn acn_dec_int_twos_complement_const_size_big_endian_64_i16(p_bit_strm: &mut BitStream) -> (r: (i16, bool))
    requires
        old(p_bit_strm).wf(),
    ensures
        final(p_bit_strm).decoded_in(
            *old(p_bit_strm),
            r.0 as int,
            r.1,
            spec_dec_sint(old(p_bit_strm).bits(), old(p_bit_strm).pos(), 64),
            -32768,
            32767,
        ),
{
    let (v, ok) = acn_dec_int_twos_complement_const_size_big_endian_64(p_bit_strm);
    if !ok || v > 32767 || v < -32768 {
        return (0, false);
    }
    (v as i16, true)
}

/// Decode a signed integer from big-endian 64-bit into an `i8`.
pub fn acn_dec_int_twos_complement_const_size_big_endian_64_i8(p_bit_strm: &mut BitStream) -> (r: (i8, bool))
    requires
        old(p_bit_strm).wf(),
    ensures
        final(p_bit_strm).decoded_in(
            *old(p_bit_strm),
            r.0 as int,
            r.1,
            spec_dec_sint(old(p_bit_strm).bits(), old(p_bit_strm).pos(), 64),
            -128,
            127,
        ),
{
    let (v, ok) = acn_dec_int_twos_complement_const_size_big_endian_64(p_bit_strm);
    if !ok || v > 127 || v < -128 {
        return (0, false);
    }
    (v as i8, true)
}

/// Decode a signed integer from little-endian 16-bit into an `i16`.
pub fn acn_dec_int_twos_complement_const_size_little_endian_16_i16(p_bit_strm: &mut BitStream) -> (r: (i16, bool))
    requires
        old(p_bit_strm).wf(),
    ensures
        final(p_bit_strm).decoded_in(
            *old(p_bit_strm),
            r.0 as int,
            r.1,
            spec_dec_sint_le(old(p_bit_strm).bits(), old(p_bit_strm).pos(), 2),
            -32768,
            32767,
        ),
{
    let (v, ok) = acn_dec_int_twos_complement_const_size_little_endian_16(p_bit_strm);
    if !ok || v > 32767 || v < -32768 {
        return (0, false);
    }
    (v as i16, true)
}

/// Decode a signed integer from little-endian 16-bit into an `i8`.
pub fn acn_dec_int_twos_complement_const_size_little_endian_16_i8(p_bit_strm: &mut BitStream) -> (r: (i8, bool))
    requires
        old(p_bit_strm).wf(),
    ensures
        final(p_bit_strm).decoded_in(
            *old(p_bit_strm),
            r.0 as int,
            r.1,
            spec_dec_sint_le(old(p_bit_strm).bits(), old(p_bit_strm).pos(), 2),
            -128,
            127,
        ),
{
    let (v, ok) = acn_dec_int_twos_complement_const_size_little_endian_16(p_bit_strm);
    if !ok || v > 127 || v < -128 {
        return (0, false);
    }
    (v as i8, true)
}

/// Decode a signed integer from little-endian 32-bit into an `i32`.
pub fn acn_dec_int_twos_complement_const_size_little_endian_32_i32(p_bit_strm: &mut BitStream) -> (r: (i32, bool))
    requires
        old(p_bit_strm).wf(),
    ensures
        final(p_bit_strm).decoded_in(
            *old(p_bit_strm),
            r.0 as int,
            r.1,
            spec_dec_sint_le(old(p_bit_strm).bits(), old(p_bit_strm).pos(), 4),
            -2147483648,
            2147483647,
        ),
{
    let (v, ok) = acn_dec_int_twos_complement_const_size_little_endian_32(p_bit_strm);
    if !ok || v > 2147483647 || v < -2147483648 {
        return (0, false);
    }
    (v as i32, true)
}

/// Decode a signed integer from little-endian 32-bit into an `i16`.
pub fn acn_dec_int_twos_complement_const_size_little_endian_32_i16(p_bit_strm: &mut BitStream) -> (r: (i16, bool))
    requires
        old(p_bit_strm).wf(),
    ensures
        final(p_bit_strm).decoded_in(
            *old(p_bit_strm),
            r.0 as int,
            r.1,
            spec_dec_sint_le(old(p_bit_strm).bits(), old(p_bit_strm).pos(), 4),
            -32768,
            32767,
        ),
{
    let (v, ok) = acn_dec_int_twos_complement_const_size_little_endian_32(p_bit_strm);
    if !ok || v > 32767 || v < -32768 {
        return (0, false);
    }
    (v as i16, true)
}

/// Decode a signed integer from little-endian 32-bit into an `i8`.
pub fn acn_dec_int_twos_complement_const_size_little_endian_32_i8(p_bit_strm: &mut BitStream) -> (r: (i8, bool))
    requires
        old(p_bit_strm).wf(),
    ensures
        final(p_bit_strm).decoded_in(
            *old(p_bit_strm),
            r.0 as int,
            r.1,
            spec_dec_sint_le(old(p_bit_strm).bits(), old(p_bit_strm).pos(), 4),
            -128,
            127,
        ),
{
    let (v, ok) = acn_dec_int_twos_complement_const_size_little_endian_32(p_bit_strm);
    if !ok || v > 127 || v < -128 {
        return (0, false);
    }
    (v as i8, true)
}

/// Decode a signed integer from little-endian 64-bit into an `i32`.
pub fn acn_dec_int_twos_complement_const_size_little_endian_64_i32(p_bit_strm: &mut BitStream) -> (r: (i32, bool))
    requires
        old(p_bit_strm).wf(),
    ensures
        final(p_bit_strm).decoded_in(
            *old(p_bit_strm),
            r.0 as int,
            r.1,
            spec_dec_sint_le(old(p_bit_strm).bits(), old(p_bit_strm).pos(), 8),
            -2147483648,
            2147483647,
        ),
{
    let (v, ok) = acn_dec_int_twos_complement_const_size_little_endian_64(p_bit_strm);
    if !ok || v > 2147483647 || v < -2147483648 {
        return (0, false);
    }
    (v as i32, true)
}

/// Decode a signed integer from little-endian 64-bit into an `i16`.
pub fn acn_dec_int_twos_complement_const_size_little_endian_64_i16(p_bit_strm: &mut BitStream) -> (r: (i16, bool))
    requires
        old(p_bit_strm).wf(),
    ensures
        final(p_bit_strm).decoded_in(
            *old(p_bit_strm),
            r.0 as int,
            r.1,
            spec_dec_sint_le(old(p_bit_strm).bits(), old(p_bit_strm).pos(), 8),
            -32768,
            32767,
        ),
{
    let (v, ok) = acn_dec_int_twos_complement_const_size_little_endian_64(p_bit_strm);
    if !ok || v > 32767 || v < -32768 {
        return (0, false);
    }
    (v as i16, true)
}

/// Decode a signed integer from little-endian 64-bit into an `i8`.
pub fn acn_dec_int_twos_complement_const_size_little_endian_64_i8(p_bit_strm: &mut BitStream) -> (r: (i8, bool))
    requires
        old(p_bit_strm).wf(),
    ensures
        final(p_bit_strm).decoded_in(
            *old(p_bit_strm),
            r.0 as int,
            r.1,
            spec_dec_sint_le(old(p_bit_strm).bits(), old(p_bit_strm).pos(), 8),
            -128,
            127,
        ),
{
    let (v, ok) = acn_dec_int_twos_complement_const_size_little_endian_64(p_bit_strm);
    if !ok || v > 127 || v < -128 {
        return (0, false);
    }
    (v as i8, true)
}

/// Decode a signed integer (var-size length-embedded) into an `i8`.
pub fn acn_dec_int_twos_complement_var_size_length_embedded_i8(p_bit_strm: &mut BitStream) -> (r: (i8, bool))
    requires
        old(p_bit_strm).wf(),
    ensures
        final(p_bit_strm).decoded_in(
            *old(p_bit_strm),
            r.0 as int,
            r.1,
            spec_dec_sint_var(old(p_bit_strm).bits(), old(p_bit_strm).pos()),
            -128,
            127,
        ),
{
    let (v, ok) = acn_dec_int_twos_complement_var_size_length_embedded(p_bit_strm);
    if !ok || v > 127 || v < -128 {
        return (0, false);
    }
    (v as i8, true)
}

/// Decode a signed integer (var-size length-embedded) into an `i16`.
pub fn acn_dec_int_twos_complement_var_size_length_embedded_i16(p_bit_strm: &mut BitStream) -> (r: (i16, bool))
    requires
        old(p_bit_strm).wf(),
    ensures
        final(p_bit_strm).decoded_in(
            *old(p_bit_strm),
            r.0 as int,
            r.1,
            spec_dec_sint_var(old(p_bit_strm).bits(), old(p_bit_strm).pos()),
            -32768,
            32767,
        ),
{
    let (v, ok) = acn_dec_int_twos_complement_var_size_length_embedded(p_bit_strm);
    if !ok || v > 32767 || v < -32768 {
        return (0, false);
    }
    (v as i16, true)
}

/// Decode a signed integer (var-size length-embedded) into an `i32`.
pub fn acn_dec_int_twos_complement_var_size_length_embedded_i32(p_bit_strm: &mut BitStream) -> (r: (i32, bool))
    requires
        old(p_bit_strm).wf(),
    ensures
        final(p_bit_strm).decoded_in(
            *old(p_bit_strm),
            r.0 as int,
            r.1,
            spec_dec_sint_var(old(p_bit_strm).bits(), old(p_bit_strm).pos()),
            -2147483648,
            2147483647,
        ),
{
    let (v, ok) = acn_dec_int_twos_complement_var_size_length_embedded(p_bit_strm);
    if !ok || v > 2147483647 || v < -2147483648 {
        return (0, false);
    }
    (v as i32, true)
}

/// Decode a BCD integer (const size) into a `u8`.
pub fn acn_dec_int_bcd_const_size_u8(p_bit_strm: &mut BitStream, encoded_size_in_nibbles: i32) -> (r: (u8, bool))
    requires
        old(p_bit_strm).wf(),
    ensures
        final(p_bit_strm).decoded_in(
            *old(p_bit_strm),
            r.0 as int,
            r.1,
            spec_dec_bcd(old(p_bit_strm).bits(), old(p_bit_strm).pos(), encoded_size_in_nibbles as int),
            0,
            255,
        ),
{
    let (v, ok) = acn_dec_int_bcd_const_size(p_bit_strm, encoded_size_in_nibbles);
    if !ok || v > 255 {
        return (0, false);
    }
    (v as u8, true)
}

/// Decode a BCD integer (const size) into a `u16`.
pub fn acn_dec_int_bcd_const_size_u16(p_bit_strm: &mut BitStream, encoded_size_in_nibbles: i32) -> (r: (u16, bool))
    requires
        old(p_bit_strm).wf(),
    ensures
        final(p_bit_strm).decoded_in(
            *old(p_bit_strm),
            r.0 as int,
            r.1,
            spec_dec_bcd(old(p_bit_strm).bits(), old(p_bit_strm).pos(), encoded_size_in_nibbles as int),
            0,
            65535,
        ),
{
    let (v, ok) = acn_dec_int_bcd_const_size(p_bit_strm, encoded_size_in_nibbles);
    if !ok || v > 65535 {
        return (0, false);
    }
    (v as u16, true)
}

/// Decode a BCD integer (const size) into a `u32`.
pub fn acn_dec_int_bcd_const_size_u32(p_bit_strm: &mut BitStream, encoded_size_in_nibbles: i32) -> (r: (u32, bool))
    requires
        old(p_bit_strm).wf(),
    ensures
        final(p_bit_strm).decoded_in(
            *old(p_bit_strm),
            r.0 as int,
            r.1,
            spec_dec_bcd(old(p_bit_strm).bits(), old(p_bit_strm).pos(), encoded_size_in_nibbles as int),
            0,
            4294967295,
        ),
{
    let (v, ok) = acn_dec_int_bcd_const_size(p_bit_strm, encoded_size_in_nibbles);
    if !ok || v > 4294967295 {
        return (0, false);
    }
    (v as u32, true)
}

/// Decode a BCD integer (var-size length-embedded) into a `u8`.
pub fn acn_dec_int_bcd_var_size_length_embedded_u8(p_bit_strm: &mut BitStream) -> (r: (u8, bool))
    requires
        old(p_bit_strm).wf(),
    ensures
        final(p_bit_strm).decoded_in(
            *old(p_bit_strm),
            r.0 as int,
            r.1,
            spec_dec_bcd_var(old(p_bit_strm).bits(), old(p_bit_strm).pos()),
            0,
            255,
        ),
{
    let (v, ok) = acn_dec_int_bcd_var_size_length_embedded(p_bit_strm);
    if !ok || v > 255 {
        return (0, false);
    }
    (v as u8, true)
}

/// Decode a BCD integer (var-size length-embedded) into a `u16`.
pub fn acn_dec_int_bcd_var_size_length_embedded_u16(p_bit_strm: &mut BitStream) -> (r: (u16, bool))
    requires
        old(p_bit_strm).wf(),
    ensures
        final(p_bit_strm).decoded_in(
            *old(p_bit_strm),
            r.0 as int,
            r.1,
            spec_dec_bcd_var(old(p_bit_strm).bits(), old(p_bit_strm).pos()),
            0,
            65535,
        ),
{
    let (v, ok) = acn_dec_int_bcd_var_size_length_embedded(p_bit_strm);
    if !ok || v > 65535 {
        return (0, false);
    }
    (v as u16, true)
}

/// Decode a BCD integer (var-size length-embedded) into a `u32`.
pub fn acn_dec_int_bcd_var_size_length_embedded_u32(p_bit_strm: &mut BitStream) -> (r: (u32, bool))
    requires
        old(p_bit_strm).wf(),
    ensures
        final(p_bit_strm).decoded_in(
            *old(p_bit_strm),
            r.0 as int,
            r.1,
            spec_dec_bcd_var(old(p_bit_strm).bits(), old(p_bit_strm).pos()),
            0,
            4294967295,
        ),
{
    let (v, ok) = acn_dec_int_bcd_var_size_length_embedded(p_bit_strm);
    if !ok || v > 4294967295 {
        return (0, false);
    }
    (v as u32, true)
}

/// Decode a BCD integer (var-size null-terminated) into a `u8`.
pub fn acn_dec_int_bcd_var_size_null_terminated_u8(p_bit_strm: &mut BitStream) -> (r: (u8, bool))
    requires
        old(p_bit_strm).wf(),
    ensures
        final(p_bit_strm).decoded_in(
            *old(p_bit_strm),
            r.0 as int,
            r.1,
            spec_dec_bcd_null(old(p_bit_strm).bits(), old(p_bit_strm).pos()),
            0,
            255,
        ),
{
    let (v, ok) = acn_dec_int_bcd_var_size_null_terminated(p_bit_strm);
    if !ok || v > 255 {
        return (0, false);
    }
    (v as u8, true)
}

/// Decode a BCD integer (var-size null-terminated) into a `u16`.
pub fn acn_dec_int_bcd_var_size_null_terminated_u16(p_bit_strm: &mut BitStream) -> (r: (u16, bool))
    requires
        old(p_bit_strm).wf(),
    ensures
        final(p_bit_strm).decoded_in(
            *old(p_bit_strm),
            r.0 as int,
            r.1,
            spec_dec_bcd_null(old(p_bit_strm).bits(), old(p_bit_strm).pos()),
            0,
            65535,
        ),
{
    let (v, ok) = acn_dec_int_bcd_var_size_null_terminated(p_bit_strm);
    if !ok || v > 65535 {
        return (0, false);
    }
    (v as u16, true)
}

/// Decode a BCD integer (var-size null-terminated) into a `u32`.
pub fn acn_dec_int_bcd_var_size_null_terminated_u32(p_bit_strm: &mut BitStream) -> (r: (u32, bool))
    requires
        old(p_bit_strm).wf(),
    ensures
        final(p_bit_strm).decoded_in(
            *old(p_bit_strm),
            r.0 as int,
            r.1,
            spec_dec_bcd_null(old(p_bit_strm).bits(), old(p_bit_strm).pos()),
            0,
            4294967295,
        ),
{
    let (v, ok) = acn_dec_int_bcd_var_size_null_terminated(p_bit_strm);
    if !ok || v > 4294967295 {
        return (0, false);
    }
    (v as u32, true)
}

/// Decode a signed ASCII integer (const size) into an `i8`.
pub fn acn_dec_sint_ascii_const_size_i8(p_bit_strm: &mut BitStream, encoded_size_in_bytes: i32) -> (r: (i8, bool))
    requires
        old(p_bit_strm).wf(),
        encoded_size_in_bytes > i32::MIN,
    ensures
        final(p_bit_strm).decoded_in(
            *old(p_bit_strm),
            r.0 as int,
            r.1,
            spec_dec_sint_ascii(old(p_bit_strm).bits(), old(p_bit_strm).pos(), encoded_size_in_bytes as int),
            -128,
            127,
        ),
{
    let (v, ok) = acn_dec_sint_ascii_const_size(p_bit_strm, encoded_size_in_bytes);
    if !ok || v > 127 || v < -128 {
        return (0, false);
    }
    (v as i8, true)
}

/// Decode a signed ASCII integer (const size) into an `i16`.
pub fn acn_dec_sint_ascii_const_size_i16(p_bit_strm: &mut BitStream, encoded_size_in_bytes: i32) -> (r: (i16, bool))
    requires
        old(p_bit_strm).wf(),
        encoded_size_in_bytes > i32::MIN,
    ensures
        final(p_bit_strm).decoded_in(
            *old(p_bit_strm),
            r.0 as int,
            r.1,
            spec_dec_sint_ascii(old(p_bit_strm).bits(), old(p_bit_strm).pos(), encoded_size_in_bytes as int),
            -32768,
            32767,
        ),
{
    let (v, ok) = acn_dec_sint_ascii_const_size(p_bit_strm, encoded_size_in_bytes);
    if !ok || v > 32767 || v < -32768 {
        return (0, false);
    }
    (v as i16, true)
}

/// Decode a signed ASCII integer (const size) into an `i32`.
pub fn acn_dec_sint_ascii_const_size_i32(p_bit_strm: &mut BitStream, encoded_size_in_bytes: i32) -> (r: (i32, bool))
    requires
        old(p_bit_strm).wf(),
        encoded_size_in_bytes > i32::MIN,
    ensures
        final(p_bit_strm).decoded_in(
            *old(p_bit_strm),
            r.0 as int,
            r.1,
            spec_dec_sint_ascii(old(p_bit_strm).bits(), old(p_bit_strm).pos(), encoded_size_in_bytes as int),
            -2147483648,
            2147483647,
        ),
{
    let (v, ok) = acn_dec_sint_ascii_const_size(p_bit_strm, encoded_size_in_bytes);
    if !ok || v > 2147483647 || v < -2147483648 {
        return (0, false);
    }
    (v as i32, true)
}

/// Decode a signed ASCII integer (var-size length-embedded) into an `i8`.
pub fn acn_dec_sint_ascii_var_size_length_embedded_i8(p_bit_strm: &mut BitStream) -> (r: (i8, bool))
    requires
        old(p_bit_strm).wf(),
    ensures
        final(p_bit_strm).decoded_in(
            *old(p_bit_strm),
            r.0 as int,
            r.1,
            spec_dec_sint_ascii_var(old(p_bit_strm).bits(), old(p_bit_strm).pos()),
            -128,
            127,
        ),
{
    let (v, ok) = acn_dec_sint_ascii_var_size_length_embedded(p_bit_strm);
    if !ok || v > 127 || v < -128 {
        return (0, false);
    }
    (v as i8, true)
}

/// Decode a signed ASCII integer (var-size length-embedded) into an `i16`.
pub fn acn_dec_sint_ascii_var_size_length_embedded_i16(p_bit_strm: &mut BitStream) -> (r: (i16, bool))
    requires
        old(p_bit_strm).wf(),
    ensures
        final(p_bit_strm).decoded_in(
            *old(p_bit_strm),
            r.0 as int,
            r.1,
            spec_dec_sint_ascii_var(old(p_bit_strm).bits(), old(p_bit_strm).pos()),
            -32768,
            32767,
        ),
{
    let (v, ok) = acn_dec_sint_ascii_var_size_length_embedded(p_bit_strm);
    if !ok || v > 32767 || v < -32768 {
        return (0, false);
    }
    (v as i16, true)
}

/// Decode a signed ASCII integer (var-size length-embedded) into an `i32`.
pub fn acn_dec_sint_ascii_var_size_length_embedded_i32(p_bit_strm: &mut BitStream) -> (r: (i32, bool))
    requires
        old(p_bit_strm).wf(),
    ensures
        final(p_bit_strm).decoded_in(
            *old(p_bit_strm),
            r.0 as int,
            r.1,
            spec_dec_sint_ascii_var(old(p_bit_strm).bits(), old(p_bit_strm).pos()),
            -2147483648,
            2147483647,
        ),
{
    let (v, ok) = acn_dec_sint_ascii_var_size_length_embedded(p_bit_strm);
    if !ok || v > 2147483647 || v < -2147483648 {
        return (0, false);
    }
    (v as i32, true)
}

/// Decode a signed ASCII integer (var-size null-terminated) into an `i8`.
pub fn acn_dec_sint_ascii_var_size_null_terminated_i8(p_bit_strm: &mut BitStream, null_characters: &[u8]) -> (r: (i8, bool))
    requires
        old(p_bit_strm).wf(),
    ensures
        final(p_bit_strm).decoded_in(
            *old(p_bit_strm),
            r.0 as int,
            r.1,
            spec_dec_sint_ascii_null(old(p_bit_strm).bits(), old(p_bit_strm).pos(), null_characters@),
            -128,
            127,
        ),
{
    let (v, ok) = acn_dec_sint_ascii_var_size_null_terminated(p_bit_strm, null_characters);
    if !ok || v > 127 || v < -128 {
        return (0, false);
    }
    (v as i8, true)
}

/// Decode a signed ASCII integer (var-size null-terminated) into an `i16`.
pub fn acn_dec_sint_ascii_var_size_null_terminated_i16(p_bit_strm: &mut BitStream, null_characters: &[u8]) -> (r: (i16, bool))
    requires
        old(p_bit_strm).wf(),
    ensures
        final(p_bit_strm).decoded_in(
            *old(p_bit_strm),
            r.0 as int,
            r.1,
            spec_dec_sint_ascii_null(old(p_bit_strm).bits(), old(p_bit_strm).pos(), null_characters@),
            -32768,
            32767,
        ),
{
    let (v, ok) = acn_dec_sint_ascii_var_size_null_terminated(p_bit_strm, null_characters);
    if !ok || v > 32767 || v < -32768 {
        return (0, false);
    }
    (v as i16, true)
}

/// Decode a signed ASCII integer (var-size null-terminated) into an `i32`.
pub fn acn_dec_sint_ascii_var_size_null_terminated_i32(p_bit_strm: &mut BitStream, null_characters: &[u8]) -> (r: (i32, bool))
    requires
        old(p_bit_strm).wf(),
    ensures
        final(p_bit_strm).decoded_in(
            *old(p_bit_strm),
            r.0 as int,
            r.1,
            spec_dec_sint_ascii_null(old(p_bit_strm).bits(), old(p_bit_strm).pos(), null_characters@),
            -2147483648,
            2147483647,
        ),
{
    let (v, ok) = acn_dec_sint_ascii_var_size_null_terminated(p_bit_strm, null_characters);
    if !ok || v > 2147483647 || v < -2147483648 {
        return (0, false);
    }
    (v as i32, true)
}

/// Decode an unsigned ASCII integer (const size) into a `u8`.
pub fn acn_dec_uint_ascii_const_size_u8(p_bit_strm: &mut BitStream, encoded_size_in_bytes: i32) -> (r: (u8, bool))
    requires
        old(p_bit_strm).wf(),
    ensures
        final(p_bit_strm).decoded_in(
            *old(p_bit_strm),
            r.0 as int,
            r.1,
            spec_dec_uint_ascii(old(p_bit_strm).bits(), old(p_bit_strm).pos(), encoded_size_in_bytes as int),
            0,
            255,
        ),
{
    let (v, ok) = acn_dec_uint_ascii_const_size(p_bit_strm, encoded_size_in_bytes);
    if !ok || v > 255 {
        return (0, false);
    }
    (v as u8, true)
}

/// Decode an unsigned ASCII integer (const size) into a `u16`.
pub fn acn_dec_uint_ascii_const_size_u16(p_bit_strm: &mut BitStream, encoded_size_in_bytes: i32) -> (r: (u16, bool))
    requires
        old(p_bit_strm).wf(),
    ensures
        final(p_bit_strm).decoded_in(
            *old(p_bit_strm),
            r.0 as int,
            r.1,
            spec_dec_uint_ascii(old(p_bit_strm).bits(), old(p_bit_strm).pos(), encoded_size_in_bytes as int),
            0,
            65535,
        ),
{
    let (v, ok) = acn_dec_uint_ascii_const_size(p_bit_strm, encoded_size_in_bytes);
    if !ok || v > 65535 {
        return (0, false);
    }
    (v as u16, true)
}

/// Decode an unsigned ASCII integer (const size) into a `u32`.
pub fn acn_dec_uint_ascii_const_size_u32(p_bit_strm: &mut BitStream, encoded_size_in_bytes: i32) -> (r: (u32, bool))
    requires
        old(p_bit_strm).wf(),
    ensures
        final(p_bit_strm).decoded_in(
            *old(p_bit_strm),
            r.0 as int,
            r.1,
            spec_dec_uint_ascii(old(p_bit_strm).bits(), old(p_bit_strm).pos(), encoded_size_in_bytes as int),
            0,
            4294967295,
        ),
{
    let (v, ok) = acn_dec_uint_ascii_const_size(p_bit_strm, encoded_size_in_bytes);
    if !ok || v > 4294967295 {
        return (0, false);
    }
    (v as u32, true)
}

/// Decode an unsigned ASCII integer (var-size length-embedded) into a `u8`.
pub fn acn_dec_uint_ascii_var_size_length_embedded_u8(p_bit_strm: &mut BitStream) -> (r: (u8, bool))
    requires
        old(p_bit_strm).wf(),
    ensures
        final(p_bit_strm).decoded_in(
            *old(p_bit_strm),
            r.0 as int,
            r.1,
            spec_dec_uint_ascii_var(old(p_bit_strm).bits(), old(p_bit_strm).pos()),
            0,
            255,
        ),
{
    let (v, ok) = acn_dec_uint_ascii_var_size_length_embedded(p_bit_strm);
    if !ok || v > 255 {
        return (0, false);
    }
    (v as u8, true)
}

/// Decode an unsigned ASCII integer (var-size length-embedded) into a `u16`.
pub fn acn_dec_uint_ascii_var_size_length_embedded_u16(p_bit_strm: &mut BitStream) -> (r: (u16, bool))
    requires
        old(p_bit_strm).wf(),
    ensures
        final(p_bit_strm).decoded_in(
            *old(p_bit_strm),
            r.0 as int,
            r.1,
            spec_dec_uint_ascii_var(old(p_bit_strm).bits(), old(p_bit_strm).pos()),
            0,
            65535,
        ),
{
    let (v, ok) = acn_dec_uint_ascii_var_size_length_embedded(p_bit_strm);
    if !ok || v > 65535 {
        return (0, false);
    }
    (v as u16, true)
}

/// Decode an unsigned ASCII integer (var-size length-embedded) into a `u32`.
pub fn acn_dec_uint_ascii_var_size_length_embedded_u32(p_bit_strm: &mut BitStream) -> (r: (u32, bool))
    requires
        old(p_bit_strm).wf(),
    ensures
        final(p_bit_strm).decoded_in(
            *old(p_bit_strm),
            r.0 as int,
            r.1,
            spec_dec_uint_ascii_var(old(p_bit_strm).bits(), old(p_bit_strm).pos()),
            0,
            4294967295,
        ),
{
    let (v, ok) = acn_dec_uint_ascii_var_size_length_embedded(p_bit_strm);
    if !ok || v > 4294967295 {
        return (0, false);
    }
    (v as u32, true)
}

/// Decode an unsigned ASCII integer (var-size null-terminated) into a `u8`.
pub fn acn_dec_uint_ascii_var_size_null_terminated_u8(p_bit_strm: &mut BitStream, null_characters: &[u8]) -> (r: (u8, bool))
    requires
        old(p_bit_strm).wf(),
    ensures
        final(p_bit_strm).decoded_in(
            *old(p_bit_strm),
            r.0 as int,
            r.1,
            spec_dec_uint_ascii_null(old(p_bit_strm).bits(), old(p_bit_strm).pos(), null_characters@),
            0,
            255,
        ),
{
    let (v, ok) = acn_dec_uint_ascii_var_size_null_terminated(p_bit_strm, null_characters);
    if !ok || v > 255 {
        return (0, false);
    }
    (v as u8, true)
}

/// Decode an unsigned ASCII integer (var-size null-terminated) into a `u16`.
pub fn acn_dec_uint_ascii_var_size_null_terminated_u16(p_bit_strm: &mut BitStream, null_characters: &[u8]) -> (r: (u16, bool))
    requires
        old(p_bit_strm).wf(),
    ensures
        final(p_bit_strm).decoded_in(
            *old(p_bit_strm),
            r.0 as int,
            r.1,
            spec_dec_uint_ascii_null(old(p_bit_strm).bits(), old(p_bit_strm).pos(), null_characters@),
            0,
            65535,
        ),
{
    let (v, ok) = acn_dec_uint_ascii_var_size_null_terminated(p_bit_strm, null_characters);
    if !ok || v > 65535 {
        return (0, false);
    }
    (v as u16, true)
}

/// Decode an unsigned ASCII integer (var-size null-terminated) into a `u32`.
pub fn acn_dec_uint_ascii_var_size_null_terminated_u32(p_bit_strm: &mut BitStream, null_characters: &[u8]) -> (r: (u32, bool))
    requires
        old(p_bit_strm).wf(),
    ensures
        final(p_bit_strm).decoded_in(
            *old(p_bit_strm),
            r.0 as int,
            r.1,
            spec_dec_uint_ascii_null(old(p_bit_strm).bits(), old(p_bit_strm).pos(), null_characters@),
            0,
            4294967295,
        ),
{
    let (v, ok) = acn_dec_uint_ascii_var_size_null_terminated(p_bit_strm, null_characters);
    if !ok || v > 4294967295 {
        return (0, false);
    }
    (v as u32, true)
}

} // verus!
