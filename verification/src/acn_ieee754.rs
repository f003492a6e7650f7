//! IEEE 754 REAL fields: a single or double precision value is carried by
//! its bit pattern, written as four or eight octets in big- or
//! little-endian order. The conversion between a float and its bit
//! pattern is left to the caller; these functions place and read the
//! octets.
use vstd::prelude::*;
use vstd::arithmetic::power2::*;
use crate::bits::{le_bits, lemma_bits_value_bound, lemma_le_value_bound, nat_bits};
use crate::bitstream::BitStream;
use crate::acn_int::{
    acn_dec_int_positive_integer_const_size_big_endian_32, acn_dec_int_positive_integer_const_size_big_endian_64,
    acn_dec_int_positive_integer_const_size_little_endian_32, acn_dec_int_positive_integer_const_size_little_endian_64,
    acn_enc_int_positive_integer_const_size_big_endian_32, acn_enc_int_positive_integer_const_size_big_endian_64,
    acn_enc_int_positive_integer_const_size_little_endian_32, acn_enc_int_positive_integer_const_size_little_endian_64,
    spec_dec_uint, spec_dec_uint_le,
};

verus! {

/// Write the single precision pattern `bits`, most significant octet first.
pub fn acn_enc_real_ieee754_32_big_endian(p_bit_strm: &mut BitStream, bits: u32)
    requires
        old(p_bit_strm).wf(),
        old(p_bit_strm).remaining() >= 32,
    ensures
        final(p_bit_strm).wrote(*old(p_bit_strm), nat_bits(bits as nat, 32)),
{
    acn_enc_int_positive_integer_const_size_big_endian_32(p_bit_strm, bits as u64);
}

/// Write the double precision pattern `bits`, most significant octet first.
pub fn acn_enc_real_ieee754_64_big_endian(p_bit_strm: &mut BitStream, bits: u64)
    requires
        old(p_bit_strm).wf(),
        old(p_bit_strm).remaining() >= 64,
    ensures
        final(p_bit_strm).wrote(*old(p_bit_strm), nat_bits(bits as nat, 64)),
{
    acn_enc_int_positive_integer_const_size_big_endian_64(p_bit_strm, bits);
}

/// Write the single precision pattern `bits`, least significant octet first.
pub fn acn_enc_real_ieee754_32_little_endian(p_bit_strm: &mut BitStream, bits: u32)
    requires
        old(p_bit_strm).wf(),
        old(p_bit_strm).remaining() >= 32,
    ensures
        final(p_bit_strm).wrote(*old(p_bit_strm), le_bits(bits as nat, 4)),
{
    acn_enc_int_positive_integer_const_size_little_endian_32(p_bit_strm, bits as u64);
}

/// Write the double precision pattern `bits`, least significant octet first.
pub fn acn_enc_real_ieee754_64_little_endian(p_bit_strm: &mut BitStream, bits: u64)
    requires
        old(p_bit_strm).wf(),
        old(p_bit_strm).remaining() >= 64,
    ensures
        final(p_bit_strm).wrote(*old(p_bit_strm), le_bits(bits as nat, 8)),
{
    acn_enc_int_positive_integer_const_size_little_endian_64(p_bit_strm, bits);
}

/// Read a single precision pattern written most significant octet first.
fn dec_be_32(p_bit_strm: &mut BitStream) -> (r: (u32, bool))
    requires
        old(p_bit_strm).wf(),
    ensures
        final(p_bit_strm).decoded(*old(p_bit_strm), r.0 as int, r.1, spec_dec_uint(old(p_bit_strm).bits(), old(p_bit_strm).pos(), 32)),
{
    proof {
        let b = old(p_bit_strm).bits();
        let p = old(p_bit_strm).pos();
        if b.len() - p >= 32 {
            lemma_bits_value_bound(b.subrange(p, p + 32));
            lemma2_to64();
        }
    }
    let (v, ok) = acn_dec_int_positive_integer_const_size_big_endian_32(p_bit_strm);
    (v as u32, ok)
}

/// Read a single precision pattern written least significant octet first.
fn dec_le_32(p_bit_strm: &mut BitStream) -> (r: (u32, bool))
    requires
        old(p_bit_strm).wf(),
    ensures
        final(p_bit_strm).decoded(*old(p_bit_strm), r.0 as int, r.1, spec_dec_uint_le(old(p_bit_strm).bits(), old(p_bit_strm).pos(), 4)),
{
    proof {
        let b = old(p_bit_strm).bits();
        let p = old(p_bit_strm).pos();
        if b.len() - p >= 32 {
            lemma_le_value_bound(b.subrange(p, p + 32), 4);
            lemma2_to64();
        }
    }
    let (v, ok) = acn_dec_int_positive_integer_const_size_little_endian_32(p_bit_strm);
    (v as u32, ok)
}

/// Read the single precision pattern of a value written most significant
/// octet first (the caller widens it to double precision).
pub fn acn_dec_real_ieee754_32_big_endian(p_bit_strm: &mut BitStream) -> (r: (u32, bool))
    requires
        old(p_bit_strm).wf(),
    ensures
        final(p_bit_strm).decoded(*old(p_bit_strm), r.0 as int, r.1, spec_dec_uint(old(p_bit_strm).bits(), old(p_bit_strm).pos(), 32)),
{
    dec_be_32(p_bit_strm)
}

/// Read the single precision pattern of a value written most significant
/// octet first, kept at single precision.
pub fn acn_dec_real_ieee754_32_big_endian_fp32(p_bit_strm: &mut BitStream) -> (r: (u32, bool))
    requires
        old(p_bit_strm).wf(),
    ensures
        final(p_bit_strm).decoded(*old(p_bit_strm), r.0 as int, r.1, spec_dec_uint(old(p_bit_strm).bits(), old(p_bit_strm).pos(), 32)),
{
    dec_be_32(p_bit_strm)
}

/// Read a double precision pattern written most significant octet first.
pub fn acn_dec_real_ieee754_64_big_endian(p_bit_strm: &mut BitStream) -> (r: (u64, bool))
    requires
        old(p_bit_strm).wf(),
    ensures
        final(p_bit_strm).decoded(*old(p_bit_strm), r.0 as int, r.1, spec_dec_uint(old(p_bit_strm).bits(), old(p_bit_strm).pos(), 64)),
{
    acn_dec_int_positive_integer_const_size_big_endian_64(p_bit_strm)
}

/// Read the single precision pattern of a value written least significant
/// octet first (the caller widens it to double precision).
pub fn acn_dec_real_ieee754_32_little_endian(p_bit_strm: &mut BitStream) -> (r: (u32, bool))
    requires
        old(p_bit_strm).wf(),
    ensures
        final(p_bit_strm).decoded(*old(p_bit_strm), r.0 as int, r.1, spec_dec_uint_le(old(p_bit_strm).bits(), old(p_bit_strm).pos(), 4)),
{
    dec_le_32(p_bit_strm)
}

/// Read the single precision pattern of a value written least significant
/// octet first, kept at single precision.
pub fn acn_dec_real_ieee754_32_little_endian_fp32(p_bit_strm: &mut BitStream) -> (r: (u32, bool))
    requires
        old(p_bit_strm).wf(),
    ensures
        final(p_bit_strm).decoded(*old(p_bit_strm), r.0 as int, r.1, spec_dec_uint_le(old(p_bit_strm).bits(), old(p_bit_strm).pos(), 4)),
{
    dec_le_32(p_bit_strm)
}

/// Read a double precision pattern written least significant octet first.
pub fn acn_dec_real_ieee754_64_little_endian(p_bit_strm: &mut BitStream) -> (r: (u64, bool))
    requires
        old(p_bit_strm).wf(),
    ensures
        final(p_bit_strm).decoded(*old(p_bit_strm), r.0 as int, r.1, spec_dec_uint_le(old(p_bit_strm).bits(), old(p_bit_strm).pos(), 8)),
{
    acn_dec_int_positive_integer_const_size_little_endian_64(p_bit_strm)
}

} // verus!
