//! ACN integer encodings over a `BitStream`: alignment, positive integers
//! (constant size in bits, big- and little-endian words, length-embedded),
//! two's complement integers, length determinants and MILBUS mapping.
//!
//! Encoders write exactly the bits stated and move the cursor past them.
//! Decoders are specified by spec functions of the stream returning the
//! value and the number of bits consumed, or `None` when decoding fails.
use vstd::prelude::*;
use vstd::arithmetic::div_mod::*;
use vstd::arithmetic::power2::*;
use crate::{Asn1SccSint, Asn1SccUint, WORD_SIZE};
use crate::bits::{
    bits_value, complement, le_bits, le_value, lemma_bits_value_bound, lemma_le_bits_len,
    lemma_le_value_bound, lemma_nat_bits_zero,
    lemma_le_bits_push, lemma_le_value_push, lemma_nat_bits_complement, lemma_nat_bits_len,
    lemma_nat_bits_mod, lemma_nat_bits_padded, lemma_num_bits_bound, lemma_num_bits_le, nat_bits,
    nonneg, num_bits, repeat_bit,
};
use crate::bitstream::{
    get_number_of_bits_for_non_negative_integer, low_word, lemma_wrote_concat, lemma_wrote_nothing, BitStream,
    MAX_CURSOR_BYTE,
};
use crate::octets::{
    get_length_in_bytes_of_sint, get_length_in_bytes_of_uint, int2uint, lemma_sint_bytes_bound,
    lemma_uint_bytes_bound, sign_extend, sint_bytes, uint2int, uint_bytes, wrap_u64,
};

verus! {

broadcast use lemma_nat_bits_len;

// ─── Alignment ─────────────────────────────────────────────────────────

/// `x` rounded up to a multiple of `m`.
pub open spec fn align_up(x: int, m: int) -> int {
    ((x + m - 1) / m) * m
}

/// Move the cursor to the next byte boundary (it stays where it is on one).
pub fn acn_align_to_next_byte(p_bit_strm: &mut BitStream, b_encode: bool)
    requires
        old(p_bit_strm).wf(),
        old(p_bit_strm).current_byte < MAX_CURSOR_BYTE,
    ensures
        final(p_bit_strm).wf(),
        final(p_bit_strm).count == old(p_bit_strm).count,
        final(p_bit_strm).buf@ == old(p_bit_strm).buf@,
        final(p_bit_strm).pos() == align_up(old(p_bit_strm).pos(), 8),
        final(p_bit_strm).current_bit == 0,
        final(p_bit_strm).current_byte == old(p_bit_strm).current_byte + if old(
            p_bit_strm,
        ).current_bit != 0 {
            1int
        } else {
            0int
        },
{
    if p_bit_strm.current_bit != 0 {
        p_bit_strm.current_bit = 0;
        p_bit_strm.current_byte = p_bit_strm.current_byte + 1;
    }
}

/// Same as `acn_align_to_next_byte`.
#[allow(non_snake_case)]
pub fn acn_align_toNextByte(p_bit_strm: &mut BitStream, b_encode: bool)
    requires
        old(p_bit_strm).wf(),
        old(p_bit_strm).current_byte < MAX_CURSOR_BYTE,
    ensures
        final(p_bit_strm).wf(),
        final(p_bit_strm).count == old(p_bit_strm).count,
        final(p_bit_strm).buf@ == old(p_bit_strm).buf@,
        final(p_bit_strm).pos() == align_up(old(p_bit_strm).pos(), 8),
{
    acn_align_to_next_byte(p_bit_strm, b_encode);
}

/// Move the cursor to the next 16-bit boundary.
pub fn acn_align_to_next_word(p_bit_strm: &mut BitStream, b_encode: bool)
    requires
        old(p_bit_strm).wf(),
        old(p_bit_strm).current_byte + 2 < MAX_CURSOR_BYTE,
    ensures
        final(p_bit_strm).wf(),
        final(p_bit_strm).count == old(p_bit_strm).count,
        final(p_bit_strm).buf@ == old(p_bit_strm).buf@,
        final(p_bit_strm).pos() == align_up(old(p_bit_strm).pos(), 16),
{
    acn_align_to_next_byte(p_bit_strm, b_encode);
    let ghost cb1 = p_bit_strm.current_byte;
    let q = (p_bit_strm.current_byte + (2 - 1)) / 2;
    p_bit_strm.current_byte = q * 2;
    proof {
        let p0 = old(p_bit_strm).pos();
        assert(cb1 == old(p_bit_strm).current_byte + if old(p_bit_strm).current_bit != 0 { 1int } else { 0int });
        assert((p0 + 16 - 1) / 16 == (cb1 + 2 - 1) / 2);
    }
}

/// Same as `acn_align_to_next_word`.
#[allow(non_snake_case)]
pub fn acn_align_toNextWord(p_bit_strm: &mut BitStream, b_encode: bool)
    requires
        old(p_bit_strm).wf(),
        old(p_bit_strm).current_byte + 2 < MAX_CURSOR_BYTE,
    ensures
        final(p_bit_strm).wf(),
        final(p_bit_strm).count == old(p_bit_strm).count,
        final(p_bit_strm).buf@ == old(p_bit_strm).buf@,
        final(p_bit_strm).pos() == align_up(old(p_bit_strm).pos(), 16),
{
    acn_align_to_next_word(p_bit_strm, b_encode);
}

/// Move the cursor to the next 32-bit boundary.
pub fn acn_align_to_next_dword(p_bit_strm: &mut BitStream, b_encode: bool)
    requires
        old(p_bit_strm).wf(),
        old(p_bit_strm).current_byte + 4 < MAX_CURSOR_BYTE,
    ensures
        final(p_bit_strm).wf(),
        final(p_bit_strm).count == old(p_bit_strm).count,
        final(p_bit_strm).buf@ == old(p_bit_strm).buf@,
        final(p_bit_strm).pos() == align_up(old(p_bit_strm).pos(), 32),
{
    acn_align_to_next_byte(p_bit_strm, b_encode);
    let ghost cb1 = p_bit_strm.current_byte;
    let q = (p_bit_strm.current_byte + (4 - 1)) / 4;
    p_bit_strm.current_byte = q * 4;
    proof {
        let p0 = old(p_bit_strm).pos();
        assert(cb1 == old(p_bit_strm).current_byte + if old(p_bit_strm).current_bit != 0 { 1int } else { 0int });
        assert((p0 + 32 - 1) / 32 == (cb1 + 4 - 1) / 4);
    }
}

/// Same as `acn_align_to_next_dword`.
#[allow(non_snake_case)]
pub fn acn_align_toNextDWord(p_bit_strm: &mut BitStream, b_encode: bool)
    requires
        old(p_bit_strm).wf(),
        old(p_bit_strm).current_byte + 4 < MAX_CURSOR_BYTE,
    ensures
        final(p_bit_strm).wf(),
        final(p_bit_strm).count == old(p_bit_strm).count,
        final(p_bit_strm).buf@ == old(p_bit_strm).buf@,
        final(p_bit_strm).pos() == align_up(old(p_bit_strm).pos(), 32),
{
    acn_align_to_next_dword(p_bit_strm, b_encode);
}

// ─── Positive integers: encoding ──────────────────────────────────────

/// Number of bits that the constant-size encoder writes for `v` in a field
/// of `n` bits: `n`, or more when `v` does not fit (none when `n` is 0).
pub open spec fn pos_const_width(v: nat, n: int) -> nat {
    if n == 0 {
        0
    } else if num_bits(v) > n {
        num_bits(v)
    } else {
        n as nat
    }
}

/// Write `int_val` in a field of `encoded_size_in_bits` bits, most
/// significant bit first, padded with zeros on the left.
pub fn acn_enc_int_positive_integer_const_size(
    p_bit_strm: &mut BitStream,
    int_val: Asn1SccUint,
    encoded_size_in_bits: i32,
)
    requires
        old(p_bit_strm).wf(),
        0 <= encoded_size_in_bits,
        old(p_bit_strm).remaining() >= pos_const_width(int_val as nat, encoded_size_in_bits as int),
    ensures
        final(p_bit_strm).wrote(
            *old(p_bit_strm),
            nat_bits(int_val as nat, pos_const_width(int_val as nat, encoded_size_in_bits as int)),
        ),
{
    let ghost s0 = *p_bit_strm;
    if encoded_size_in_bits == 0 {
        proof {
            lemma_wrote_nothing(s0, *p_bit_strm);
            assert(nat_bits(int_val as nat, 0) =~= Seq::<bool>::empty());
        }
        return;
    }
    let n_bits = get_number_of_bits_for_non_negative_integer(int_val);
    p_bit_strm.append_n_bit_zero(encoded_size_in_bits - n_bits);
    let ghost s1 = *p_bit_strm;
    p_bit_strm.encode_non_negative_integer(int_val);
    proof {
        let z = repeat_bit(false, nonneg((encoded_size_in_bits - n_bits) as int));
        let w = nat_bits(int_val as nat, n_bits as nat);
        lemma_wrote_concat(s0, s1, *p_bit_strm, z, w);
        if n_bits <= encoded_size_in_bits {
            lemma_nat_bits_padded(int_val as nat, encoded_size_in_bits as nat);
        } else {
            assert(z + w =~= w);
        }
    }
}

/// Write the low byte of `int_val`.
pub fn acn_enc_int_positive_integer_const_size_8(p_bit_strm: &mut BitStream, int_val: Asn1SccUint)
    requires
        old(p_bit_strm).wf(),
        old(p_bit_strm).remaining() >= 8,
    ensures
        final(p_bit_strm).wrote(*old(p_bit_strm), nat_bits(int_val as nat, 8)),
{
    let b = int_val as u8;
    p_bit_strm.append_byte0(b);
    proof {
        assert(b as u64 == int_val % 256) by (bit_vector)
            requires
                b == int_val as u8,
        ;
        lemma2_to64();
        lemma_nat_bits_mod(int_val as nat, 8, 8);
    }
}

/// Write the `size` low bytes of `int_val`, most significant first.
fn acn_enc_int_positive_integer_const_size_big_endian_b(
    p_bit_strm: &mut BitStream,
    int_val: Asn1SccUint,
    size: i32,
)
    requires
        old(p_bit_strm).wf(),
        1 <= size <= 8,
        old(p_bit_strm).remaining() >= 8 * size,
    ensures
        final(p_bit_strm).wrote(*old(p_bit_strm), nat_bits(int_val as nat, (8 * size) as nat)),
{
    p_bit_strm.append_bits(int_val, (size * 8) as u32);
}

/// Write the 2 low bytes of `int_val`, most significant first.
pub fn acn_enc_int_positive_integer_const_size_big_endian_16(
    p_bit_strm: &mut BitStream,
    int_val: Asn1SccUint,
)
    requires
        old(p_bit_strm).wf(),
        old(p_bit_strm).remaining() >= 16,
    ensures
        final(p_bit_strm).wrote(*old(p_bit_strm), nat_bits(int_val as nat, 16)),
{
    acn_enc_int_positive_integer_const_size_big_endian_b(p_bit_strm, int_val, 2);
}

/// Write the 4 low bytes of `int_val`, most significant first.
pub fn acn_enc_int_positive_integer_const_size_big_endian_32(
    p_bit_strm: &mut BitStream,
    int_val: Asn1SccUint,
)
    requires
        old(p_bit_strm).wf(),
        old(p_bit_strm).remaining() >= 32,
    ensures
        final(p_bit_strm).wrote(*old(p_bit_strm), nat_bits(int_val as nat, 32)),
{
    acn_enc_int_positive_integer_const_size_big_endian_b(p_bit_strm, int_val, 4);
}

/// Write the 8 bytes of `int_val`, most significant first.
pub fn acn_enc_int_positive_integer_const_size_big_endian_64(
    p_bit_strm: &mut BitStream,
    int_val: Asn1SccUint,
)
    requires
        old(p_bit_strm).wf(),
        old(p_bit_strm).remaining() >= 64,
    ensures
        final(p_bit_strm).wrote(*old(p_bit_strm), nat_bits(int_val as nat, 64)),
{
    acn_enc_int_positive_integer_const_size_big_endian_b(p_bit_strm, int_val, WORD_SIZE);
}

/// Write the `size` low bytes of `int_val`, least significant first.
fn acn_enc_int_positive_integer_const_size_little_endian_n(
    p_bit_strm: &mut BitStream,
    int_val: Asn1SccUint,
    size: i32,
)
    requires
        old(p_bit_strm).wf(),
        1 <= size <= 8,
        old(p_bit_strm).remaining() >= 8 * size,
    ensures
        final(p_bit_strm).wrote(*old(p_bit_strm), le_bits(int_val as nat, size as nat)),
{
    let ghost s0 = *p_bit_strm;
    let mut tmp = int_val;
    let mut i: i32 = 0;
    proof {
        lemma_wrote_nothing(s0, *p_bit_strm);
        assert(le_bits(int_val as nat, 0) =~= Seq::<bool>::empty());
        lemma2_to64();
        assert(int_val as nat / pow2(0) == int_val as nat);
    }
    while i < size
        invariant
            0 <= i <= size <= 8,
            s0 == *old(p_bit_strm),
            s0.wf(),
            s0.remaining() >= 8 * size,
            tmp as nat == int_val as nat / pow2((8 * i) as nat),
            p_bit_strm.wrote(s0, le_bits(int_val as nat, i as nat)),
        decreases size - i,
    {
        let byte_to_encode = tmp as u8;
        let ghost s1 = *p_bit_strm;
        proof {
            lemma_le_bits_len(int_val as nat, i as nat);
        }
        p_bit_strm.append_byte0(byte_to_encode);
        proof {
            assert(byte_to_encode as u64 == tmp % 256) by (bit_vector)
                requires
                    byte_to_encode == tmp as u8,
            ;
            lemma_le_bits_push(int_val as nat, i as nat);
            lemma_wrote_concat(
                s0,
                s1,
                *p_bit_strm,
                le_bits(int_val as nat, i as nat),
                nat_bits(byte_to_encode as nat, 8),
            );
            lemma2_to64();
            lemma_pow2_pos((8 * i) as nat);
            lemma_pow2_adds((8 * i) as nat, 8);
            lemma_div_denominator(int_val as int, pow2((8 * i) as nat) as int, 256);
            assert((8 * (i + 1)) as nat == (8 * i) as nat + 8);
            assert(pow2((8 * (i + 1)) as nat) == pow2((8 * i) as nat) * 256);
            assert(int_val as nat / pow2((8 * (i + 1)) as nat) == (tmp as nat) / 256);
        }
        assert(tmp >> 8u64 == tmp / 256) by (bit_vector);
        tmp = tmp >> 8u64;
        i = i + 1;
    }
}

/// Write the 2 low bytes of `int_val`, least significant first.
pub fn acn_enc_int_positive_integer_const_size_little_endian_16(
    p_bit_strm: &mut BitStream,
    int_val: Asn1SccUint,
)
    requires
        old(p_bit_strm).wf(),
        old(p_bit_strm).remaining() >= 16,
    ensures
        final(p_bit_strm).wrote(*old(p_bit_strm), le_bits(int_val as nat, 2)),
{
    acn_enc_int_positive_integer_const_size_little_endian_n(p_bit_strm, int_val, 2);
}

/// Write the 4 low bytes of `int_val`, least significant first.
pub fn acn_enc_int_positive_integer_const_size_little_endian_32(
    p_bit_strm: &mut BitStream,
    int_val: Asn1SccUint,
)
    requires
        old(p_bit_strm).wf(),
        old(p_bit_strm).remaining() >= 32,
    ensures
        final(p_bit_strm).wrote(*old(p_bit_strm), le_bits(int_val as nat, 4)),
{
    acn_enc_int_positive_integer_const_size_little_endian_n(p_bit_strm, int_val, 4);
}

/// Write the 8 bytes of `int_val`, least significant first.
pub fn acn_enc_int_positive_integer_const_size_little_endian_64(
    p_bit_strm: &mut BitStream,
    int_val: Asn1SccUint,
)
    requires
        old(p_bit_strm).wf(),
        old(p_bit_strm).remaining() >= 64,
    ensures
        final(p_bit_strm).wrote(*old(p_bit_strm), le_bits(int_val as nat, 8)),
{
    acn_enc_int_positive_integer_const_size_little_endian_n(p_bit_strm, int_val, WORD_SIZE);
}

// ─── Positive integers: decoding ──────────────────────────────────────

/// An `n`-bit unsigned field.
pub open spec fn spec_dec_uint(b: Seq<bool>, p: int, n: int) -> Option<(int, int)> {
    if b.len() - p >= n {
        Some((bits_value(b.subrange(p, p + n)) as int, n))
    } else {
        None
    }
}

/// An unsigned field of `n` bytes, least significant byte first.
pub open spec fn spec_dec_uint_le(b: Seq<bool>, p: int, n: int) -> Option<(int, int)> {
    if b.len() - p >= 8 * n {
        Some((le_value(b.subrange(p, p + 8 * n)) as int, 8 * n))
    } else {
        None
    }
}

/// An unsigned field of `n` bits of any size, read into a 64-bit word: its
/// last 64 bits when it is wider, and 0, consuming nothing, when `n <= 0`.
pub open spec fn spec_dec_uint_field(b: Seq<bool>, p: int, n: int) -> Option<(int, int)> {
    if n <= 0 {
        Some((0, 0))
    } else if b.len() - p >= n {
        Some((bits_value(low_word(b.subrange(p, p + n))) as int, n))
    } else {
        None
    }
}

/// Read an unsigned field of `encoded_size_in_bits` bits.
pub fn acn_dec_int_positive_integer_const_size(
    p_bit_strm: &mut BitStream,
    encoded_size_in_bits: i32,
) -> (r: (Asn1SccUint, bool))
    requires
        old(p_bit_strm).wf(),
    ensures
        final(p_bit_strm).decoded(
            *old(p_bit_strm),
            r.0 as int,
            r.1,
            spec_dec_uint_field(old(p_bit_strm).bits(), old(p_bit_strm).pos(), encoded_size_in_bits as int),
        ),
{
    p_bit_strm.decode_non_negative_integer(encoded_size_in_bits)
}

/// Read an unsigned byte.
pub fn acn_dec_int_positive_integer_const_size_8(p_bit_strm: &mut BitStream) -> (r: (
    Asn1SccUint,
    bool,
))
    requires
        old(p_bit_strm).wf(),
    ensures
        final(p_bit_strm).decoded(*old(p_bit_strm), r.0 as int, r.1, spec_dec_uint(old(p_bit_strm).bits(), old(p_bit_strm).pos(), 8)),
{
    let (v, ok) = p_bit_strm.read_byte();
    (v as Asn1SccUint, ok)
}

/// Read an unsigned field of `size_in_bytes` bytes, most significant first.
fn acn_dec_int_positive_integer_const_size_big_endian_n(
    p_bit_strm: &mut BitStream,
    size_in_bytes: i32,
) -> (r: (Asn1SccUint, bool))
    requires
        old(p_bit_strm).wf(),
        1 <= size_in_bytes <= 8,
    ensures
        final(p_bit_strm).decoded(
            *old(p_bit_strm),
            r.0 as int,
            r.1,
            spec_dec_uint(old(p_bit_strm).bits(), old(p_bit_strm).pos(), 8 * size_in_bytes),
        ),
{
    p_bit_strm.read_bits((size_in_bytes * 8) as u32)
}

/// Read a 2-byte unsigned field, most significant byte first.
pub fn acn_dec_int_positive_integer_const_size_big_endian_16(p_bit_strm: &mut BitStream) -> (r: (
    Asn1SccUint,
    bool,
))
    requires
        old(p_bit_strm).wf(),
    ensures
        final(p_bit_strm).decoded(*old(p_bit_strm), r.0 as int, r.1, spec_dec_uint(old(p_bit_strm).bits(), old(p_bit_strm).pos(), 16)),
{
    acn_dec_int_positive_integer_const_size_big_endian_n(p_bit_strm, 2)
}

/// Read a 4-byte unsigned field, most significant byte first.
pub fn acn_dec_int_positive_integer_const_size_big_endian_32(p_bit_strm: &mut BitStream) -> (r: (
    Asn1SccUint,
    bool,
))
    requires
        old(p_bit_strm).wf(),
    ensures
        final(p_bit_strm).decoded(*old(p_bit_strm), r.0 as int, r.1, spec_dec_uint(old(p_bit_strm).bits(), old(p_bit_strm).pos(), 32)),
{
    acn_dec_int_positive_integer_const_size_big_endian_n(p_bit_strm, 4)
}

/// Read an 8-byte unsigned field, most significant byte first.
pub fn acn_dec_int_positive_integer_const_size_big_endian_64(p_bit_strm: &mut BitStream) -> (r: (
    Asn1SccUint,
    bool,
))
    requires
        old(p_bit_strm).wf(),
    ensures
        final(p_bit_strm).decoded(*old(p_bit_strm), r.0 as int, r.1, spec_dec_uint(old(p_bit_strm).bits(), old(p_bit_strm).pos(), 64)),
{
    acn_dec_int_positive_integer_const_size_big_endian_n(p_bit_strm, WORD_SIZE)
}

/// One more byte read after `8 * i` bits extends the little-endian value read so far.
proof fn lemma_le_read_step(s0: BitStream, s1: BitStream, i: int, ret: nat, b: nat)
    requires
        i >= 0,
        s0.wf(),
        s1.advanced(s0, 8 * i),
        s1.remaining() >= 8,
        ret == if i == 0 { 0 } else { le_value(s0.next_bits(8 * i)) },
        b == bits_value(s1.next_bits(8)),
    ensures
        ret + pow2((8 * i) as nat) * b == le_value(s0.next_bits(8 * (i + 1))),
        s0.remaining() >= 8 * (i + 1),
{
    let t = s0.next_bits(8 * (i + 1));
    assert(t.subrange(0, 8 * i) =~= s0.next_bits(8 * i));
    assert(t.subrange(8 * i, 8 * i + 8) =~= s1.next_bits(8));
    lemma_le_value_push(t, i);
    if i == 0 {
        assert(t.subrange(0, 0).len() == 0);
    }
}

/// Read an unsigned field of `size_in_bytes` bytes, least significant first.
fn acn_dec_int_positive_integer_const_size_little_endian_n(
    p_bit_strm: &mut BitStream,
    size_in_bytes: i32,
) -> (r: (Asn1SccUint, bool))
    requires
        old(p_bit_strm).wf(),
        1 <= size_in_bytes <= 8,
    ensures
        final(p_bit_strm).decoded(
            *old(p_bit_strm),
            r.0 as int,
            r.1,
            spec_dec_uint_le(old(p_bit_strm).bits(), old(p_bit_strm).pos(), size_in_bytes as int),
        ),
{
    let ghost s0 = *p_bit_strm;
    let mut ret: Asn1SccUint = 0;
    let mut i: i32 = 0;
    proof {
        lemma2_to64();
    }
    while i < size_in_bytes
        invariant
            0 <= i <= size_in_bytes <= 8,
            s0 == *old(p_bit_strm),
            s0.wf(),
            p_bit_strm.advanced(s0, 8 * i),
            i > 0 ==> s0.remaining() >= 8 * i,
            ret as nat == if i == 0 { 0 } else { le_value(s0.next_bits(8 * i)) },
            ret < pow2((8 * i) as nat),
        decreases size_in_bytes - i,
    {
        let ghost s1 = *p_bit_strm;
        let (b, ok) = p_bit_strm.read_byte();
        if !ok {
            return (0, false);
        }
        proof {
            lemma_bits_value_bound(s1.next_bits(8));
            lemma_le_read_step(s0, s1, i as int, ret as nat, b as nat);
            lemma_pow2_adds((8 * i) as nat, 8);
            lemma2_to64();
            lemma2_to64_rest();
            if i < 7 {
                lemma_pow2_strictly_increases((8 * i + 8) as nat, 64);
            }
            assert(pow2((8 * i) as nat) * 256 <= 0x1_0000_0000_0000_0000);
            assert((b as u64) * pow2((8 * i) as nat) <= u64::MAX) by (nonlinear_arith)
                requires
                    b < 256,
                    pow2((8 * i) as nat) * 256 <= 0x1_0000_0000_0000_0000,
            ;

            assert(ret + (b as u64) * pow2((8 * i) as nat) < pow2((8 * i + 8) as nat))
                by (nonlinear_arith)
                requires
                    b < 256,
                    ret < pow2((8 * i) as nat),
                    pow2((8 * i + 8) as nat) == pow2((8 * i) as nat) * 256,
            ;
        }
        let sh: u64 = (i as u64) * 8;
        let tmp = (b as Asn1SccUint) << sh;
        proof {
            let m = pow2((8 * i) as nat);
            assert(m <= 0x100_0000_0000_0000u64) by {
                if i < 7 {
                    lemma_pow2_strictly_increases((8 * i) as nat, 56);
                }
            }
            vstd::bits::lemma_u64_shl_is_mul(1u64, sh);
            vstd::bits::lemma_u64_shl_is_mul(b as u64, sh);
            assert(sh as nat == (8 * i) as nat);
            assert(tmp as nat == (b as nat) * pow2((8 * i) as nat));
            assert(ret < (1u64 << sh) && sh <= 56 && tmp == ((b as u64) << sh) ==> (ret | tmp)
                == ret + tmp) by (bit_vector);
        }
        ret = ret | tmp;
        i = i + 1;
    }
    (ret, true)
}

/// Read a 2-byte unsigned field, least significant byte first.
pub fn acn_dec_int_positive_integer_const_size_little_endian_16(p_bit_strm: &mut BitStream) -> (r: (
    Asn1SccUint,
    bool,
))
    requires
        old(p_bit_strm).wf(),
    ensures
        final(p_bit_strm).decoded(*old(p_bit_strm), r.0 as int, r.1, spec_dec_uint_le(old(p_bit_strm).bits(), old(p_bit_strm).pos(), 2)),
{
    acn_dec_int_positive_integer_const_size_little_endian_n(p_bit_strm, 2)
}

/// Read a 4-byte unsigned field, least significant byte first.
pub fn acn_dec_int_positive_integer_const_size_little_endian_32(p_bit_strm: &mut BitStream) -> (r: (
    Asn1SccUint,
    bool,
))
    requires
        old(p_bit_strm).wf(),
    ensures
        final(p_bit_strm).decoded(*old(p_bit_strm), r.0 as int, r.1, spec_dec_uint_le(old(p_bit_strm).bits(), old(p_bit_strm).pos(), 4)),
{
    acn_dec_int_positive_integer_const_size_little_endian_n(p_bit_strm, 4)
}

/// Read an 8-byte unsigned field, least significant byte first.
pub fn acn_dec_int_positive_integer_const_size_little_endian_64(p_bit_strm: &mut BitStream) -> (r: (
    Asn1SccUint,
    bool,
))
    requires
        old(p_bit_strm).wf(),
    ensures
        final(p_bit_strm).decoded(*old(p_bit_strm), r.0 as int, r.1, spec_dec_uint_le(old(p_bit_strm).bits(), old(p_bit_strm).pos(), 8)),
{
    acn_dec_int_positive_integer_const_size_little_endian_n(p_bit_strm, WORD_SIZE)
}


// ─── Positive integers: length-embedded ───────────────────────────────

/// The bits of a length-embedded unsigned integer: its byte count in one
/// byte, then its minimal big-endian bytes.
pub open spec fn var_uint_bits(v: nat) -> Seq<bool> {
    nat_bits(uint_bytes(v), 8) + nat_bits(v, 8 * uint_bytes(v))
}

/// A length-embedded unsigned integer: a byte count (at most 8), then
/// that many bytes, most significant first.
pub open spec fn spec_dec_uint_var(b: Seq<bool>, p: int) -> Option<(int, int)> {
    if b.len() - p < 8 {
        None
    } else {
        let l = bits_value(b.subrange(p, p + 8)) as int;
        if l > 8 || b.len() - p < 8 + 8 * l {
            None
        } else {
            Some((bits_value(b.subrange(p + 8, p + 8 + 8 * l)) as int, 8 + 8 * l))
        }
    }
}

/// Write the `n_bytes` low bytes of `val`, most significant first.
fn encode_unsigned_integer(p_bit_strm: &mut BitStream, val: Asn1SccUint, n_bytes: u8)
    requires
        old(p_bit_strm).wf(),
        1 <= n_bytes <= 8,
        old(p_bit_strm).remaining() >= 8 * n_bytes,
    ensures
        final(p_bit_strm).wrote(*old(p_bit_strm), nat_bits(val as nat, (8 * n_bytes) as nat)),
{
    p_bit_strm.append_bits(val, (n_bytes as u32) * 8);
}

/// Write the byte count of `int_val`, then its minimal big-endian bytes.
pub fn acn_enc_int_positive_integer_var_size_length_embedded(
    p_bit_strm: &mut BitStream,
    int_val: Asn1SccUint,
)
    requires
        old(p_bit_strm).wf(),
        old(p_bit_strm).remaining() >= var_uint_bits(int_val as nat).len(),
    ensures
        final(p_bit_strm).wrote(*old(p_bit_strm), var_uint_bits(int_val as nat)),
{
    let ghost s0 = *p_bit_strm;
    let n_bytes = get_length_in_bytes_of_uint(int_val) as u8;
    p_bit_strm.append_byte0(n_bytes);
    let ghost s1 = *p_bit_strm;
    encode_unsigned_integer(p_bit_strm, int_val, n_bytes);
    proof {
        lemma_wrote_concat(
            s0,
            s1,
            *p_bit_strm,
            nat_bits(n_bytes as nat, 8),
            nat_bits(int_val as nat, (8 * n_bytes) as nat),
        );
    }
}

/// Read a byte count (at most 8) and read that many bytes as an unsigned
/// number, most significant first.
fn dec_var_size_bytes(p_bit_strm: &mut BitStream) -> (r: (Asn1SccUint, bool, u8))
    requires
        old(p_bit_strm).wf(),
    ensures
        r.1 <==> spec_dec_uint_var(old(p_bit_strm).bits(), old(p_bit_strm).pos()) is Some,
        r.1 ==> r.2 == bits_value(old(p_bit_strm).next_bits(8)) && r.2 <= 8,
        r.1 ==> final(p_bit_strm).decoded(
            *old(p_bit_strm),
            r.0 as int,
            r.1,
            spec_dec_uint_var(old(p_bit_strm).bits(), old(p_bit_strm).pos()),
        ),
        !r.1 ==> r.0 == 0 && final(p_bit_strm).same_buffer(*old(p_bit_strm)),
{
    let ghost s0 = *p_bit_strm;
    let (n_bytes, ok) = p_bit_strm.read_byte();
    if !ok {
        return (0, false, 0);
    }
    if n_bytes as i32 > WORD_SIZE {
        return (0, false, 0);
    }
    let ghost s1 = *p_bit_strm;
    let (v, ok) = p_bit_strm.read_bits((n_bytes as u32) * 8);
    if !ok {
        return (0, false, 0);
    }
    proof {
        let l = n_bytes as int;
        assert(s1.next_bits(8 * l) =~= s0.bits().subrange(s0.pos() + 8, s0.pos() + 8 + 8 * l));
    }
    (v, true, n_bytes)
}

/// Read a length-embedded unsigned integer.
pub fn acn_dec_int_positive_integer_var_size_length_embedded(p_bit_strm: &mut BitStream) -> (r: (
    Asn1SccUint,
    bool,
))
    requires
        old(p_bit_strm).wf(),
    ensures
        final(p_bit_strm).decoded(*old(p_bit_strm), r.0 as int, r.1, spec_dec_uint_var(old(p_bit_strm).bits(), old(p_bit_strm).pos())),
{
    let (v, ok, _) = dec_var_size_bytes(p_bit_strm);
    (v, ok)
}

// ─── Two's complement: encoding ───────────────────────────────────────

/// The magnitude that the two's complement encoder writes: `v` itself, or
/// `-v - 1` (whose bits are complemented) for a negative `v`.
pub open spec fn magnitude(v: int) -> nat {
    if v >= 0 {
        v as nat
    } else {
        (-v - 1) as nat
    }
}

/// Number of bits that the constant-size two's complement encoder writes
/// for `v` in a field of `n` bits: `n`, or more when `v` does not fit.
pub open spec fn twos_width(v: int, n: int) -> nat {
    if num_bits(magnitude(v)) > nonneg(n) {
        num_bits(magnitude(v))
    } else {
        nonneg(n)
    }
}

/// The `w`-bit two's complement pattern of `v`.
pub open spec fn twos_bits(v: int, w: nat) -> Seq<bool> {
    nat_bits((v % (pow2(w) as int)) as nat, w)
}

proof fn lemma_twos_bits_nonneg(v: nat, n: nat)
    requires
        num_bits(v) <= n,
    ensures
        repeat_bit(false, (n - num_bits(v)) as nat) + nat_bits(v, num_bits(v)) == twos_bits(
            v as int,
            n,
        ),
{
    lemma_nat_bits_padded(v, n);
    lemma_num_bits_bound(v);
    lemma_pow2_pos(n);
    if num_bits(v) < n {
        lemma_pow2_strictly_increases(num_bits(v), n);
    }
    lemma_small_mod(v, pow2(n));
}

proof fn lemma_twos_bits_neg(v: int, n: nat)
    requires
        v < 0,
        num_bits(magnitude(v)) <= n,
        magnitude(v) < 0x1_0000_0000_0000_0000,
    ensures
        repeat_bit(true, (n - num_bits(magnitude(v))) as nat) + nat_bits(
            (0xFFFF_FFFF_FFFF_FFFF - magnitude(v)) as nat,
            num_bits(magnitude(v)),
        ) == twos_bits(v, n),
{
    let a = magnitude(v);
    let nb = num_bits(a);
    let k = (n - nb) as nat;
    lemma2_to64();
    lemma_num_bits_bound(a);
    lemma_num_bits_le(a, 64);
    lemma_nat_bits_complement(a, 64, nb);
    assert((pow2(64) - 1 - a) as nat == (0xFFFF_FFFF_FFFF_FFFF - a) as nat);
    lemma_nat_bits_zero(k);
    lemma_nat_bits_padded(a, n);
    let z = repeat_bit(false, k);
    let x = nat_bits(a, nb);
    assert(repeat_bit(true, k) + complement(x) =~= complement(z + x));
    lemma_pow2_pos(n);
    if nb < n {
        lemma_pow2_strictly_increases(nb, n);
    }
    lemma_nat_bits_complement(a, n, n);
    lemma_fundamental_div_mod_converse(v, pow2(n) as int, -1, pow2(n) - 1 - a);
}

/// Write `int_val` in two's complement in a field of `encoded_size_in_bits`
/// bits, sign-extended on the left.
pub fn acn_enc_int_twos_complement_const_size(
    p_bit_strm: &mut BitStream,
    int_val: Asn1SccSint,
    encoded_size_in_bits: i32,
)
    requires
        old(p_bit_strm).wf(),
        0 <= encoded_size_in_bits,
        old(p_bit_strm).remaining() >= twos_width(int_val as int, encoded_size_in_bits as int),
    ensures
        final(p_bit_strm).wrote(
            *old(p_bit_strm),
            twos_bits(int_val as int, twos_width(int_val as int, encoded_size_in_bits as int)),
        ),
{
    let ghost s0 = *p_bit_strm;
    let ghost w = twos_width(int_val as int, encoded_size_in_bits as int);
    if int_val >= 0 {
        let n_bits = get_number_of_bits_for_non_negative_integer(int_val as Asn1SccUint);
        p_bit_strm.append_n_bit_zero(encoded_size_in_bits - n_bits);
        let ghost s1 = *p_bit_strm;
        p_bit_strm.encode_non_negative_integer(int_val as Asn1SccUint);
        proof {
            let z = repeat_bit(false, nonneg((encoded_size_in_bits - n_bits) as int));
            let x = nat_bits(int_val as nat, n_bits as nat);
            lemma_wrote_concat(s0, s1, *p_bit_strm, z, x);
            assert(nonneg((encoded_size_in_bits - n_bits) as int) == (w - n_bits) as nat);
            lemma_twos_bits_nonneg(int_val as nat, w);
        }
    } else {
        let abs_val = (-(int_val + 1)) as Asn1SccUint;
        let n_bits = get_number_of_bits_for_non_negative_integer(abs_val);
        p_bit_strm.append_n_bit_one(encoded_size_in_bits - n_bits);
        let ghost s1 = *p_bit_strm;
        p_bit_strm.encode_non_negative_integer_neg(abs_val, true);
        proof {
            let o = repeat_bit(true, nonneg((encoded_size_in_bits - n_bits) as int));
            let x = nat_bits((!abs_val) as nat, n_bits as nat);
            lemma_wrote_concat(s0, s1, *p_bit_strm, o, x);
            assert(!abs_val == 0xFFFF_FFFF_FFFF_FFFFu64 - abs_val) by (bit_vector);
            assert(nonneg((encoded_size_in_bits - n_bits) as int) == (w - n_bits) as nat);
            lemma_twos_bits_neg(int_val as int, w);
        }
    }
}

/// Write `int_val` in 8-bit two's complement (its low byte).
pub fn acn_enc_int_twos_complement_const_size_8(p_bit_strm: &mut BitStream, int_val: Asn1SccSint)
    requires
        old(p_bit_strm).wf(),
        old(p_bit_strm).remaining() >= 8,
    ensures
        final(p_bit_strm).wrote(*old(p_bit_strm), nat_bits(wrap_u64(int_val as int), 8)),
{
    acn_enc_int_positive_integer_const_size_8(p_bit_strm, int2uint(int_val));
}

/// Write `int_val` in 16-bit two's complement, most significant byte first.
pub fn acn_enc_int_twos_complement_const_size_big_endian_16(
    p_bit_strm: &mut BitStream,
    int_val: Asn1SccSint,
)
    requires
        old(p_bit_strm).wf(),
        old(p_bit_strm).remaining() >= 16,
    ensures
        final(p_bit_strm).wrote(*old(p_bit_strm), nat_bits(wrap_u64(int_val as int), 16)),
{
    acn_enc_int_positive_integer_const_size_big_endian_16(p_bit_strm, int2uint(int_val));
}

/// Write `int_val` in 32-bit two's complement, most significant byte first.
pub fn acn_enc_int_twos_complement_const_size_big_endian_32(
    p_bit_strm: &mut BitStream,
    int_val: Asn1SccSint,
)
    requires
        old(p_bit_strm).wf(),
        old(p_bit_strm).remaining() >= 32,
    ensures
        final(p_bit_strm).wrote(*old(p_bit_strm), nat_bits(wrap_u64(int_val as int), 32)),
{
    acn_enc_int_positive_integer_const_size_big_endian_32(p_bit_strm, int2uint(int_val));
}

/// Write `int_val` in 64-bit two's complement, most significant byte first.
pub fn acn_enc_int_twos_complement_const_size_big_endian_64(
    p_bit_strm: &mut BitStream,
    int_val: Asn1SccSint,
)
    requires
        old(p_bit_strm).wf(),
        old(p_bit_strm).remaining() >= 64,
    ensures
        final(p_bit_strm).wrote(*old(p_bit_strm), nat_bits(wrap_u64(int_val as int), 64)),
{
    acn_enc_int_positive_integer_const_size_big_endian_64(p_bit_strm, int2uint(int_val));
}

/// Write `int_val` in 16-bit two's complement, least significant byte first.
pub fn acn_enc_int_twos_complement_const_size_little_endian_16(
    p_bit_strm: &mut BitStream,
    int_val: Asn1SccSint,
)
    requires
        old(p_bit_strm).wf(),
        old(p_bit_strm).remaining() >= 16,
    ensures
        final(p_bit_strm).wrote(*old(p_bit_strm), le_bits(wrap_u64(int_val as int), 2)),
{
    acn_enc_int_positive_integer_const_size_little_endian_16(p_bit_strm, int2uint(int_val));
}

/// Write `int_val` in 32-bit two's complement, least significant byte first.
pub fn acn_enc_int_twos_complement_const_size_little_endian_32(
    p_bit_strm: &mut BitStream,
    int_val: Asn1SccSint,
)
    requires
        old(p_bit_strm).wf(),
        old(p_bit_strm).remaining() >= 32,
    ensures
        final(p_bit_strm).wrote(*old(p_bit_strm), le_bits(wrap_u64(int_val as int), 4)),
{
    acn_enc_int_positive_integer_const_size_little_endian_32(p_bit_strm, int2uint(int_val));
}

/// Write `int_val` in 64-bit two's complement, least significant byte first.
pub fn acn_enc_int_twos_complement_const_size_little_endian_64(
    p_bit_strm: &mut BitStream,
    int_val: Asn1SccSint,
)
    requires
        old(p_bit_strm).wf(),
        old(p_bit_strm).remaining() >= 64,
    ensures
        final(p_bit_strm).wrote(*old(p_bit_strm), le_bits(wrap_u64(int_val as int), 8)),
{
    acn_enc_int_positive_integer_const_size_little_endian_64(p_bit_strm, int2uint(int_val));
}

// ─── Two's complement: decoding ───────────────────────────────────────

/// A two's complement field of `n` bits (1 to 64).  A field of 0 bits
/// reads as -1 when the next bit is set and 0 otherwise, consuming nothing.
pub open spec fn spec_dec_sint(b: Seq<bool>, p: int, n: int) -> Option<(int, int)> {
    if n == 0 {
        Some((if b.len() - p >= 1 && b[p] { -1int } else { 0int }, 0))
    } else if b.len() - p >= n {
        Some((sign_extend(bits_value(b.subrange(p, p + n)), n as nat), n))
    } else {
        None
    }
}

/// A two's complement field of `n` bytes, least significant byte first.
pub open spec fn spec_dec_sint_le(b: Seq<bool>, p: int, n: int) -> Option<(int, int)> {
    if b.len() - p >= 8 * n {
        Some((sign_extend(le_value(b.subrange(p, p + 8 * n)), (8 * n) as nat), 8 * n))
    } else {
        None
    }
}

/// The signed number whose `n`-bit two's complement pattern is `v`.
fn sign_extend_bits(v: u64, n: u32) -> (r: i64)
    requires
        1 <= n <= 64,
        v < pow2(n as nat),
    ensures
        r == sign_extend(v as nat, n as nat),
{
    proof {
        vstd::bits::lemma_u64_pow2_no_overflow((n - 1) as nat);
        vstd::bits::lemma_u64_shl_is_mul(1u64, (n - 1) as u64);
        lemma_pow2_unfold(n as nat);
        lemma2_to64_rest();
        if n - 1 < 63 {
            lemma_pow2_strictly_increases((n - 1) as nat, 63);
        }
    }
    let half: u64 = 1u64 << ((n - 1) as u64);
    let full: i128 = 2 * (half as i128);
    if v >= half {
        (v as i128 - full) as i64
    } else {
        v as i64
    }
}

/// A two's complement field of `n` bits of any size, read into a 64-bit
/// word: the pattern of its last 64 bits when it is wider. A field of
/// `n <= 0` bits reads as -1 when the next bit is set and 0 otherwise,
/// consuming nothing.
pub open spec fn spec_dec_sint_field(b: Seq<bool>, p: int, n: int) -> Option<(int, int)> {
    if n <= 0 {
        Some((if b.len() - p >= 1 && b[p] { -1int } else { 0int }, 0))
    } else if b.len() - p >= n {
        let w = low_word(b.subrange(p, p + n));
        Some((sign_extend(bits_value(w), w.len()), n))
    } else {
        None
    }
}

/// For fields of at most 64 bits, the two field readers agree with the
/// fixed-width ones.
pub proof fn lemma_field_readers_small(b: Seq<bool>, p: int, n: int)
    requires
        0 <= p <= b.len(),
        0 <= n <= 64,
    ensures
        spec_dec_uint_field(b, p, n) == spec_dec_uint(b, p, n),
        spec_dec_sint_field(b, p, n) == spec_dec_sint(b, p, n),
{
    if n == 0 {
        assert(b.subrange(p, p) =~= Seq::<bool>::empty());
    } else if b.len() - p >= n {
        assert(b.subrange(p, p + n).len() == n);
    }
}

/// Read a two's complement field of `encoded_size_in_bits` bits.
pub fn acn_dec_int_twos_complement_const_size(
    p_bit_strm: &mut BitStream,
    encoded_size_in_bits: i32,
) -> (r: (Asn1SccSint, bool))
    requires
        old(p_bit_strm).wf(),
    ensures
        final(p_bit_strm).decoded(
            *old(p_bit_strm),
            r.0 as int,
            r.1,
            spec_dec_sint_field(old(p_bit_strm).bits(), old(p_bit_strm).pos(), encoded_size_in_bits as int),
        ),
{
    let val_is_negative = p_bit_strm.peek_bit();
    if encoded_size_in_bits <= 0 {
        return (if val_is_negative { -1 } else { 0 }, true);
    }
    let (v, ok) = p_bit_strm.decode_non_negative_integer(encoded_size_in_bits);
    if !ok {
        return (0, false);
    }
    let width: u32 = if encoded_size_in_bits > 64 { 64 } else { encoded_size_in_bits as u32 };
    proof {
        let w = low_word(old(p_bit_strm).next_bits(encoded_size_in_bits as int));
        assert(w.len() == width);
        lemma_bits_value_bound(w);
    }
    (sign_extend_bits(v, width), true)
}

/// Read an 8-bit two's complement field.
pub fn acn_dec_int_twos_complement_const_size_8(p_bit_strm: &mut BitStream) -> (r: (
    Asn1SccSint,
    bool,
))
    requires
        old(p_bit_strm).wf(),
    ensures
        final(p_bit_strm).decoded(*old(p_bit_strm), r.0 as int, r.1, spec_dec_sint(old(p_bit_strm).bits(), old(p_bit_strm).pos(), 8)),
{
    let (tmp, ok) = acn_dec_int_positive_integer_const_size_8(p_bit_strm);
    if !ok {
        return (0, false);
    }
    proof {
        lemma_bits_value_bound(old(p_bit_strm).next_bits(8));
    }
    (uint2int(tmp, 1), true)
}

/// Read a 16-bit two's complement field, most significant byte first.
pub fn acn_dec_int_twos_complement_const_size_big_endian_16(p_bit_strm: &mut BitStream) -> (r: (
    Asn1SccSint,
    bool,
))
    requires
        old(p_bit_strm).wf(),
    ensures
        final(p_bit_strm).decoded(*old(p_bit_strm), r.0 as int, r.1, spec_dec_sint(old(p_bit_strm).bits(), old(p_bit_strm).pos(), 16)),
{
    let (tmp, ok) = acn_dec_int_positive_integer_const_size_big_endian_16(p_bit_strm);
    if !ok {
        return (0, false);
    }
    proof {
        lemma_bits_value_bound(old(p_bit_strm).next_bits(16));
    }
    (uint2int(tmp, 2), true)
}

/// Read a 32-bit two's complement field, most significant byte first.
pub fn acn_dec_int_twos_complement_const_size_big_endian_32(p_bit_strm: &mut BitStream) -> (r: (
    Asn1SccSint,
    bool,
))
    requires
        old(p_bit_strm).wf(),
    ensures
        final(p_bit_strm).decoded(*old(p_bit_strm), r.0 as int, r.1, spec_dec_sint(old(p_bit_strm).bits(), old(p_bit_strm).pos(), 32)),
{
    let (tmp, ok) = acn_dec_int_positive_integer_const_size_big_endian_32(p_bit_strm);
    if !ok {
        return (0, false);
    }
    proof {
        lemma_bits_value_bound(old(p_bit_strm).next_bits(32));
    }
    (uint2int(tmp, 4), true)
}

/// Read a 64-bit two's complement field, most significant byte first.
pub fn acn_dec_int_twos_complement_const_size_big_endian_64(p_bit_strm: &mut BitStream) -> (r: (
    Asn1SccSint,
    bool,
))
    requires
        old(p_bit_strm).wf(),
    ensures
        final(p_bit_strm).decoded(*old(p_bit_strm), r.0 as int, r.1, spec_dec_sint(old(p_bit_strm).bits(), old(p_bit_strm).pos(), 64)),
{
    let (tmp, ok) = acn_dec_int_positive_integer_const_size_big_endian_64(p_bit_strm);
    if !ok {
        return (0, false);
    }
    proof {
        lemma_bits_value_bound(old(p_bit_strm).next_bits(64));
    }
    (uint2int(tmp, WORD_SIZE), true)
}

/// Read a 16-bit two's complement field, least significant byte first.
pub fn acn_dec_int_twos_complement_const_size_little_endian_16(p_bit_strm: &mut BitStream) -> (r: (
    Asn1SccSint,
    bool,
))
    requires
        old(p_bit_strm).wf(),
    ensures
        final(p_bit_strm).decoded(*old(p_bit_strm), r.0 as int, r.1, spec_dec_sint_le(old(p_bit_strm).bits(), old(p_bit_strm).pos(), 2)),
{
    let (tmp, ok) = acn_dec_int_positive_integer_const_size_little_endian_16(p_bit_strm);
    if !ok {
        return (0, false);
    }
    proof {
        lemma_le_value_bound(old(p_bit_strm).next_bits(16), 2);
    }
    (uint2int(tmp, 2), true)
}

/// Read a 32-bit two's complement field, least significant byte first.
pub fn acn_dec_int_twos_complement_const_size_little_endian_32(p_bit_strm: &mut BitStream) -> (r: (
    Asn1SccSint,
    bool,
))
    requires
        old(p_bit_strm).wf(),
    ensures
        final(p_bit_strm).decoded(*old(p_bit_strm), r.0 as int, r.1, spec_dec_sint_le(old(p_bit_strm).bits(), old(p_bit_strm).pos(), 4)),
{
    let (tmp, ok) = acn_dec_int_positive_integer_const_size_little_endian_32(p_bit_strm);
    if !ok {
        return (0, false);
    }
    proof {
        lemma_le_value_bound(old(p_bit_strm).next_bits(32), 4);
    }
    (uint2int(tmp, 4), true)
}

/// Read a 64-bit two's complement field, least significant byte first.
pub fn acn_dec_int_twos_complement_const_size_little_endian_64(p_bit_strm: &mut BitStream) -> (r: (
    Asn1SccSint,
    bool,
))
    requires
        old(p_bit_strm).wf(),
    ensures
        final(p_bit_strm).decoded(*old(p_bit_strm), r.0 as int, r.1, spec_dec_sint_le(old(p_bit_strm).bits(), old(p_bit_strm).pos(), 8)),
{
    let (tmp, ok) = acn_dec_int_positive_integer_const_size_little_endian_64(p_bit_strm);
    if !ok {
        return (0, false);
    }
    proof {
        lemma_le_value_bound(old(p_bit_strm).next_bits(64), 8);
    }
    (uint2int(tmp, WORD_SIZE), true)
}

// ─── Two's complement: length-embedded ────────────────────────────────

/// The two's complement pattern of `int_val` as a `u64`.
fn to_uint(int_val: Asn1SccSint) -> (r: Asn1SccUint)
    ensures
        r == wrap_u64(int_val as int),
{
    if int_val < 0 {
        let ret = (-(int_val + 1)) as Asn1SccUint;
        assert(!ret == 0xFFFF_FFFF_FFFF_FFFFu64 - ret) by (bit_vector);
        !ret
    } else {
        int_val as Asn1SccUint
    }
}

/// The bits of a length-embedded two's complement integer: its byte count
/// in one byte, then its minimal two's complement bytes.
pub open spec fn var_sint_bits(v: int) -> Seq<bool> {
    nat_bits(sint_bytes(v), 8) + nat_bits(wrap_u64(v), 8 * sint_bytes(v))
}

/// A length-embedded two's complement integer.
pub open spec fn spec_dec_sint_var(b: Seq<bool>, p: int) -> Option<(int, int)> {
    match spec_dec_uint_var(b, p) {
        Some((v, k)) => Some((sign_extend(v as nat, (k - 8) as nat), k)),
        None => None,
    }
}

/// Write the two's complement byte count of `int_val`, then its bytes.
pub fn acn_enc_int_twos_complement_var_size_length_embedded(
    p_bit_strm: &mut BitStream,
    int_val: Asn1SccSint,
)
    requires
        old(p_bit_strm).wf(),
        old(p_bit_strm).remaining() >= var_sint_bits(int_val as int).len(),
    ensures
        final(p_bit_strm).wrote(*old(p_bit_strm), var_sint_bits(int_val as int)),
{
    let ghost s0 = *p_bit_strm;
    let n_bytes = get_length_in_bytes_of_sint(int_val) as u8;
    p_bit_strm.append_byte0(n_bytes);
    let ghost s1 = *p_bit_strm;
    encode_unsigned_integer(p_bit_strm, to_uint(int_val), n_bytes);
    proof {
        lemma_wrote_concat(
            s0,
            s1,
            *p_bit_strm,
            nat_bits(n_bytes as nat, 8),
            nat_bits(wrap_u64(int_val as int), (8 * n_bytes) as nat),
        );
    }
}

/// Read a length-embedded two's complement integer.
pub fn acn_dec_int_twos_complement_var_size_length_embedded(p_bit_strm: &mut BitStream) -> (r: (
    Asn1SccSint,
    bool,
))
    requires
        old(p_bit_strm).wf(),
    ensures
        final(p_bit_strm).decoded(*old(p_bit_strm), r.0 as int, r.1, spec_dec_sint_var(old(p_bit_strm).bits(), old(p_bit_strm).pos())),
{
    let ghost s0 = *p_bit_strm;
    let (v, ok, n_bytes) = dec_var_size_bytes(p_bit_strm);
    if !ok {
        return (0, false);
    }
    if n_bytes == 0 {
        return (0, true);
    }
    proof {
        let l = n_bytes as int;
        lemma_bits_value_bound(s0.bits().subrange(s0.pos() + 8, s0.pos() + 8 + 8 * l));
    }
    (uint2int(v, n_bytes as i32), true)
}

// ─── Length determinants ──────────────────────────────────────────────

/// Write a length determinant of `length_size_in_bits` bits.
pub fn acn_enc_length(
    p_bit_strm: &mut BitStream,
    length_value: Asn1SccUint,
    length_size_in_bits: i32,
)
    requires
        old(p_bit_strm).wf(),
        0 <= length_size_in_bits,
        old(p_bit_strm).remaining() >= pos_const_width(
            length_value as nat,
            length_size_in_bits as int,
        ),
    ensures
        final(p_bit_strm).wrote(
            *old(p_bit_strm),
            nat_bits(
                length_value as nat,
                pos_const_width(length_value as nat, length_size_in_bits as int),
            ),
        ),
{
    acn_enc_int_positive_integer_const_size(p_bit_strm, length_value, length_size_in_bits);
}

/// Read a length determinant of `length_size_in_bits` bits.
pub fn acn_dec_length(p_bit_strm: &mut BitStream, length_size_in_bits: i32) -> (r: (
    Asn1SccUint,
    bool,
))
    requires
        old(p_bit_strm).wf(),
    ensures
        final(p_bit_strm).decoded(
            *old(p_bit_strm),
            r.0 as int,
            r.1,
            spec_dec_uint_field(old(p_bit_strm).bits(), old(p_bit_strm).pos(), length_size_in_bits as int),
        ),
{
    acn_dec_int_positive_integer_const_size(p_bit_strm, length_size_in_bits)
}

// ─── MILBUS ────────────────────────────────────────────────────────────

/// The MILBUS word of `v`: 32 is written as 0.
pub open spec fn milbus_word(v: int) -> int {
    if v == 32 {
        0
    } else {
        v
    }
}

/// The value of the MILBUS word `w`: 0 stands for 32.
pub open spec fn milbus_value(w: int) -> int {
    if w == 0 {
        32
    } else {
        w
    }
}

/// MILBUS encoding: 32 is sent as 0.
pub fn milbus_encode(val: Asn1SccSint) -> (r: Asn1SccSint)
    ensures
        r == milbus_word(val as int),
{
    if val == 32 {
        0
    } else {
        val
    }
}

/// MILBUS decoding: 0 is read as 32.
pub fn milbus_decode(val: Asn1SccSint) -> (r: Asn1SccSint)
    ensures
        r == milbus_value(val as int),
{
    if val == 0 {
        32
    } else {
        val
    }
}

} // verus!
