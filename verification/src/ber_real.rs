//! REAL values in the binary encoding: a length byte, a header byte, the
//! exponent in two's complement and the mantissa.  A value to encode is
//! given by the bit pattern of an IEEE 754 double; a decoded value is a
//! sign, a mantissa and a binary exponent, `mantissa * 2^exponent`.
use vstd::prelude::*;
use vstd::arithmetic::power2::*;
use crate::bits::{lemma_nat_bits_len, lemma_num_bits_le, nat_bits};
use crate::bitstream::{lemma_wrote_concat, BitStream};
use crate::acn_string::{lemma_no_octet, lemma_read_octet, octets_at};
use crate::octets::{
    be_value, fits_signed_bytes, get_length_in_bytes_of_sint, sign_extend, lemma_be_value_bound, get_length_in_bytes_of_uint, lemma_sint_bytes_bound,
    lemma_uint_bytes_bound, sint_bytes, uint_bytes,
};
use crate::acn_int::{
    acn_enc_int_positive_integer_const_size, acn_enc_int_twos_complement_const_size, magnitude,
    twos_bits, twos_width,
};

verus! {

/// A decoded REAL value.
#[derive(Debug, Clone, Copy, PartialEq, Eq, Structural)]
pub enum DecodedReal {
    /// Zero.
    Zero,
    /// Positive infinity.
    PlusInfinity,
    /// Negative infinity.
    MinusInfinity,
    /// `mantissa * 2^exponent`, negated when `negative` holds.
    Binary { negative: bool, mantissa: u64, exponent: i64 },
}

/// The bit pattern of positive infinity.
pub const PLUS_INFINITY_BITS: u64 = 0x7FF0_0000_0000_0000;

/// The bit pattern of negative infinity.
pub const MINUS_INFINITY_BITS: u64 = 0xFFF0_0000_0000_0000;

/// The biased exponent field of a double.
pub open spec fn ieee_biased_exponent(v: u64) -> nat {
    ((v as nat) / 0x10_0000_0000_0000) % 2048
}

/// The fraction field of a double.
pub open spec fn ieee_fraction(v: u64) -> nat {
    (v as nat) % 0x10_0000_0000_0000
}

/// The double is a NaN.
pub open spec fn ieee_is_nan(v: u64) -> bool {
    ieee_biased_exponent(v) == 2047 && ieee_fraction(v) != 0
}

/// The double is +0 or -0.
pub open spec fn ieee_is_zero(v: u64) -> bool {
    (v as nat) % 0x8000_0000_0000_0000 == 0
}

/// The double is below zero.
pub open spec fn ieee_is_negative(v: u64) -> bool {
    v >= 0x8000_0000_0000_0000 && !ieee_is_nan(v)
}

/// The binary exponent written for a double: its exponent field, unbiased,
/// for a 53-bit integral mantissa.
pub open spec fn real_exponent(v: u64) -> int {
    ieee_biased_exponent(v) - 1075
}

/// The mantissa written for a double: its fraction with the leading bit.
pub open spec fn real_mantissa(v: u64) -> nat {
    ieee_fraction(v) + 0x10_0000_0000_0000
}

/// The header byte written for a double: binary encoding, the sign, and
/// the exponent length.
pub open spec fn real_header(v: u64) -> nat {
    let el = sint_bytes(real_exponent(v));
    0x80 + (if ieee_is_negative(v) { 0x40nat } else { 0 }) + (if el == 2 {
        1nat
    } else if el == 3 {
        2nat
    } else {
        0
    })
}

/// The bits of the binary encoding of the double with bit pattern `v`.
pub open spec fn real_bits(v: u64) -> Seq<bool> {
    if ieee_is_zero(v) {
        nat_bits(0, 8)
    } else if v == PLUS_INFINITY_BITS {
        nat_bits(1, 8) + nat_bits(0x40, 8)
    } else if v == MINUS_INFINITY_BITS {
        nat_bits(1, 8) + nat_bits(0x41, 8)
    } else {
        let e = real_exponent(v);
        let m = real_mantissa(v);
        let el = sint_bytes(e);
        let ml = uint_bytes(m);
        nat_bits(1 + el + ml, 8) + nat_bits(real_header(v), 8) + twos_bits(e, 8 * el) + nat_bits(m, 8 * ml)
    }
}

/// The sizes of the parts of an encoding.
pub proof fn lemma_real_bits_len(v: u64)
    ensures
        real_bits(v).len() <= 8 * 13,
        real_bits(v).len() % 8 == 0,
        !ieee_is_zero(v) && v != PLUS_INFINITY_BITS && v != MINUS_INFINITY_BITS ==> {
            &&& 1 <= sint_bytes(real_exponent(v)) <= 2
            &&& uint_bytes(real_mantissa(v)) <= 7
            &&& real_bits(v).len() == 8 * (2 + sint_bytes(real_exponent(v)) + uint_bytes(real_mantissa(v)))
        },
{
    lemma_nat_bits_len(0, 8);
    lemma_nat_bits_len(1, 8);
    lemma_nat_bits_len(0x40, 8);
    lemma_nat_bits_len(0x41, 8);
    if !ieee_is_zero(v) && v != PLUS_INFINITY_BITS && v != MINUS_INFINITY_BITS {
        let e = real_exponent(v);
        let m = real_mantissa(v);
        lemma_sint_bytes_bound(e);
        lemma_uint_bytes_bound(m);
        lemma_exponent_bytes(e);
        lemma_mantissa_bytes(m);
        let el = sint_bytes(e);
        let ml = uint_bytes(m);
        lemma_nat_bits_len(1 + el + ml, 8);
        lemma_nat_bits_len(real_header(v), 8);
        lemma_nat_bits_len((e % (pow2(8 * el) as int)) as nat, 8 * el);
        lemma_nat_bits_len(m, 8 * ml);
    }
}

/// An exponent between -1075 and 972 takes one or two bytes.
proof fn lemma_exponent_bytes(e: int)
    requires
        -1075 <= e <= 972,
    ensures
        1 <= sint_bytes(e) <= 2,
{
    lemma_sint_bytes_bound(e);
    lemma2_to64();
    if sint_bytes(e) > 2 {
        assert(fits_signed_bytes(e, 2));
        assert(!fits_signed_bytes(e, (sint_bytes(e) - 1) as nat));
        if sint_bytes(e) > 3 {
            assert(fits_signed_bytes(e, (sint_bytes(e) - 1) as nat)) by {
                lemma_pow2_strictly_increases(15, (8 * (sint_bytes(e) - 1) - 1) as nat);
            }
        }
    }
}

/// A mantissa below `2^53` takes at most seven bytes.
proof fn lemma_mantissa_bytes(m: nat)
    requires
        m < 0x20_0000_0000_0000,
    ensures
        uint_bytes(m) <= 7,
{
    lemma_uint_bytes_bound(m);
    lemma2_to64();
    lemma2_to64_rest();
    if uint_bytes(m) > 7 {
        assert(m > 255);
        lemma_pow2_strictly_increases(53, (8 * (uint_bytes(m) - 1)) as nat);
    }
}

impl BitStream {
    /// Write the double with bit pattern `v` in the binary REAL encoding:
    /// zero as a length byte of 0, the infinities as a length byte of 1
    /// and a header of 0x40 or 0x41, other values as a length byte, a
    /// header, the exponent and the mantissa.
    pub fn encode_real(&mut self, v: u64)
        requires
            old(self).wf(),
            old(self).remaining() >= real_bits(v).len(),
        ensures
            final(self).wrote(*old(self), real_bits(v)),
    {
        let ghost s0 = *self;
        proof {
            lemma_real_bits_len(v);
            lemma_nat_bits_len(0, 8);
            lemma_nat_bits_len(1, 8);
        }
        if v & 0x7FFF_FFFF_FFFF_FFFF == 0 {
            proof {
                assert((v & 0x7FFF_FFFF_FFFF_FFFF == 0) == (v % 0x8000_0000_0000_0000 == 0)) by (bit_vector);
            }
            self.append_byte0(0);
            return;
        }
        proof {
            assert((v & 0x7FFF_FFFF_FFFF_FFFF == 0) == (v % 0x8000_0000_0000_0000 == 0)) by (bit_vector);
        }
        if v == PLUS_INFINITY_BITS || v == MINUS_INFINITY_BITS {
            self.append_byte0(1);
            let ghost s1 = *self;
            let h: u8 = if v == PLUS_INFINITY_BITS { 0x40 } else { 0x41 };
            self.append_byte0(h);
            proof {
                lemma_nat_bits_len(h as nat, 8);
                lemma_wrote_concat(s0, s1, *self, nat_bits(1, 8), nat_bits(h as nat, 8));
            }
            return;
        }
        let biased: u64 = (v >> 52u64) & 0x7FF;
        let fraction: u64 = v & 0x000F_FFFF_FFFF_FFFF;
        proof {
            assert(biased == (v / 0x10_0000_0000_0000) % 2048) by (bit_vector)
                requires
                    biased == (v >> 52u64) & 0x7FF,
            ;
            assert(fraction == v % 0x10_0000_0000_0000) by (bit_vector)
                requires
                    fraction == v & 0x000F_FFFF_FFFF_FFFF,
            ;
        }
        let is_nan = biased == 0x7FF && fraction != 0;
        let negative = v >= 0x8000_0000_0000_0000 && !is_nan;
        let exponent: i64 = biased as i64 - 1075;
        let mantissa: u64 = fraction | 0x0010_0000_0000_0000;
        proof {
            assert(mantissa == fraction + 0x10_0000_0000_0000) by (bit_vector)
                requires
                    mantissa == fraction | 0x0010_0000_0000_0000,
                    fraction < 0x10_0000_0000_0000,
            ;
        }
        let n_exp_len = get_length_in_bytes_of_sint(exponent);
        let n_man_len = get_length_in_bytes_of_uint(mantissa);
        let mut header: u8 = 0x80;
        if negative {
            header = header | 0x40;
        }
        if n_exp_len == 2 {
            header = header | 1;
        } else if n_exp_len == 3 {
            header = header | 2;
        }
        proof {
            assert(header as nat == real_header(v)) by {
                if negative {
                    assert(0x80u8 | 0x40u8 == 0xC0u8) by (bit_vector);
                    assert(0xC0u8 | 1u8 == 0xC1u8) by (bit_vector);
                    assert(0xC0u8 | 2u8 == 0xC2u8) by (bit_vector);
                } else {
                    assert(0x80u8 | 1u8 == 0x81u8) by (bit_vector);
                    assert(0x80u8 | 2u8 == 0x82u8) by (bit_vector);
                }
            }
        }
        proof {
            assert(!ieee_is_zero(v));
            assert(ieee_biased_exponent(v) == biased);
            assert(real_exponent(v) == exponent);
            assert(real_mantissa(v) == mantissa);
            assert(real_bits(v).len() == 8 * (2 + n_exp_len + n_man_len));
        }
        let e_len = n_exp_len as u8;
        let m_len = n_man_len as u8;
        proof {
            lemma_nat_bits_len((1 + e_len + m_len) as nat, 8);
            lemma_nat_bits_len(header as nat, 8);
        }
        self.append_byte0(1 + e_len + m_len);
        let ghost s1 = *self;
        self.append_byte0(header);
        let ghost s2 = *self;
        proof {
            lemma_sint_bytes_bound(exponent as int);
            lemma_pow2_unfold(8 * n_exp_len as nat);
            lemma_num_bits_le(magnitude(exponent as int), (8 * n_exp_len - 1) as nat);
            assert(twos_width(exponent as int, 8 * n_exp_len) == 8 * n_exp_len);
            lemma_nat_bits_len(((exponent as int) % (pow2((8 * n_exp_len) as nat) as int)) as nat, (8 * n_exp_len) as nat);
        }
        acn_enc_int_twos_complement_const_size(self, exponent, 8 * n_exp_len);
        let ghost s3 = *self;
        proof {
            lemma_uint_bytes_bound(mantissa as nat);
            lemma_num_bits_le(mantissa as nat, 8 * n_man_len as nat);
        }
        acn_enc_int_positive_integer_const_size(self, mantissa, 8 * n_man_len);
        proof {
            let a = nat_bits((1 + e_len + m_len) as nat, 8);
            let h = nat_bits(header as nat, 8);
            let x = twos_bits(exponent as int, (8 * n_exp_len) as nat);
            let y = nat_bits(mantissa as nat, (8 * n_man_len) as nat);
            lemma_nat_bits_len((1 + e_len + m_len) as nat, 8);
            lemma_nat_bits_len(header as nat, 8);
            lemma_nat_bits_len(mantissa as nat, (8 * n_man_len) as nat);
            lemma_wrote_concat(s0, s1, s2, a, h);
            lemma_wrote_concat(s0, s2, s3, a + h, x);
            lemma_wrote_concat(s0, s3, *self, a + h + x, y);
        }
    }
}

/// The exponent multiplier of a header: 3 for base 8, 4 for base 16, 1 for base 2.
pub open spec fn exp_factor(h: nat) -> int {
    if (h / 16) % 2 == 1 {
        3
    } else if (h / 32) % 2 == 1 {
        4
    } else {
        1
    }
}

/// The scale of the mantissa of a header: `2^F`.
pub open spec fn mantissa_factor(h: nat) -> nat {
    pow2((h / 4) % 4)
}

/// Decoding a REAL from the bytes `a`: the value and the number of bytes
/// read.  The length byte counts the bytes that follow it; a length of 0 is
/// zero; a header of 0x40 or 0x41 is an infinity; otherwise the header
/// gives the sign, the base, the scale and the exponent length, and the
/// mantissa takes the remaining bytes (its value and its scaling wrap as
/// unsigned 64-bit arithmetic does).
pub open spec fn spec_dec_real(a: Seq<u8>) -> Option<(DecodedReal, nat)> {
    if a.len() < 1 {
        None
    } else if a[0] == 0 {
        Some((DecodedReal::Zero, 1))
    } else if a.len() < 2 {
        None
    } else if a[1] == 0x40 {
        Some((DecodedReal::PlusInfinity, 2))
    } else if a[1] == 0x41 {
        Some((DecodedReal::MinusInfinity, 2))
    } else {
        let l = a[0] as int;
        let h = a[1] as nat;
        let el = (h % 4 + 1) as int;
        if el > l - 1 {
            None
        } else if a.len() < l + 1 {
            None
        } else {
            let e = sign_extend(be_value(a.subrange(2, 2 + el)), (8 * el) as nat) * exp_factor(h);
            let n = be_value(a.subrange(2 + el, l + 1)) % 0x1_0000_0000_0000_0000;
            let m = (n * mantissa_factor(h)) % 0x1_0000_0000_0000_0000;
            Some(
                (
                    DecodedReal::Binary { negative: (h / 64) % 2 == 1, mantissa: m as u64, exponent: e as i64 },
                    (l + 1) as nat,
                ),
            )
        }
    }
}

/// One more byte of a two's complement number read most significant first.
proof fn lemma_sign_extend_step(x: nat, i: nat, b: nat)
    requires
        1 <= i,
        x < pow2(8 * i),
        b < 256,
    ensures
        sign_extend(x, 8 * i) * 256 + b == sign_extend(x * 256 + b, 8 * (i + 1)),
        x * 256 + b < pow2(8 * (i + 1)),
{
    let k = 8 * i;
    lemma_pow2_adds(k, 8);
    lemma_pow2_adds((k - 1) as nat, 8);
    lemma2_to64();
    assert((k - 1) as nat + 8 == (8 * (i + 1) - 1) as nat);
    assert(k + 8 == 8 * (i + 1));
    lemma_pow2_pos(k);
    lemma_pow2_pos((k - 1) as nat);
    assert(x * 256 + b < pow2(8 * (i + 1))) by (nonlinear_arith)
        requires
            x < pow2(k),
            b < 256,
            pow2(8 * (i + 1)) == pow2(k) * 256,
    ;
    assert((x >= pow2((k - 1) as nat)) == (x * 256 + b >= pow2((8 * (i + 1) - 1) as nat))) by (nonlinear_arith)
        requires
            b < 256,
            pow2((8 * (i + 1) - 1) as nat) == pow2((k - 1) as nat) * 256,
    ;
}

/// `n` scaled by `2^f` (f at most 3), wrapping as unsigned 64-bit
/// arithmetic does.
fn scale_mantissa(n: u64, f: u64) -> (r: u64)
    requires
        f <= 3,
    ensures
        r == (n * pow2(f as nat)) % 0x1_0000_0000_0000_0000,
{
    proof {
        lemma2_to64();
    }
    if f == 0 {
        assert((n << 0u64) == n) by (bit_vector);
        proof {
            vstd::arithmetic::div_mod::lemma_small_mod(n as nat, 0x1_0000_0000_0000_0000);
        }
    } else if f == 1 {
        assert((n << 1u64) == (n * 2) % 0x1_0000_0000_0000_0000) by (bit_vector);
    } else if f == 2 {
        assert((n << 2u64) == (n * 4) % 0x1_0000_0000_0000_0000) by (bit_vector);
    } else {
        assert((n << 3u64) == (n * 8) % 0x1_0000_0000_0000_0000) by (bit_vector);
    }
    n << f
}

impl BitStream {
    /// Read a REAL written in the binary encoding.
    pub fn decode_real(&mut self) -> (r: (DecodedReal, bool))
        requires
            old(self).wf(),
        ensures
            match spec_dec_real(octets_at(old(self).bits(), old(self).pos())) {
                Some((d, k)) => r.1 && r.0 == d && final(self).advanced(*old(self), (8 * k) as int),
                None => !r.1 && r.0 == DecodedReal::Zero && final(self).same_buffer(*old(self)),
            },
    {
        let ghost s0 = *self;
        let ghost a = octets_at(s0.bits(), s0.pos());
        let (length, ok) = self.read_byte();
        if !ok {
            proof {
                lemma_no_octet(s0, s0, 0);
            }
            return (DecodedReal::Zero, false);
        }
        proof {
            lemma_read_octet(s0, s0, 0, length);
        }
        if length == 0 {
            return (DecodedReal::Zero, true);
        }
        let ghost s1 = *self;
        let (header, ok) = self.read_byte();
        if !ok {
            proof {
                lemma_no_octet(s0, s1, 1);
            }
            return (DecodedReal::Zero, false);
        }
        proof {
            lemma_read_octet(s0, s1, 1, header);
        }
        if header == 0x40 {
            return (DecodedReal::PlusInfinity, true);
        }
        if header == 0x41 {
            return (DecodedReal::MinusInfinity, true);
        }
        let len: i32 = length as i32 - 1;
        let negative = (header & 0x40) != 0;
        let exp_mult: i64 = if (header & 0x10) != 0 {
            3
        } else if (header & 0x20) != 0 {
            4
        } else {
            1
        };
        let f: u64 = ((header & 0x0C) >> 2u8) as u64;
        let exp_len: i32 = (header & 0x03) as i32 + 1;
        proof {
            assert((header & 0x40 != 0) == ((header / 64) % 2 == 1)) by (bit_vector);
            assert((header & 0x10 != 0) == ((header / 16) % 2 == 1)) by (bit_vector);
            assert((header & 0x20 != 0) == ((header / 32) % 2 == 1)) by (bit_vector);
            assert(((header & 0x0C) >> 2u8) == (header / 4) % 4) by (bit_vector);
            assert((header & 0x03) == header % 4) by (bit_vector);
        }
        if exp_len > len {
            return (DecodedReal::Zero, false);
        }
        let mut exponent: i64 = 0;
        let mut i: i32 = 0;
        while i < exp_len
            invariant
                a.len() >= 2,
                a[0] == length,
                a[1] == header,
                length != 0,
                header != 0x40,
                header != 0x41,
                exp_len == header % 4 + 1,
                negative == ((header / 64) % 2 == 1),
                exp_mult == exp_factor(header as nat),
                f == (header / 4) % 4,
                0 <= i <= exp_len <= 4,
                exp_len <= len,
                len == length - 1,
                s0 == *old(self),
                s0.wf(),
                a == octets_at(s0.bits(), s0.pos()),
                2 + i <= a.len() || i == 0 && 2 <= a.len(),
                self.advanced(s0, 8 * (2 + i)),
                i == 0 ==> exponent == 0,
                i > 0 ==> exponent == sign_extend(be_value(a.subrange(2, 2 + i)), 8 * i as nat),
                i > 0 ==> be_value(a.subrange(2, 2 + i)) < pow2(8 * i as nat),
            decreases exp_len - i,
        {
            let ghost s2 = *self;
            let (b, ok) = self.read_byte();
            if !ok {
                proof {
                    lemma_no_octet(s0, s2, 2 + i);
                }
                return (DecodedReal::Zero, false);
            }
            proof {
                lemma_read_octet(s0, s2, 2 + i, b);
                let pre = a.subrange(2, 2 + i);
                assert(a.subrange(2, 2 + i + 1).drop_last() =~= pre);
                lemma2_to64();
                if i > 0 {
                    lemma_sign_extend_step(be_value(pre), i as nat, b as nat);
                    lemma_pow2_pos(8 * i as nat);
                    assert(pow2(8 * i as nat) <= pow2(32)) by {
                        if i < 4 {
                            lemma_pow2_strictly_increases(8 * i as nat, 32);
                        }
                    }
                } else {
                    assert(pre =~= Seq::<u8>::empty());
                    assert(be_value(pre) == 0);
                    assert(be_value(a.subrange(2, 3)) == b);
                }
            }
            if i == 0 && b > 0x7F {
                exponent = -1;
            }
            exponent = exponent * 256 + b as i64;
            i = i + 1;
        }
        let ghost el = exp_len as int;
        let ghost eb = a.subrange(2, 2 + el);
        let man_len: i32 = len - exp_len;
        let mut n: u64 = 0;
        let mut j: i32 = 0;
        proof {
            assert(a.subrange(2 + el, 2 + el) =~= Seq::<u8>::empty());
        }
        while j < man_len
            invariant
                a.len() >= 2,
                a[0] == length,
                a[1] == header,
                length != 0,
                header != 0x40,
                header != 0x41,
                exp_len == header % 4 + 1,
                negative == ((header / 64) % 2 == 1),
                exp_mult == exp_factor(header as nat),
                f == (header / 4) % 4,
                0 <= j <= man_len,
                man_len == len - exp_len,
                el == exp_len,
                1 <= exp_len <= 4,
                len == length - 1,
                s0 == *old(self),
                s0.wf(),
                a == octets_at(s0.bits(), s0.pos()),
                2 + el + j <= a.len(),
                self.advanced(s0, 8 * (2 + el + j)),
                n == be_value(a.subrange(2 + el, 2 + el + j)) % 0x1_0000_0000_0000_0000,
                exponent == sign_extend(be_value(eb), 8 * el as nat),
                be_value(eb) < pow2(8 * el as nat),
                eb == a.subrange(2, 2 + el),
            decreases man_len - j,
        {
            let ghost s2 = *self;
            let (b, ok) = self.read_byte();
            if !ok {
                proof {
                    lemma_no_octet(s0, s2, 2 + el + j);
                }
                return (DecodedReal::Zero, false);
            }
            proof {
                lemma_read_octet(s0, s2, 2 + el + j, b);
                let pre = a.subrange(2 + el, 2 + el + j);
                assert(a.subrange(2 + el, 2 + el + j + 1).drop_last() =~= pre);
                let x = be_value(pre);
                assert(((n << 8u64) | (b as u64)) == (n * 256 + b) % 0x1_0000_0000_0000_0000) by (bit_vector);
                vstd::arithmetic::div_mod::lemma_add_mod_noop((x * 256) as int, b as int, 0x1_0000_0000_0000_0000);
                vstd::arithmetic::div_mod::lemma_mul_mod_noop_left(x as int, 256, 0x1_0000_0000_0000_0000);
                vstd::arithmetic::div_mod::lemma_add_mod_noop(((x % 0x1_0000_0000_0000_0000) * 256) as int, b as int, 0x1_0000_0000_0000_0000);
            }
            n = (n << 8u64) | (b as u64);
            j = j + 1;
        }
        let mantissa: u64 = scale_mantissa(n, f);
        proof {
            lemma2_to64();
            if el < 4 {
                lemma_pow2_strictly_increases(8 * el as nat, 32);
            }
            lemma_pow2_pos((8 * el - 1) as nat);
            assert(2 + el + man_len == length + 1);
        }
        proof {
            let x = be_value(eb);
            assert(-pow2(31) <= sign_extend(x, 8 * el as nat) < pow2(31)) by {
                lemma_pow2_pos((8 * el) as nat);
                if el < 4 {
                    lemma_pow2_strictly_increases((8 * el - 1) as nat, 31);
                }
            }
            assert(-0x2_0000_0000 <= exponent * exp_mult <= 0x2_0000_0000) by (nonlinear_arith)
                requires
                    -0x8000_0000 <= exponent < 0x8000_0000,
                    1 <= exp_mult <= 4,
            ;
        }
        let e: i64 = exponent * exp_mult;
        proof {
            let h = header as nat;
            let l = length as int;
            assert(el == (h % 4 + 1) as int);
            assert(!(el > l - 1));
            assert(!(a.len() < l + 1));
            assert(a.subrange(2 + el, 2 + el + man_len) == a.subrange(2 + el, l + 1));
            assert(n == be_value(a.subrange(2 + el, l + 1)) % 0x1_0000_0000_0000_0000);
            assert(mantissa_factor(h) == pow2(f as nat));
            assert(mantissa == (n * mantissa_factor(h)) % 0x1_0000_0000_0000_0000);
            assert(e == sign_extend(be_value(a.subrange(2, 2 + el)), (8 * el) as nat) * exp_factor(h));
        }
        (DecodedReal::Binary { negative, mantissa, exponent: e }, true)
    }
}

} // verus!
