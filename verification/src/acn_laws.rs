//! What the ACN decoders give back of what the ACN encoders wrote: each
//! law decodes, at the position where an encoder wrote, the bits that it
//! wrote, whatever surrounds them.
use vstd::prelude::*;
use vstd::arithmetic::div_mod::*;
use vstd::arithmetic::power2::*;
use crate::bits::{
    bits_value, lemma_bits_value_nat_bits_small, lemma_nat_bits_len, lemma_num_bits_bound,
    lemma_num_bits_le, lemma_splice_read, lemma_splice_splice, octet_bits, lemma_octet_bits_len, le_bits, le_value, nat_bits, num_bits, splice,
    lemma_le_bits_len, lemma_le_value_le_bits, lemma_nat_bits_split, lemma_bits_value_nat_bits,
};
use crate::bitstream::{char_index, char_index_from, low_word, BitStream};
use crate::acn_string::{
    char_index_bits, char_indices_ok, cstr, cstr_len, index_at, index_chars, index_width, lemma_char_index_bits_len,
    lemma_cstr_len, mult_scan, null_scan, octets_at,
};
use crate::acn_patch::{
    det_bits_i16_be, det_bits_i32_be, det_bits_i64_be, det_bits_i8, det_bits_u16_be, det_bits_u16_le,
    det_bits_u32_be, det_bits_u32_le, det_bits_u64_be, det_bits_u64_le, det_bits_u8, patched, AcnBitStreamPos,
};
use crate::octets::{
    fits_signed_bytes, lemma_sint_bytes_bound, wrap_i64, lemma_uint_bytes_bound, sign_extend, sint_bytes,
    uint_bytes, wrap_u64,
};
use crate::ber_laws::lemma_sign_extend_wrap;
use crate::acn_decimal::{
    abs_value, all_digits, ascii_digits_bits, bcd_null_bits, bcd_size, bcd_terminator, bcd_var_bits,
    dec_value, digit_bits, digit_values, div10k, lemma_digit_bits_len, num_digits, pow10, sign_char,
    spec_dec_bcd, spec_dec_bcd_null, spec_dec_bcd_var, spec_dec_decimal, spec_dec_sint_ascii,
    spec_dec_uint_ascii, symbol_at, symbols, spec_dec_uint_ascii_var, spec_dec_sint_ascii_var,
    spec_dec_uint_ascii_null, spec_dec_sint_ascii_null, window_is, ascii_terminator, terminator_prefix,
};
use crate::acn_int::{
    lemma_field_readers_small, spec_dec_sint_field, spec_dec_uint_field,
    magnitude, milbus_value, milbus_word, pos_const_width, spec_dec_sint, spec_dec_sint_le, spec_dec_sint_var, spec_dec_uint,
    spec_dec_uint_le, spec_dec_uint_var, twos_bits, twos_width, var_sint_bits, var_uint_bits,
};

verus! {

broadcast use lemma_nat_bits_len;

/// What a write leaves at its position is what it wrote.
pub proof fn law_read_after_write(s0: BitStream, s1: BitStream, s: Seq<bool>)
    requires
        s0.wf(),
        s0.remaining() >= s.len(),
        s1.wrote(s0, s),
    ensures
        s1.bits().subrange(s0.pos(), s0.pos() + s.len()) == s,
        s1.bits().len() == s0.bits().len(),
{
    lemma_splice_read(s0.bits(), s0.pos(), s);
}

/// The bit pattern of a single or a double precision value, written in
/// either octet order, is read back unchanged by the decoder of the same
/// width and order.
pub proof fn law_ieee754_roundtrip(b: Seq<bool>, p: int, single: u32, double: u64)
    requires
        0 <= p,
        p + 64 <= b.len(),
    ensures
        spec_dec_uint(splice(b, p, nat_bits(single as nat, 32)), p, 32) == Some((single as int, 32int)),
        spec_dec_uint(splice(b, p, nat_bits(double as nat, 64)), p, 64) == Some((double as int, 64int)),
        spec_dec_uint_le(splice(b, p, le_bits(single as nat, 4)), p, 4) == Some((single as int, 32int)),
        spec_dec_uint_le(splice(b, p, le_bits(double as nat, 8)), p, 8) == Some((double as int, 64int)),
{
    lemma2_to64();
    lemma_splice_read(b, p, nat_bits(single as nat, 32));
    lemma_bits_value_nat_bits_small(single as nat, 32);
    lemma_splice_read(b, p, nat_bits(double as nat, 64));
    lemma_bits_value_nat_bits_small(double as nat, 64);
    law_uint_little_endian_roundtrip(b, p, single as nat, 4);
    law_uint_little_endian_roundtrip(b, p, double as nat, 8);
}

/// An unsigned integer below `2^n` (and below `2^64`) written in a
/// constant-size field of `n` bits reads back as itself, consuming the
/// field, whatever the field's size.
pub proof fn law_uint_const_size_roundtrip(b: Seq<bool>, p: int, v: nat, n: nat)
    requires
        0 <= p,
        p + n <= b.len(),
        v < pow2(n),
        v < 0x1_0000_0000_0000_0000,
    ensures
        pos_const_width(v, n as int) == n,
        spec_dec_uint_field(splice(b, p, nat_bits(v, pos_const_width(v, n as int))), p, n as int) == Some(
            (v as int, n as int),
        ),
{
    lemma_num_bits_le(v, n);
    lemma2_to64();
    lemma_splice_read(b, p, nat_bits(v, n));
    if n <= 64 {
        lemma_field_readers_small(splice(b, p, nat_bits(v, n)), p, n as int);
        lemma_bits_value_nat_bits_small(v, n);
    } else {
        let m = (n - 64) as nat;
        lemma_nat_bits_split(v, m, 64);
        assert(low_word(nat_bits(v, n)) =~= nat_bits(v, 64));
        lemma_bits_value_nat_bits_small(v, 64);
    }
}

/// An unsigned integer below `2^(8k)` written in `k` bytes, least
/// significant first, reads back as itself.
pub proof fn law_uint_little_endian_roundtrip(b: Seq<bool>, p: int, v: nat, k: nat)
    requires
        0 <= p,
        p + 8 * k <= b.len(),
        v < pow2(8 * k),
    ensures
        spec_dec_uint_le(splice(b, p, le_bits(v, k)), p, k as int) == Some((v as int, 8 * k as int)),
{
    lemma_le_bits_len(v, k);
    lemma_splice_read(b, p, le_bits(v, k));
    lemma_le_value_le_bits(v, k);
    lemma_small_mod(v, pow2(8 * k));
}

/// An unsigned 64-bit integer written with its byte count reads back as itself.
pub proof fn law_uint_var_size_roundtrip(b: Seq<bool>, p: int, v: u64)
    requires
        0 <= p,
        p + var_uint_bits(v as nat).len() <= b.len(),
    ensures
        spec_dec_uint_var(splice(b, p, var_uint_bits(v as nat)), p) == Some(
            (v as int, var_uint_bits(v as nat).len() as int),
        ),
{
    let l = uint_bytes(v as nat);
    let s = var_uint_bits(v as nat);
    let t = splice(b, p, s);
    lemma_uint_bytes_bound(v as nat);
    lemma_splice_read(b, p, s);
    assert(t.subrange(p, p + 8) =~= nat_bits(l, 8));
    assert(t.subrange(p + 8, p + 8 + 8 * l) =~= nat_bits(v as nat, 8 * l));
    lemma2_to64();
    lemma_bits_value_nat_bits_small(l, 8);
    lemma_bits_value_nat_bits_small(v as nat, 8 * l);
}

/// A signed integer that fits in `n` bits of two's complement (1 to 64),
/// written in a constant-size field of `n` bits, reads back as itself.
pub proof fn law_sint_const_size_roundtrip(b: Seq<bool>, p: int, v: int, n: nat)
    requires
        0 <= p,
        p + n <= b.len(),
        1 <= n <= 64,
        -pow2((n - 1) as nat) <= v < pow2((n - 1) as nat),
    ensures
        twos_width(v, n as int) == n,
        spec_dec_sint(splice(b, p, twos_bits(v, twos_width(v, n as int))), p, n as int) == Some(
            (v, n as int),
        ),
        spec_dec_sint_field(splice(b, p, twos_bits(v, twos_width(v, n as int))), p, n as int) == Some(
            (v, n as int),
        ),
{
    let n1 = (n - 1) as nat;
    lemma_pow2_unfold(n);
    lemma_pow2_pos(n1);
    lemma_num_bits_le(magnitude(v), n1);
    let u = (v % (pow2(n) as int)) as nat;
    lemma_splice_read(b, p, nat_bits(u, n));
    lemma_bits_value_nat_bits_small(u, n);
    if v >= 0 {
        lemma_small_mod(v as nat, pow2(n));
    } else {
        lemma_fundamental_div_mod_converse(v, pow2(n) as int, -1, v + pow2(n));
    }
    lemma_field_readers_small(splice(b, p, nat_bits(u, n)), p, n as int);
}

/// A signed integer that fits in `k` bytes of two's complement, written in
/// `k` bytes least significant first, reads back as itself.
pub proof fn law_sint_little_endian_roundtrip(b: Seq<bool>, p: int, v: int, k: nat)
    requires
        0 <= p,
        p + 8 * k <= b.len(),
        1 <= k <= 8,
        fits_signed_bytes(v, k),
    ensures
        spec_dec_sint_le(splice(b, p, le_bits(wrap_u64(v), k)), p, k as int) == Some((v, 8 * k as int)),
{
    lemma_le_bits_len(wrap_u64(v), k);
    lemma_splice_read(b, p, le_bits(wrap_u64(v), k));
    lemma_le_value_le_bits(wrap_u64(v), k);
    lemma_sign_extend_wrap(v, k);
}

/// A signed 64-bit integer written in `k` bytes of two's complement, most
/// significant first, reads back as itself when it fits.
pub proof fn law_sint_big_endian_roundtrip(b: Seq<bool>, p: int, v: int, k: nat)
    requires
        0 <= p,
        p + 8 * k <= b.len(),
        1 <= k <= 8,
        fits_signed_bytes(v, k),
    ensures
        spec_dec_sint(splice(b, p, nat_bits(wrap_u64(v), 8 * k)), p, 8 * k as int) == Some((v, 8 * k as int)),
{
    lemma_splice_read(b, p, nat_bits(wrap_u64(v), 8 * k));
    crate::bits::lemma_bits_value_nat_bits(wrap_u64(v), 8 * k);
    lemma_sign_extend_wrap(v, k);
}

/// A signed 64-bit integer written with its byte count reads back as itself.
#[verifier::spinoff_prover]
#[verifier::rlimit(40)]
pub proof fn law_sint_var_size_roundtrip(b: Seq<bool>, p: int, v: i64)
    requires
        0 <= p,
        p + var_sint_bits(v as int).len() <= b.len(),
    ensures
        spec_dec_sint_var(splice(b, p, var_sint_bits(v as int)), p) == Some(
            (v as int, var_sint_bits(v as int).len() as int),
        ),
{
    let l = sint_bytes(v as int);
    let s = var_sint_bits(v as int);
    let t = splice(b, p, s);
    lemma_sint_bytes_bound(v as int);
    lemma_splice_read(b, p, s);
    assert(t.subrange(p, p + 8) =~= nat_bits(l, 8));
    assert(t.subrange(p + 8, p + 8 + 8 * l) =~= nat_bits(wrap_u64(v as int), 8 * l));
    lemma2_to64();
    lemma_bits_value_nat_bits_small(l, 8);
    crate::bits::lemma_bits_value_nat_bits(wrap_u64(v as int), 8 * l);
    lemma_sign_extend_wrap(v as int, l);
}

// ─── Decimal digits ───────────────────────────────────────────────────

/// The `n` low decimal digits of `v`, most significant first.
pub open spec fn decimal_digits_of(v: nat, n: nat) -> Seq<nat> {
    Seq::new(n, |j: int| div10k(v, (n - 1 - j) as nat) % 10)
}

proof fn lemma_div10k_shift(v: nat, k: nat)
    ensures
        div10k(v / 10, k) == div10k(v, k + 1),
    decreases k,
{
    if k > 0 {
        lemma_div10k_shift(v, (k - 1) as nat);
        assert(div10k(v, k + 1) == div10k(v, k) / 10);
    } else {
        assert(div10k(v, 0) == v);
        assert(div10k(v, 1) == div10k(v, 0) / 10);
    }
}

/// The symbol of `w` bits at index `i` of the digits of `v`.
proof fn lemma_digit_chunk(v: nat, n: nat, w: nat, off: nat, i: int)
    requires
        0 <= i < n,
        off + 9 < pow2(w),
    ensures
        digit_bits(v, n, w, off).len() == w * n,
        bits_value(digit_bits(v, n, w, off).subrange(w * i, w * i + w)) == off + div10k(v, (n - 1 - i) as nat)
            % 10,
    decreases n,
{
    let n1 = (n - 1) as nat;
    let pre = digit_bits(v / 10, n1, w, off);
    let last = nat_bits(off + v % 10, w);
    lemma_digit_bits_len(v, n, w, off);
    lemma_digit_bits_len(v / 10, n1, w, off);
    assert(digit_bits(v, n, w, off) == pre + last);
    assert(w * n1 + w == w * n) by (nonlinear_arith)
        requires
            n1 + 1 == n,
    ;
    if i == n1 {
        assert(w * i == w * n1);
        assert((pre + last).subrange(w * i, w * i + w) =~= last);
        lemma_bits_value_nat_bits_small(off + v % 10, w);
    } else {
        lemma_digit_chunk(v / 10, n1, w, off, i);
        assert(w * i + w <= w * n1) by (nonlinear_arith)
            requires
                i + 1 <= n1,
                w >= 0,
        ;
        assert((pre + last).subrange(w * i, w * i + w) =~= pre.subrange(w * i, w * i + w));
        lemma_div10k_shift(v, (n1 - 1 - i) as nat);
        assert((n1 - 1 - i) as nat + 1 == (n - 1 - i) as nat);
    }
}

/// The value of the `n` low decimal digits of `v` is `v` modulo `10^n`.
proof fn lemma_dec_value_digits(v: nat, n: nat)
    ensures
        dec_value(decimal_digits_of(v, n)) == v % pow10(n),
        pow10(n) > 0,
    decreases n,
{
    if n == 0 {
        assert(decimal_digits_of(v, 0) =~= Seq::<nat>::empty());
    } else {
        let n1 = (n - 1) as nat;
        lemma_dec_value_digits(v / 10, n1);
        let d = decimal_digits_of(v, n);
        assert forall|j: int| 0 <= j < n1 implies #[trigger] d.drop_last()[j] == decimal_digits_of(v / 10, n1)[j] by {
            lemma_div10k_shift(v, (n1 - 1 - j) as nat);
            assert((n1 - 1 - j) as nat + 1 == (n - 1 - j) as nat);
        }
        assert(d.drop_last() =~= decimal_digits_of(v / 10, n1));
        assert(d.last() == v % 10);
        lemma_mod_breakdown(v as int, 10, pow10(n1) as int);
    }
}

/// A number has no more digits than `n` exactly when it is below `10^n`.
proof fn lemma_bcd_size_bound(v: nat, n: nat)
    requires
        bcd_size(v) <= n,
    ensures
        v < pow10(n),
    decreases v,
{
    if v > 0 {
        lemma_bcd_size_bound(v / 10, (n - 1) as nat);
    } else {
        lemma_pow10_pos(n);
    }
}

proof fn lemma_pow10_pos(n: nat)
    ensures
        pow10(n) > 0,
    decreases n,
{
    if n > 0 {
        lemma_pow10_pos((n - 1) as nat);
    }
}

/// The decimal field of `n` digits of `v`, written at `p`, decodes to `v`
/// when `v` has at most `n` digits.
proof fn lemma_decimal_field(b: Seq<bool>, p: int, v: u64, n: nat, w: nat, off: nat)
    requires
        0 <= p,
        p + w * n <= b.len(),
        w == 4 && off == 0 || w == 8 && off == 48,
        bcd_size(v as nat) <= n,
    ensures
        ({
            let t = splice(b, p, digit_bits(v as nat, n, w, off));
            &&& symbols(t, p, n as int, w as int) =~= Seq::new(n, |j: int| off + div10k(v as nat, (n - 1 - j) as nat) % 10)
            &&& spec_dec_decimal(t, p, n as int, w as int, off) == Some((v as int, (w * n) as int))
        }),
{
    let s = digit_bits(v as nat, n, w, off);
    let t = splice(b, p, s);
    lemma2_to64();
    lemma_digit_bits_len(v as nat, n, w, off);
    lemma_splice_read(b, p, s);
    let syms = symbols(t, p, n as int, w as int);
    if w == 4 {
        assert(off + 9 < pow2(w));
    } else {
        assert(off + 9 < pow2(w));
    }
    assert forall|j: int| 0 <= j < n implies #[trigger] syms[j] == off + div10k(v as nat, (n - 1 - j) as nat) % 10 by {
        lemma_digit_chunk(v as nat, n, w, off, j);
        assert(w * j + w <= w * n) by (nonlinear_arith)
            requires
                j + 1 <= n,
                w >= 0,
        ;
        assert(t.subrange(p + w * j, p + w * j + w) =~= s.subrange(w * j, w * j + w));
    }
    assert(digit_values(syms, off) =~= decimal_digits_of(v as nat, n));
    lemma_dec_value_digits(v as nat, n);
    lemma_bcd_size_bound(v as nat, n);
    lemma_small_mod(v as nat, pow10(n));
}

/// A number of at most `n` decimal digits written as `n` BCD nibbles reads
/// back as itself.
pub proof fn law_bcd_const_size_roundtrip(b: Seq<bool>, p: int, v: u64, n: nat)
    requires
        0 <= p,
        p + 4 * n <= b.len(),
        bcd_size(v as nat) <= n,
    ensures
        spec_dec_bcd(splice(b, p, digit_bits(v as nat, n, 4, 0)), p, n as int) == Some((v as int, 4 * n as int)),
{
    lemma_decimal_field(b, p, v, n, 4, 0);
}

/// A number of at most `n` decimal digits written as `n` ASCII digits
/// reads back as itself.
pub proof fn law_uint_ascii_const_size_roundtrip(b: Seq<bool>, p: int, v: u64, n: nat)
    requires
        0 <= p,
        p + 8 * n <= b.len(),
        bcd_size(v as nat) <= n,
    ensures
        spec_dec_uint_ascii(splice(b, p, digit_bits(v as nat, n, 8, 48)), p, n as int) == Some(
            (v as int, 8 * n as int),
        ),
{
    if n > 0 {
        lemma_decimal_field(b, p, v, n, 8, 48);
    } else {
        assert(v == 0);
    }
}

/// An `i64` is its own reduction into the range of `i64`.
proof fn lemma_wrap_i64_id(x: int)
    requires
        -0x8000_0000_0000_0000 <= x < 0x8000_0000_0000_0000,
    ensures
        wrap_i64(x) == x,
{
    if x >= 0 {
        lemma_small_mod(x as nat, 0x1_0000_0000_0000_0000);
    } else {
        lemma_fundamental_div_mod_converse(x, 0x1_0000_0000_0000_0000, -1, x + 0x1_0000_0000_0000_0000);
    }
}

/// The sign character, then the magnitude: the value is the signed number.
proof fn lemma_signed_value(v: i64)
    ensures
        abs_value(v as int) < 0x1_0000_0000_0000_0000,
        wrap_i64(if sign_char(v as int) == 45 { -(abs_value(v as int) as int) } else { abs_value(v as int) as int })
            == v,
        sign_char(v as int) == 43 || sign_char(v as int) == 45,
        sign_char(v as int) < 256,
{
    lemma_wrap_i64_id(v as int);
}

/// A signed number written as a sign character and `n - 1` ASCII digits
/// reads back as itself when its magnitude has at most `n - 1` digits.
pub proof fn law_sint_ascii_const_size_roundtrip(b: Seq<bool>, p: int, v: i64, n: nat)
    requires
        0 <= p,
        p + 8 * n <= b.len(),
        1 <= n,
        bcd_size(abs_value(v as int)) <= n - 1,
    ensures
        spec_dec_sint_ascii(
            splice(b, p, nat_bits(sign_char(v as int), 8) + digit_bits(abs_value(v as int), (n - 1) as nat, 8, 48)),
            p,
            n as int,
        ) == Some((v as int, 8 * n as int)),
{
    let sg = nat_bits(sign_char(v as int), 8);
    let m = (n - 1) as nat;
    let a = abs_value(v as int);
    let ds = digit_bits(a, m, 8, 48);
    lemma_digit_bits_len(a, m, 8, 48);
    lemma_splice_splice(b, p, sg, ds);
    let b1 = splice(b, p, sg);
    let t = splice(b1, p + 8, ds);
    lemma_splice_read(b, p, sg);
    lemma_splice_read(b1, p + 8, ds);
    assert(t.subrange(p, p + 8) =~= b1.subrange(p, p + 8));
    lemma_signed_value(v);
    lemma2_to64();
    lemma_bits_value_nat_bits_small(sign_char(v as int), 8);
    law_uint_ascii_const_size_roundtrip(b1, p + 8, a as u64, m);
}

/// A number of at most 16 decimal digits written with its digit count and
/// its BCD digits reads back as itself.
pub proof fn law_bcd_var_size_roundtrip(b: Seq<bool>, p: int, v: u64)
    requires
        0 <= p,
        p + bcd_var_bits(v as nat).len() <= b.len(),
        bcd_size(v as nat) <= 16,
    ensures
        spec_dec_bcd_var(splice(b, p, bcd_var_bits(v as nat)), p) == Some(
            (v as int, bcd_var_bits(v as nat).len() as int),
        ),
{
    let l = bcd_size(v as nat);
    let hd = nat_bits(l, 8);
    let ds = digit_bits(v as nat, l, 4, 0);
    lemma_digit_bits_len(v as nat, l, 4, 0);
    lemma_splice_splice(b, p, hd, ds);
    let b1 = splice(b, p, hd);
    let t = splice(b1, p + 8, ds);
    lemma_splice_read(b, p, hd);
    lemma_splice_read(b1, p + 8, ds);
    assert(t.subrange(p, p + 8) =~= b1.subrange(p, p + 8));
    lemma2_to64();
    lemma_bits_value_nat_bits_small(l, 8);
    law_bcd_const_size_roundtrip(b1, p + 8, v, l);
}

/// The scan for the terminator finds the first nibble above 9 after digits.
proof fn lemma_bcd_terminator_at(b: Seq<bool>, p: int, i: nat, m: nat)
    requires
        i <= m,
        p + 4 * m + 4 <= b.len(),
        forall|j: int| i <= j < m ==> #[trigger] symbol_at(b, p, 4, j) <= 9,
        symbol_at(b, p, 4, m as int) > 9,
    ensures
        bcd_terminator(b, p, i) == Some(m),
    decreases m - i,
{
    if i < m {
        assert(symbol_at(b, p, 4, i as int) <= 9);
        lemma_bcd_terminator_at(b, p, i + 1, m);
    }
}

/// A number written as its BCD digits and the nibble 0xF reads back as itself.
pub proof fn law_bcd_null_terminated_roundtrip(b: Seq<bool>, p: int, v: u64)
    requires
        0 <= p,
        p + bcd_null_bits(v as nat).len() <= b.len(),
    ensures
        spec_dec_bcd_null(splice(b, p, bcd_null_bits(v as nat)), p) == Some(
            (v as int, bcd_null_bits(v as nat).len() as int),
        ),
{
    let l = bcd_size(v as nat);
    let ds = digit_bits(v as nat, l, 4, 0);
    let tm = nat_bits(15, 4);
    lemma_digit_bits_len(v as nat, l, 4, 0);
    lemma_splice_splice(b, p, ds, tm);
    let b1 = splice(b, p, ds);
    let t = splice(b1, p + 4 * l, tm);
    lemma_splice_read(b, p, ds);
    lemma_splice_read(b1, p + 4 * l, tm);
    lemma_decimal_field(b, p, v, l, 4, 0);
    lemma2_to64();
    lemma_bits_value_nat_bits_small(15, 4);
    assert forall|j: int| 0 <= j < l implies #[trigger] symbol_at(t, p, 4, j) <= 9 by {
        assert(t.subrange(p + 4 * j, p + 4 * j + 4) =~= b1.subrange(p + 4 * j, p + 4 * j + 4));
        assert(symbols(b1, p, l as int, 4)[j] == symbol_at(b1, p, 4, j));
    }
    assert(t.subrange(p + 4 * l, p + 4 * l + 4) =~= tm);
    lemma_bcd_terminator_at(t, p, 0, l);
    assert(symbols(t, p, l as int, 4) =~= symbols(b1, p, l as int, 4)) by {
        assert forall|j: int| 0 <= j < l implies #[trigger] symbols(t, p, l as int, 4)[j] == symbols(b1, p, l as int, 4)[j] by {
            assert(t.subrange(p + 4 * j, p + 4 * j + 4) =~= b1.subrange(p + 4 * j, p + 4 * j + 4));
        }
    }
    lemma_dec_value_digits(v as nat, l);
    lemma_bcd_size_bound(v as nat, l);
    lemma_small_mod(v as nat, pow10(l));
    assert(digit_values(symbols(b1, p, l as int, 4), 0) =~= decimal_digits_of(v as nat, l));
}

/// A number below `10^n` has at most `n` digits.
proof fn lemma_bcd_size_le(v: nat, n: nat)
    requires
        v < pow10(n),
    ensures
        bcd_size(v) <= n,
    decreases v,
{
    if v > 0 {
        if n == 0 {
            assert(false);
        }
        lemma_bcd_size_le(v / 10, (n - 1) as nat);
    }
}

/// A `u64` has at most 20 decimal digits.
proof fn lemma_u64_digits(v: u64)
    ensures
        1 <= num_digits(v as nat) <= 20,
        bcd_size(v as nat) <= num_digits(v as nat),
{
    reveal_with_fuel(pow10, 21);
    assert(pow10(20) == 100_000_000_000_000_000_000);
    lemma_bcd_size_le(v as nat, 20);
    if v > 0 {
        assert(bcd_size(v as nat) >= 1);
    }
}

/// A number written with its digit count and its ASCII digits reads back
/// as itself.
pub proof fn law_uint_ascii_var_size_roundtrip(b: Seq<bool>, p: int, v: u64)
    requires
        0 <= p,
        p + 8 + 8 * num_digits(v as nat) <= b.len(),
    ensures
        spec_dec_uint_ascii_var(
            splice(b, p, nat_bits(num_digits(v as nat), 8) + ascii_digits_bits(v as nat)),
            p,
        ) == Some((v as int, (8 + 8 * num_digits(v as nat)) as int)),
{
    let l = num_digits(v as nat);
    let hd = nat_bits(l, 8);
    let ds = ascii_digits_bits(v as nat);
    lemma_u64_digits(v);
    lemma_digit_bits_len(v as nat, l, 8, 48);
    lemma_splice_splice(b, p, hd, ds);
    let b1 = splice(b, p, hd);
    let t = splice(b1, p + 8, ds);
    lemma_splice_read(b, p, hd);
    lemma_splice_read(b1, p + 8, ds);
    assert(t.subrange(p, p + 8) =~= b1.subrange(p, p + 8));
    lemma2_to64();
    lemma_bits_value_nat_bits_small(l, 8);
    law_uint_ascii_const_size_roundtrip(b1, p + 8, v, l);
}

/// A signed number written with its character count, its sign character
/// and the ASCII digits of its magnitude reads back as itself.
pub proof fn law_sint_ascii_var_size_roundtrip(b: Seq<bool>, p: int, v: i64)
    requires
        0 <= p,
        p + 16 + 8 * num_digits(abs_value(v as int)) <= b.len(),
    ensures
        spec_dec_sint_ascii_var(
            splice(
                b,
                p,
                nat_bits(num_digits(abs_value(v as int)) + 1, 8) + nat_bits(sign_char(v as int), 8)
                    + ascii_digits_bits(abs_value(v as int)),
            ),
            p,
        ) == Some((v as int, (16 + 8 * num_digits(abs_value(v as int))) as int)),
{
    let a = abs_value(v as int);
    let l = num_digits(a);
    let hd = nat_bits(l + 1, 8);
    let rest = nat_bits(sign_char(v as int), 8) + ascii_digits_bits(a);
    lemma_signed_value(v);
    lemma_u64_digits(a as u64);
    lemma_digit_bits_len(a, l, 8, 48);
    assert(hd + nat_bits(sign_char(v as int), 8) + ascii_digits_bits(a) =~= hd + rest);
    lemma_splice_splice(b, p, hd, rest);
    let b1 = splice(b, p, hd);
    let t = splice(b1, p + 8, rest);
    lemma_splice_read(b, p, hd);
    assert(t.subrange(p, p + 8) =~= b1.subrange(p, p + 8));
    lemma2_to64();
    lemma_bits_value_nat_bits_small(l + 1, 8);
    law_sint_ascii_const_size_roundtrip(b1, p + 8, v, l + 1);
}

/// Byte `k` of a byte sequence written bit by bit.
proof fn lemma_octet_bits_chunk(s: Seq<u8>, k: int)
    requires
        0 <= k < s.len(),
    ensures
        octet_bits(s).len() == 8 * s.len(),
        bits_value(octet_bits(s).subrange(8 * k, 8 * k + 8)) == s[k],
    decreases s.len(),
{
    let s1 = s.drop_last();
    lemma_octet_bits_len(s);
    lemma_octet_bits_len(s1);
    assert(octet_bits(s) == octet_bits(s1) + nat_bits(s.last() as nat, 8));
    if k == s.len() - 1 {
        assert(octet_bits(s).subrange(8 * k, 8 * k + 8) =~= nat_bits(s.last() as nat, 8));
        lemma2_to64();
        lemma_bits_value_nat_bits_small(s.last() as nat, 8);
    } else {
        lemma_octet_bits_chunk(s1, k);
        assert(octet_bits(s).subrange(8 * k, 8 * k + 8) =~= octet_bits(s1).subrange(8 * k, 8 * k + 8));
    }
}

/// The scan for a terminator finds the first window that holds it after digits.
proof fn lemma_ascii_terminator_at(b: Seq<bool>, p: int, z: Seq<u8>, i: nat, m: nat)
    requires
        i <= m,
        z.len() > 0,
        p + 8 * (m + z.len()) <= b.len(),
        forall|j: int| i <= j < m ==> 48 <= #[trigger] symbol_at(b, p, 8, j) <= 57,
        forall|j: int| i <= j < m ==> !window_is(b, p, z, j),
        window_is(b, p, z, m as int),
    ensures
        ascii_terminator(b, p, z, i) == Some(m),
    decreases m - i,
{
    if i < m {
        assert(48 <= symbol_at(b, p, 8, i as int) <= 57);
        assert(!window_is(b, p, z, i as int));
        lemma_ascii_terminator_at(b, p, z, i + 1, m);
    }
}

/// A number written as its ASCII digits followed by a terminator that does
/// not start with a digit reads back as itself, consuming the digits and
/// the first 10 bytes (at most) of the terminator.
pub proof fn law_uint_ascii_null_terminated_roundtrip(b: Seq<bool>, p: int, v: u64, nc: Seq<u8>)
    requires
        0 <= p,
        p + 8 * num_digits(v as nat) + 8 * nc.len() <= b.len(),
        nc.len() >= 1,
        !(48 <= nc[0] <= 57),
    ensures
        spec_dec_uint_ascii_null(splice(b, p, ascii_digits_bits(v as nat) + octet_bits(nc)), p, nc) == Some(
            (v as int, (8 * (num_digits(v as nat) + terminator_prefix(nc).len())) as int),
        ),
{
    let l = num_digits(v as nat);
    let ds = ascii_digits_bits(v as nat);
    let os = octet_bits(nc);
    let z = terminator_prefix(nc);
    lemma_u64_digits(v);
    lemma_digit_bits_len(v as nat, l, 8, 48);
    lemma_octet_bits_len(nc);
    lemma_splice_splice(b, p, ds, os);
    let b1 = splice(b, p, ds);
    let t = splice(b1, p + 8 * l, os);
    lemma_splice_read(b1, p + 8 * l, os);
    lemma_decimal_field(b, p, v, l, 8, 48);
    assert forall|j: int| 0 <= j < l implies #[trigger] symbol_at(t, p, 8, j) == symbol_at(b1, p, 8, j) by {
        assert(t.subrange(p + 8 * j, p + 8 * j + 8) =~= b1.subrange(p + 8 * j, p + 8 * j + 8));
    }
    assert forall|j: int| 0 <= j < l implies 48 <= #[trigger] symbol_at(t, p, 8, j) <= 57 by {
        assert(symbol_at(t, p, 8, j) == symbol_at(b1, p, 8, j));
        assert(symbols(b1, p, l as int, 8)[j] == symbol_at(b1, p, 8, j));
    }
    assert forall|k: int| 0 <= k < nc.len() implies #[trigger] symbol_at(t, p, 8, l + k) == nc[k] by {
        lemma_octet_bits_chunk(nc, k);
        assert(t.subrange(p + 8 * (l + k), p + 8 * (l + k) + 8) =~= os.subrange(8 * k, 8 * k + 8));
    }
    assert forall|j: int| 0 <= j < l implies !window_is(t, p, z, j) by {
        assert(symbol_at(t, p, 8, j + 0) == symbol_at(t, p, 8, j));
        assert(48 <= symbol_at(t, p, 8, j) <= 57);
    }
    assert(window_is(t, p, z, l as int)) by {
        assert forall|k: int| 0 <= k < z.len() implies #[trigger] symbol_at(t, p, 8, l + k) == z[k] as nat by {
            assert(symbol_at(t, p, 8, l + k) == nc[k]);
        }
    }
    lemma_ascii_terminator_at(t, p, z, 0, l);
    assert(symbols(t, p, l as int, 8) =~= symbols(b1, p, l as int, 8));
    lemma_dec_value_digits(v as nat, l);
    lemma_bcd_size_bound(v as nat, l);
    lemma_small_mod(v as nat, pow10(l));
    assert(digit_values(symbols(b1, p, l as int, 8), 48) =~= decimal_digits_of(v as nat, l));
}

/// A signed number written as its sign character, the ASCII digits of its
/// magnitude and a terminator that does not start with a digit reads back
/// as itself.
pub proof fn law_sint_ascii_null_terminated_roundtrip(b: Seq<bool>, p: int, v: i64, nc: Seq<u8>)
    requires
        0 <= p,
        p + 8 + 8 * num_digits(abs_value(v as int)) + 8 * nc.len() <= b.len(),
        nc.len() >= 1,
        !(48 <= nc[0] <= 57),
    ensures
        spec_dec_sint_ascii_null(
            splice(
                b,
                p,
                nat_bits(sign_char(v as int), 8) + ascii_digits_bits(abs_value(v as int)) + octet_bits(nc),
            ),
            p,
            nc,
        ) == Some((v as int, (8 + 8 * (num_digits(abs_value(v as int)) + terminator_prefix(nc).len())) as int)),
{
    let a = abs_value(v as int);
    let sg = nat_bits(sign_char(v as int), 8);
    let rest = ascii_digits_bits(a) + octet_bits(nc);
    lemma_signed_value(v);
    lemma_u64_digits(a as u64);
    lemma_digit_bits_len(a, num_digits(a), 8, 48);
    lemma_octet_bits_len(nc);
    assert(sg + ascii_digits_bits(a) + octet_bits(nc) =~= sg + rest);
    lemma_splice_splice(b, p, sg, rest);
    let b1 = splice(b, p, sg);
    let t = splice(b1, p + 8, rest);
    lemma_splice_read(b, p, sg);
    assert(t.subrange(p, p + 8) =~= b1.subrange(p, p + 8));
    lemma2_to64();
    lemma_bits_value_nat_bits_small(sign_char(v as int), 8);
    law_uint_ascii_null_terminated_roundtrip(b1, p + 8, a as u64, nc);
}

// ─── Strings ──────────────────────────────────────────────────────────

/// The bytes that follow a write of the bits of `s` begin with `s`.
pub proof fn law_octets_roundtrip(b: Seq<bool>, p: int, s: Seq<u8>)
    requires
        0 <= p,
        p + 8 * s.len() <= b.len(),
    ensures
        octets_at(splice(b, p, octet_bits(s)), p).len() >= s.len(),
        octets_at(splice(b, p, octet_bits(s)), p).subrange(0, s.len() as int) == s,
{
    let t = splice(b, p, octet_bits(s));
    lemma_octet_bits_len(s);
    lemma_splice_read(b, p, octet_bits(s));
    let a = octets_at(t, p);
    assert((t.len() - p) / 8 >= s.len());
    assert forall|k: int| 0 <= k < s.len() implies #[trigger] a[k] == s[k] by {
        lemma_octet_bits_chunk(s, k);
        assert(t.subrange(p + 8 * k, p + 8 * k + 8) =~= octet_bits(s).subrange(8 * k, 8 * k + 8));
    }
    assert(a.subrange(0, s.len() as int) =~= s);
}

/// The scan for a terminator byte finds it right after characters that differ from it.
proof fn lemma_null_scan_at(a: Seq<u8>, nc: u8, max: int, len: int, i: nat, m: nat)
    requires
        i <= m,
        m <= max,
        m <= len,
        m < a.len(),
        a[m as int] == nc,
        forall|j: int| i <= j < m ==> #[trigger] a[j] != nc,
    ensures
        null_scan(a, nc, max, len, i) == (true, m),
    decreases m - i,
{
    if i < m {
        assert(a[i as int] != nc);
        lemma_null_scan_at(a, nc, max, len, i + 1, m);
    }
}

/// A string without the terminator byte, written with the terminator,
/// reads back as itself into a buffer of `len` bytes that holds it.
pub proof fn law_string_null_terminated_roundtrip(
    b: Seq<bool>,
    p: int,
    s: Seq<u8>,
    max: int,
    nc: u8,
    len: int,
)
    requires
        0 <= p,
        0 <= max,
        cstr_len(s, max) <= len,
        p + 8 * cstr_len(s, max) + 8 <= b.len(),
        forall|j: int| 0 <= j < cstr_len(s, max) ==> #[trigger] s[j] != nc,
    ensures
        ({
            let a = octets_at(splice(b, p, octet_bits(cstr(s, max)) + nat_bits(nc as nat, 8)), p);
            &&& null_scan(a, nc, max, len, 0) == (true, cstr_len(s, max))
            &&& a.subrange(0, cstr_len(s, max) as int) == cstr(s, max)
        }),
{
    let c = cstr(s, max);
    let l = cstr_len(s, max);
    lemma_cstr_len(s, max);
    let full = c.push(nc);
    lemma_octet_bits_len(c);
    assert(octet_bits(full) == octet_bits(c) + nat_bits(nc as nat, 8)) by {
        assert(full.drop_last() =~= c);
    }
    law_octets_roundtrip(b, p, full);
    let a = octets_at(splice(b, p, octet_bits(full)), p);
    assert(a.subrange(0, full.len() as int)[l as int] == nc);
    assert forall|j: int| 0 <= j < l implies #[trigger] a[j] != nc by {
        assert(a.subrange(0, full.len() as int)[j] == full[j]);
    }
    lemma_null_scan_at(a, nc, max, len, 0, l);
    assert(a.subrange(0, l as int) =~= c) by {
        assert forall|j: int| 0 <= j < l implies #[trigger] a.subrange(0, l as int)[j] == c[j] by {
            assert(a.subrange(0, full.len() as int)[j] == full[j]);
        }
    }
}

/// The scan for a multi-byte terminator finds it right after characters
/// that differ from its first byte.
proof fn lemma_mult_scan_at(a: Seq<u8>, z: Seq<u8>, max: int, len: int, i: nat, m: nat)
    requires
        i <= m,
        z.len() > 0,
        m <= len,
        m + z.len() <= a.len(),
        a.subrange(m as int, (m + z.len()) as int) == z,
        forall|j: int| i <= j < m ==> #[trigger] a[j] != z[0],
        m <= max,
    ensures
        mult_scan(a, z, max, len, i) == (true, m),
    decreases m - i,
{
    if i < m {
        assert(a.subrange(i as int, (i + z.len()) as int)[0] == a[i as int]);
        lemma_mult_scan_at(a, z, max, len, i + 1, m);
    }
}

/// A string that does not hold the first byte of the terminator, written
/// with the terminator, reads back as itself into a buffer of `len` bytes
/// that holds it.
pub proof fn law_string_null_terminated_mult_roundtrip(
    b: Seq<bool>,
    p: int,
    s: Seq<u8>,
    max: int,
    nc: Seq<u8>,
    len: int,
)
    requires
        0 <= p,
        0 <= max,
        1 <= nc.len(),
        cstr_len(s, max) <= len,
        p + 8 * cstr_len(s, max) + 8 * nc.len() <= b.len(),
        forall|j: int| 0 <= j < cstr_len(s, max) ==> #[trigger] s[j] != nc[0],
    ensures
        ({
            let a = octets_at(splice(b, p, octet_bits(cstr(s, max)) + octet_bits(nc)), p);
            &&& mult_scan(a, terminator_prefix(nc), max, len, 0) == (true, cstr_len(s, max))
            &&& a.subrange(0, cstr_len(s, max) as int) == cstr(s, max)
        }),
{
    let c = cstr(s, max);
    let l = cstr_len(s, max);
    let z = terminator_prefix(nc);
    lemma_cstr_len(s, max);
    let full = c + nc;
    lemma_octet_bits_concat(c, nc);
    law_octets_roundtrip(b, p, full);
    let a = octets_at(splice(b, p, octet_bits(full)), p);
    let af = a.subrange(0, full.len() as int);
    assert(a.subrange(l as int, (l + z.len()) as int) =~= z) by {
        assert forall|k: int| 0 <= k < z.len() implies #[trigger] a.subrange(l as int, (l + z.len()) as int)[k] == z[k] by {
            assert(af[l + k] == full[l + k]);
        }
    }
    assert forall|j: int| 0 <= j < l implies #[trigger] a[j] != z[0] by {
        assert(af[j] == full[j]);
    }
    lemma_mult_scan_at(a, z, max, len, 0, l);
    assert(a.subrange(0, l as int) =~= c) by {
        assert forall|j: int| 0 <= j < l implies #[trigger] a.subrange(0, l as int)[j] == c[j] by {
            assert(af[j] == full[j]);
        }
    }
}

/// The bits of two byte sequences one after the other.
pub proof fn lemma_octet_bits_concat(x: Seq<u8>, y: Seq<u8>)
    ensures
        octet_bits(x + y) == octet_bits(x) + octet_bits(y),
    decreases y.len(),
{
    if y.len() == 0 {
        assert(x + y =~= x);
        assert(octet_bits(x) + octet_bits(y) =~= octet_bits(x));
    } else {
        lemma_octet_bits_concat(x, y.drop_last());
        assert((x + y).drop_last() =~= x + y.drop_last());
        assert((x + y).last() == y.last());
    }
}

/// The character that the first index of `ch` in `set` names is `ch`.
proof fn lemma_char_index_found(set: Seq<u8>, ch: u8, i: nat)
    requires
        exists|k: int| i <= k < set.len() && set[k] == ch,
    ensures
        char_index_from(set, ch, i) < set.len(),
        set[char_index_from(set, ch, i) as int] == ch,
    decreases set.len() - i,
{
    if i < set.len() && set[i as int] != ch {
        let k = choose|k: int| i <= k < set.len() && set[k] == ch;
        assert(k != i);
        lemma_char_index_found(set, ch, i + 1);
    }
}

/// Index `j` of a string written as character indices.
proof fn lemma_char_index_chunk(set: Seq<u8>, c: Seq<u8>, j: int)
    requires
        0 <= j < c.len(),
    ensures
        char_index_bits(set, c).subrange(index_width(set) * j, index_width(set) * j + index_width(set))
            == nat_bits(char_index(set, c[j]), index_width(set)),
    decreases c.len(),
{
    let w = index_width(set);
    let c1 = c.drop_last();
    lemma_char_index_bits_len(set, c1);
    lemma_char_index_bits_len(set, c);
    assert(char_index_bits(set, c) == char_index_bits(set, c1) + nat_bits(char_index(set, c.last()), w));
    if j == c.len() - 1 {
        assert(w * j == c1.len() * w) by (nonlinear_arith)
            requires
                j == c1.len(),
        ;
        assert(char_index_bits(set, c).subrange(w * j, w * j + w) =~= nat_bits(char_index(set, c.last()), w));
    } else {
        lemma_char_index_chunk(set, c1, j);
        assert(w * j + w <= c1.len() * w) by (nonlinear_arith)
            requires
                j + 1 <= c1.len(),
        ;
        assert(char_index_bits(set, c).subrange(w * j, w * j + w) =~= char_index_bits(set, c1).subrange(w * j, w * j + w));
    }
}

/// A string of characters of `set`, written as their indices, reads back
/// as itself.
pub proof fn law_string_char_index_roundtrip(b: Seq<bool>, p: int, set: Seq<u8>, c: Seq<u8>)
    requires
        0 <= p,
        1 <= set.len() <= 0x7FFF_FFFF_FFFF_FFFF,
        p + c.len() * index_width(set) <= b.len(),
        forall|j: int| 0 <= j < c.len() ==> exists|k: int| 0 <= k < set.len() && set[k] == #[trigger] c[j],
    ensures
        char_indices_ok(splice(b, p, char_index_bits(set, c)), p, set, c.len() as int),
        index_chars(splice(b, p, char_index_bits(set, c)), p, set, c.len() as int) == c,
{
    let w = index_width(set);
    let bits = char_index_bits(set, c);
    let t = splice(b, p, bits);
    lemma_char_index_bits_len(set, c);
    lemma_splice_read(b, p, bits);
    lemma_num_bits_bound((set.len() - 1) as nat);
    assert forall|j: int| 0 <= j < c.len() implies #[trigger] index_at(t, p, w as int, j) == char_index(set, c[j])
        && set[char_index(set, c[j]) as int] == c[j] by {
        lemma_char_index_found(set, c[j], 0);
        if w > 0 {
            lemma_char_index_chunk(set, c, j);
            assert(w * j + w <= c.len() * w) by (nonlinear_arith)
                requires
                    j + 1 <= c.len(),
            ;
            assert(t.subrange(p + w * j, p + w * j + w) =~= bits.subrange(w * j, w * j + w));
            lemma_num_bits_le(char_index(set, c[j]), w);
            lemma_bits_value_nat_bits_small(char_index(set, c[j]), w);
            lemma_wrap_i64_id(char_index(set, c[j]) as int);
        } else {
            assert(set.len() == 1);
        }
    }
    assert(index_chars(t, p, set, c.len() as int) =~= c);
    assert(w * c.len() == c.len() * w) by (nonlinear_arith);
    assert forall|j: int| 0 <= j < c.len() implies 0 <= #[trigger] index_at(t, p, w as int, j) < set.len() by {
        assert(index_at(t, p, w as int, j) == char_index(set, c[j]));
        lemma_char_index_found(set, c[j], 0);
    }
}

// ─── Determinants ─────────────────────────────────────────────────────

/// Reserving a determinant with placeholder bits and patching it later
/// with bits of the same length leaves the stream as if those bits had
/// been written in place of the placeholder.
pub proof fn law_init_then_patch(
    s0: BitStream,
    s1: BitStream,
    s2: BitStream,
    at: AcnBitStreamPos,
    placeholder: Seq<bool>,
    value: Seq<bool>,
)
    requires
        s0.wf(),
        s0.remaining() >= placeholder.len(),
        at.bit_index() == s0.pos(),
        s1.wrote(s0, placeholder),
        patched(s1, s2, at, value),
        value.len() == placeholder.len(),
    ensures
        s2.bits() == splice(s0.bits(), s0.pos(), value),
        s2.pos() == s0.pos() + value.len(),
{
    assert(splice(splice(s0.bits(), s0.pos(), placeholder), s0.pos(), value) =~= splice(
        s0.bits(),
        s0.pos(),
        value,
    ));
}

/// The distance between the positions before and after a write is the
/// number of bits written.
pub proof fn law_distance_of_write(s0: BitStream, s1: BitStream, start: AcnBitStreamPos, end: AcnBitStreamPos, s: Seq<bool>)
    requires
        s1.wrote(s0, s),
        start.current_byte == s0.current_byte && start.current_bit == s0.current_bit,
        end.current_byte == s1.current_byte && end.current_bit == s1.current_bit,
    ensures
        end.bit_index() - start.bit_index() == s.len(),
{
}

/// Every value but 0 reads back from its MILBUS word.
pub proof fn law_milbus_roundtrip(v: int)
    requires
        v != 0,
    ensures
        milbus_value(milbus_word(v)) == v,
{
}

/// A determinant patched with `v` reads back, at the position reserved for
/// it, through the decoder of the same layout: the low bits of `v` that the
/// field holds, most significant byte first for the big-endian and 8-bit
/// fields, least significant first for the little-endian ones, and as two's
/// complement for the signed ones.
pub proof fn law_det_patch_reads_back(b: Seq<bool>, p: int, v: u64)
    requires
        0 <= p,
        p + 64 <= b.len(),
    ensures
        spec_dec_uint(splice(b, p, det_bits_u8(v)), p, 8) == Some(((v as nat % pow2(8)) as int, 8int)),
        spec_dec_uint(splice(b, p, det_bits_u16_be(v)), p, 16) == Some(((v as nat % pow2(16)) as int, 16int)),
        spec_dec_uint(splice(b, p, det_bits_u32_be(v)), p, 32) == Some(((v as nat % pow2(32)) as int, 32int)),
        spec_dec_uint(splice(b, p, det_bits_u64_be(v)), p, 64) == Some(((v as nat % pow2(64)) as int, 64int)),
        spec_dec_uint_le(splice(b, p, det_bits_u16_le(v)), p, 2) == Some(((v as nat % pow2(16)) as int, 16int)),
        spec_dec_uint_le(splice(b, p, det_bits_u32_le(v)), p, 4) == Some(((v as nat % pow2(32)) as int, 32int)),
        spec_dec_uint_le(splice(b, p, det_bits_u64_le(v)), p, 8) == Some(((v as nat % pow2(64)) as int, 64int)),
        spec_dec_sint(splice(b, p, det_bits_i8(v)), p, 8) == Some((sign_extend(v as nat % pow2(8), 8), 8int)),
        spec_dec_sint(splice(b, p, det_bits_i16_be(v)), p, 16) == Some((sign_extend(v as nat % pow2(16), 16), 16int)),
        spec_dec_sint(splice(b, p, det_bits_i32_be(v)), p, 32) == Some((sign_extend(v as nat % pow2(32), 32), 32int)),
        spec_dec_sint(splice(b, p, det_bits_i64_be(v)), p, 64) == Some((sign_extend(v as nat % pow2(64), 64), 64int)),
{
    lemma2_to64();
    lemma_splice_read(b, p, det_bits_u8(v));
    lemma_bits_value_nat_bits(v as nat, 8);
    lemma_splice_read(b, p, det_bits_u16_be(v));
    lemma_bits_value_nat_bits(v as nat, 16);
    lemma_splice_read(b, p, det_bits_u32_be(v));
    lemma_bits_value_nat_bits(v as nat, 32);
    lemma_splice_read(b, p, det_bits_u64_be(v));
    lemma_bits_value_nat_bits(v as nat, 64);
    lemma_le_bits_len(v as nat, 2);
    lemma_splice_read(b, p, det_bits_u16_le(v));
    lemma_le_value_le_bits(v as nat, 2);
    lemma_le_bits_len(v as nat, 4);
    lemma_splice_read(b, p, det_bits_u32_le(v));
    lemma_le_value_le_bits(v as nat, 4);
    lemma_le_bits_len(v as nat, 8);
    lemma_splice_read(b, p, det_bits_u64_le(v));
    lemma_le_value_le_bits(v as nat, 8);
    lemma_splice_read(b, p, det_bits_i8(v));
    lemma_splice_read(b, p, det_bits_i16_be(v));
    lemma_splice_read(b, p, det_bits_i32_be(v));
    lemma_splice_read(b, p, det_bits_i64_be(v));
}

} // verus!
