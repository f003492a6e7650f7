//! What the BER decoders give back of what the BER encoders wrote.
use vstd::prelude::*;
use vstd::arithmetic::div_mod::*;
use vstd::arithmetic::power2::*;
use crate::{Asn1SccSint, BerTag, ErrorCode};
use crate::ber::{
    ber_bit_string_bytes, ber_boolean_bytes, ber_integer_bytes, ber_length_bytes, ber_null_bytes,
    ber_string_bytes, ber_tag_bytes, bit_string_content_len, primitive_bit, spec_decode_bit_string,
    spec_decode_boolean, spec_decode_header, spec_decode_ia5_string, spec_decode_integer,
    spec_decode_length, spec_decode_null, spec_decode_octet_string, spec_decode_tag, octet_stored,
    bit_string_stored, ia5_stored,
};
use crate::bits::{bits_value, lemma_bits_value_nat_bits, lemma_nat_bits_len, lemma_nat_bits_split, nat_bits};
use crate::ber::{bits_octets, real_octets};
use crate::ber_real::{
    ieee_is_negative, ieee_is_zero, lemma_real_bits_len, real_bits, real_exponent, real_header, real_mantissa,
    spec_dec_real, exp_factor, mantissa_factor, DecodedReal, MINUS_INFINITY_BITS, PLUS_INFINITY_BITS,
};
use crate::octets::{
    be_bytes, be_value, fits_signed_bytes, lemma_be_bytes_len, lemma_be_value_be_bytes, lemma_be_value_bound,
    lemma_be_value_be_bytes_small, lemma_sint_bytes_bound, lemma_uint_bytes_bound, sign_extend,
    sint_bytes, uint_bytes, wrap_u64,
};

verus! {

broadcast use lemma_be_bytes_len;

/// A tag reads back as itself, whatever follows it.
pub proof fn law_ber_tag_roundtrip(tag: BerTag, rest: Seq<u8>)
    ensures
        spec_decode_tag(ber_tag_bytes(tag) + rest, tag) == Ok::<nat, ErrorCode>(
            ber_tag_bytes(tag).len(),
        ),
{
    let ts = uint_bytes(tag as nat);
    let bytes = ber_tag_bytes(tag);
    lemma_uint_bytes_bound(tag as nat);
    lemma_be_value_be_bytes_small(tag as nat, ts);
    assert((bytes + rest).subrange(0, ts as int) =~= bytes);
}

/// A non-negative length reads back as itself, whatever follows it.
pub proof fn law_ber_length_roundtrip(value: i32, rest: Seq<u8>)
    requires
        0 <= value,
    ensures
        spec_decode_length(ber_length_bytes(value) + rest) == Ok::<(int, nat), ErrorCode>(
            (value as int, ber_length_bytes(value).len()),
        ),
{
    let bytes = ber_length_bytes(value) + rest;
    if value > 0x7F {
        let l = uint_bytes(value as nat);
        lemma_uint_bytes_bound(value as nat);
        lemma_be_value_be_bytes_small(value as nat, l);
        assert(bytes[0] == (0x80 + l) as u8);
        assert(bytes.subrange(1, (1 + l) as int) =~= be_bytes(value as nat, l));
    }
}

/// Sign extension undoes the two's complement reduction to `n` bytes.
pub proof fn lemma_sign_extend_wrap(v: int, n: nat)
    requires
        1 <= n <= 8,
        fits_signed_bytes(v, n),
    ensures
        sign_extend(wrap_u64(v) % pow2(8 * n), 8 * n) == v,
{
    let k = 8 * n;
    lemma2_to64();
    lemma_pow2_pos(k);
    lemma_pow2_pos((k - 1) as nat);
    lemma_pow2_unfold(k);
    lemma_pow2_adds(k, (64 - k) as nat);
    lemma_pow2_pos((64 - k) as nat);
    assert(k + (64 - k) as nat == 64);
    lemma_mod_mod(v, pow2(k) as int, pow2((64 - k) as nat) as int);
    assert(wrap_u64(v) % pow2(k) == v % (pow2(k) as int));
    if v >= 0 {
        lemma_small_mod(v as nat, pow2(k));
    } else {
        lemma_fundamental_div_mod_converse(v, pow2(k) as int, -1, v + pow2(k));
    }
}

/// An INTEGER reads back as itself, whatever follows it.
pub proof fn law_ber_integer_roundtrip(tag: BerTag, value: Asn1SccSint, rest: Seq<u8>)
    ensures
        spec_decode_integer(ber_integer_bytes(tag, value) + rest, tag) == Ok::<
            (int, nat),
            ErrorCode,
        >((value as int, ber_integer_bytes(tag, value).len())),
{
    let t = ber_tag_bytes(tag);
    let l = sint_bytes(value as int);
    lemma_sint_bytes_bound(value as int);
    let content = be_bytes(wrap_u64(value as int), l);
    let all = ber_integer_bytes(tag, value) + rest;
    law_ber_tag_roundtrip(tag, seq![l as u8] + content + rest);
    assert(all =~= t + (seq![l as u8] + content + rest));
    let after_tag = all.subrange(t.len() as int, all.len() as int);
    assert(after_tag =~= seq![l as u8] + content + rest);
    assert(after_tag[0] == l as u8);
    assert(spec_decode_length(after_tag) == Ok::<(int, nat), ErrorCode>((l as int, 1)));
    let h = t.len() + 1;
    assert(all.subrange(h as int, (h + l) as int) =~= content);
    lemma_be_value_be_bytes(wrap_u64(value as int), l);
    lemma_sign_extend_wrap(value as int, l);
}

/// A BOOLEAN reads back as itself, whatever follows it.
pub proof fn law_ber_boolean_roundtrip(tag: BerTag, value: bool, rest: Seq<u8>)
    ensures
        spec_decode_boolean(ber_boolean_bytes(tag, value) + rest, tag) == Ok::<
            (bool, nat),
            ErrorCode,
        >((value, ber_boolean_bytes(tag, value).len())),
{
    let t = ber_tag_bytes(tag);
    let c: u8 = if value { 0xFF } else { 0x00 };
    let all = ber_boolean_bytes(tag, value) + rest;
    law_ber_tag_roundtrip(tag, seq![1u8, c] + rest);
    assert(all =~= t + (seq![1u8, c] + rest));
    let after_tag = all.subrange(t.len() as int, all.len() as int);
    assert(after_tag =~= seq![1u8, c] + rest);
    assert(spec_decode_length(after_tag) == Ok::<(int, nat), ErrorCode>((1, 1)));
    assert(all[(t.len() + 1) as int] == c);
}

/// NULL reads back, whatever follows it.
pub proof fn law_ber_null_roundtrip(tag: BerTag, rest: Seq<u8>)
    ensures
        spec_decode_null(ber_null_bytes(tag) + rest, tag) == Ok::<nat, ErrorCode>(
            ber_null_bytes(tag).len(),
        ),
{
    let t = ber_tag_bytes(tag);
    let all = ber_null_bytes(tag) + rest;
    law_ber_tag_roundtrip(tag, seq![0u8] + rest);
    assert(all =~= t + (seq![0u8] + rest));
    let after_tag = all.subrange(t.len() as int, all.len() as int);
    assert(after_tag =~= seq![0u8] + rest);
    assert(spec_decode_length(after_tag) == Ok::<(int, nat), ErrorCode>((0, 1)));
}

/// The header of a string encoding reads back as its length.
proof fn lemma_string_header(tag: BerTag, value: Seq<u8>, length: i32, rest: Seq<u8>)
    requires
        0 <= length <= value.len(),
    ensures
        spec_decode_header(ber_string_bytes(tag, value, length) + rest, tag) == Ok::<
            (int, nat),
            ErrorCode,
        >((length as int, ber_tag_bytes(tag).len() + ber_length_bytes(length).len())),
{
    let t = ber_tag_bytes(tag);
    let lb = ber_length_bytes(length);
    let c = value.subrange(0, length as int);
    let all = ber_string_bytes(tag, value, length) + rest;
    law_ber_tag_roundtrip(tag, lb + c + rest);
    assert(all =~= t + (lb + c + rest));
    let after_tag = all.subrange(t.len() as int, all.len() as int);
    assert(after_tag =~= lb + (c + rest));
    law_ber_length_roundtrip(length, c + rest);
}

/// An OCTET STRING of at most `max_oct_count` bytes reads back as its
/// content, whatever follows it.
pub proof fn law_ber_octet_string_roundtrip(
    tag: BerTag,
    value: Seq<u8>,
    oct_count: i32,
    max_oct_count: i32,
    rest: Seq<u8>,
)
    requires
        0 <= oct_count <= value.len(),
        oct_count <= max_oct_count,
    ensures
        ({
            let all = ber_string_bytes(tag, value, oct_count) + rest;
            let n = ber_string_bytes(tag, value, oct_count).len();
            &&& spec_decode_octet_string(all, tag, max_oct_count) == Ok::<(int, nat), ErrorCode>(
                (oct_count as int, n),
            )
            &&& all.subrange(n - oct_count, n as int) == value.subrange(0, oct_count as int)
            &&& octet_stored(all, tag, max_oct_count) == value.subrange(0, oct_count as int)
        }),
{
    lemma_string_header(tag, value, oct_count, rest);
    let t = ber_tag_bytes(tag);
    let lb = ber_length_bytes(oct_count);
    let c = value.subrange(0, oct_count as int);
    let all = ber_string_bytes(tag, value, oct_count) + rest;
    let h = t.len() + lb.len();
    assert(all.subrange(h as int, (h + oct_count) as int) =~= c);
    assert(all.subrange(h as int, all.len() as int).subrange(0, oct_count as int) =~= c);
}

/// An IA5String shorter than the buffer reads back as its content,
/// whatever follows it.
pub proof fn law_ber_ia5_string_roundtrip(
    tag: BerTag,
    value: Seq<u8>,
    length: i32,
    max_length: i32,
    rest: Seq<u8>,
)
    requires
        0 <= length <= value.len(),
        length < max_length,
    ensures
        ({
            let all = ber_string_bytes(tag, value, length) + rest;
            let n = ber_string_bytes(tag, value, length).len();
            &&& spec_decode_ia5_string(all, tag, max_length) == Ok::<(int, nat), ErrorCode>(
                (length as int, n),
            )
            &&& all.subrange(n - length, n as int) == value.subrange(0, length as int)
        }),
{
    law_ber_octet_string_roundtrip(tag, value, length, max_length, rest);
}

/// A BIT STRING of at most `max_bit_count` bits reads back with its bit
/// count and content bytes, whatever follows it.
pub proof fn law_ber_bit_string_roundtrip(
    tag: BerTag,
    value: Seq<u8>,
    bit_count: i32,
    max_bit_count: i32,
    rest: Seq<u8>,
)
    requires
        0 <= bit_count <= max_bit_count,
        bit_string_content_len(bit_count as int) <= value.len(),
    ensures
        ({
            let all = ber_bit_string_bytes(tag, value, bit_count) + rest;
            let n = ber_bit_string_bytes(tag, value, bit_count).len();
            let m = bit_string_content_len(bit_count as int);
            &&& spec_decode_bit_string(all, tag, max_bit_count) == Ok::<(int, nat), ErrorCode>(
                (bit_count as int, n),
            )
            &&& all.subrange(n - m, n as int) == value.subrange(0, m)
            &&& bit_string_stored(all, tag, max_bit_count) == value.subrange(0, m)
        }),
{
    let t = ber_tag_bytes(tag);
    let m = bit_string_content_len(bit_count as int);
    let lb = ber_length_bytes((m + 1) as i32);
    let u: u8 = ((8 - bit_count % 8) % 8) as u8;
    let c = value.subrange(0, m);
    let all = ber_bit_string_bytes(tag, value, bit_count) + rest;
    law_ber_tag_roundtrip(tag, lb + seq![u] + c + rest);
    assert(all =~= t + (lb + seq![u] + c + rest));
    let after_tag = all.subrange(t.len() as int, all.len() as int);
    assert(after_tag =~= lb + (seq![u] + c + rest));
    law_ber_length_roundtrip((m + 1) as i32, seq![u] + c + rest);
    let h = t.len() + lb.len();
    assert(all[h as int] == u);
    assert(all.subrange((h + 1) as int, h + 1 + m) =~= c);
    assert(all.subrange((h + 1) as int, all.len() as int).subrange(0, m) =~= c);
    assert(bit_string_content_len(bit_count as int) <= bit_string_content_len(max_bit_count as int));
}

// ─── REAL ──────────────────────────────────────────────────────────────

/// The bytes of two bit sequences of whole bytes are those of each.
proof fn lemma_bits_octets_concat(x: Seq<bool>, y: Seq<bool>)
    requires
        x.len() % 8 == 0,
        y.len() % 8 == 0,
    ensures
        bits_octets(x + y) == bits_octets(x) + bits_octets(y),
{
    let a = bits_octets(x + y);
    let b = bits_octets(x) + bits_octets(y);
    assert((x + y).len() / 8 == x.len() / 8 + y.len() / 8);
    assert forall|k: int| 0 <= k < a.len() implies #[trigger] a[k] == b[k] by {
        if k < x.len() / 8 {
            assert((x + y).subrange(8 * k, 8 * k + 8) =~= x.subrange(8 * k, 8 * k + 8));
        } else {
            let j = k - x.len() / 8;
            assert((x + y).subrange(8 * k, 8 * k + 8) =~= y.subrange(8 * j, 8 * j + 8));
        }
    }
    assert(a =~= b);
}

/// The bytes of the `8n` low bits of `x` are its `n` low bytes.
proof fn lemma_bits_octets_nat_bits(x: nat, n: nat)
    ensures
        bits_octets(nat_bits(x, 8 * n)) == be_bytes(x, n),
    decreases n,
{
    lemma_nat_bits_len(x, 8 * n);
    lemma2_to64();
    if n == 0 {
        assert(bits_octets(nat_bits(x, 0)) =~= Seq::<u8>::empty());
    } else {
        let m = (n - 1) as nat;
        lemma_nat_bits_split(x, 8 * m, 8);
        assert(8 * m + 8 == 8 * n);
        lemma_nat_bits_len(x / 256, 8 * m);
        lemma_nat_bits_len(x, 8);
        lemma_bits_octets_concat(nat_bits(x / 256, 8 * m), nat_bits(x, 8));
        lemma_bits_octets_nat_bits(x / 256, m);
        lemma_bits_value_nat_bits(x, 8);
        assert(nat_bits(x, 8).subrange(0, 8) =~= nat_bits(x, 8));
        assert(bits_octets(nat_bits(x, 8)) =~= seq![(x % 256) as u8]);
        assert(be_bytes(x, n) == be_bytes(x / 256, m).push((x % 256) as u8));
        assert(be_bytes(x / 256, m) + seq![(x % 256) as u8] =~= be_bytes(x / 256, m).push((x % 256) as u8));
    }
}

/// What decoding the encoding of the double with bit pattern `v` gives: zero,
/// an infinity, or its sign, its 53-bit mantissa and its binary exponent.
pub open spec fn real_decomposition(v: u64) -> DecodedReal {
    if ieee_is_zero(v) {
        DecodedReal::Zero
    } else if v == PLUS_INFINITY_BITS {
        DecodedReal::PlusInfinity
    } else if v == MINUS_INFINITY_BITS {
        DecodedReal::MinusInfinity
    } else {
        DecodedReal::Binary {
            negative: ieee_is_negative(v),
            mantissa: real_mantissa(v) as u64,
            exponent: real_exponent(v) as i64,
        }
    }
}

/// A REAL reads back as the sign, mantissa and exponent of the double it
/// was written from, whatever follows it.
#[verifier::spinoff_prover]
#[verifier::rlimit(40)]
pub proof fn law_ber_real_roundtrip(v: u64, rest: Seq<u8>)
    ensures
        spec_dec_real(real_octets(v) + rest) == Some((real_decomposition(v), real_octets(v).len())),
{
    lemma_real_bits_len(v);
    lemma2_to64();
    lemma_nat_bits_len(0, 8);
    lemma_nat_bits_len(1, 8);
    lemma_nat_bits_len(0x40, 8);
    lemma_nat_bits_len(0x41, 8);
    lemma_bits_octets_nat_bits(0, 1);
    lemma_bits_octets_nat_bits(1, 1);
    lemma_bits_octets_nat_bits(0x40, 1);
    lemma_bits_octets_nat_bits(0x41, 1);
    assert(be_bytes(0, 1) =~= seq![0u8]);
    assert(be_bytes(1, 1) =~= seq![1u8]);
    assert(be_bytes(0x40, 1) =~= seq![0x40u8]);
    assert(be_bytes(0x41, 1) =~= seq![0x41u8]);
    if ieee_is_zero(v) {
        assert((real_octets(v) + rest)[0] == 0);
    } else if v == PLUS_INFINITY_BITS || v == MINUS_INFINITY_BITS {
        let h: nat = if v == PLUS_INFINITY_BITS { 0x40 } else { 0x41 };
        lemma_bits_octets_concat(nat_bits(1, 8), nat_bits(h, 8));
        let a = real_octets(v) + rest;
        assert(a[0] == 1);
        assert(a[1] == h);
    } else {
        let e = real_exponent(v);
        let m = real_mantissa(v);
        let el = sint_bytes(e);
        let ml = uint_bytes(m);
        let hd = real_header(v);
        let pe = (e % (pow2(8 * el) as int)) as nat;
        let lb = nat_bits(1 + el + ml, 8);
        let hb = nat_bits(hd, 8);
        let eb = nat_bits(pe, 8 * el);
        let mb = nat_bits(m, 8 * ml);
        lemma_sint_bytes_bound(e);
        lemma_uint_bytes_bound(m);
        lemma_pow2_pos(8 * el);
        lemma_nat_bits_len(1 + el + ml, 8);
        lemma_nat_bits_len(hd, 8);
        lemma_nat_bits_len(pe, 8 * el);
        lemma_nat_bits_len(m, 8 * ml);
        lemma_bits_octets_concat(lb, hb);
        lemma_bits_octets_concat(lb + hb, eb);
        lemma_bits_octets_concat(lb + hb + eb, mb);
        lemma_bits_octets_nat_bits(1 + el + ml, 1);
        lemma_bits_octets_nat_bits(hd, 1);
        lemma_bits_octets_nat_bits(pe, el);
        lemma_bits_octets_nat_bits(m, ml);
        let lo = be_bytes(1 + el + ml, 1);
        let ho = be_bytes(hd, 1);
        let eo = be_bytes(pe, el);
        let mo = be_bytes(m, ml);
        assert(real_octets(v) == lo + ho + eo + mo);
        assert(lo =~= seq![(1 + el + ml) as u8]);
        assert(ho =~= seq![hd as u8]);
        let a = real_octets(v) + rest;
        assert(a[0] == 1 + el + ml);
        assert(a[1] == hd);
        assert(hd % 4 + 1 == el);
        assert(exp_factor(hd) == 1);
        assert(mantissa_factor(hd) == 1);
        assert(a.subrange(2, 2 + el as int) =~= eo);
        assert(a.subrange(2 + el as int, 2 + el + ml as int) =~= mo);
        lemma_be_value_be_bytes(pe, el);
        lemma_be_value_be_bytes(m, ml);
        lemma_small_mod(pe, pow2(8 * el));
        lemma_small_mod(m, pow2(8 * ml));
        assert(m < 0x1_0000_0000_0000_0000);
        lemma_small_mod(m % pow2(8 * ml), 0x1_0000_0000_0000_0000);
        assert(sign_extend(pe, 8 * el) == e) by {
            lemma_pow2_unfold(8 * el);
            if e >= 0 {
                lemma_small_mod(e as nat, pow2(8 * el));
            } else {
                lemma_fundamental_div_mod_converse(e, pow2(8 * el) as int, -1, e + pow2(8 * el));
            }
        }
    }
}

// ─── Decoding what any encoder may write ───────────────────────────────

/// A BOOLEAN is true exactly when its content byte is not zero, whatever
/// non-zero byte the encoder chose.
pub proof fn law_ber_boolean_content(tag: BerTag, b: u8, rest: Seq<u8>)
    ensures
        spec_decode_boolean(ber_tag_bytes(tag) + seq![1u8, b] + rest, tag) == Ok::<(bool, nat), ErrorCode>(
            (b != 0, ber_tag_bytes(tag).len() + 2),
        ),
{
    let t = ber_tag_bytes(tag);
    let all = t + seq![1u8, b] + rest;
    law_ber_tag_roundtrip(tag, seq![1u8, b] + rest);
    assert(all =~= t + (seq![1u8, b] + rest));
    let after_tag = all.subrange(t.len() as int, all.len() as int);
    assert(after_tag =~= seq![1u8, b] + rest);
    assert(spec_decode_length(after_tag) == Ok::<(int, nat), ErrorCode>((1, 1)));
    assert(all[(t.len() + 1) as int] == b);
}

/// NULL decodes exactly when its short-form length is zero.
pub proof fn law_ber_null_length(tag: BerTag, n: u8, rest: Seq<u8>)
    requires
        n < 0x80,
    ensures
        spec_decode_null(ber_tag_bytes(tag) + seq![n] + rest, tag) == if n == 0 {
            Ok::<nat, ErrorCode>(ber_tag_bytes(tag).len() + 1)
        } else {
            Err(ErrorCode::BerLengthMismatch)
        },
{
    let t = ber_tag_bytes(tag);
    let all = t + seq![n] + rest;
    law_ber_tag_roundtrip(tag, seq![n] + rest);
    assert(all =~= t + (seq![n] + rest));
    let after_tag = all.subrange(t.len() as int, all.len() as int);
    assert(after_tag =~= seq![n] + rest);
    assert(spec_decode_length(after_tag) == Ok::<(int, nat), ErrorCode>((n as int, 1)));
}

/// An INTEGER with one to eight content bytes is the two's complement
/// number those bytes spell, most significant first.
pub proof fn law_ber_integer_content(tag: BerTag, c: Seq<u8>, rest: Seq<u8>)
    requires
        1 <= c.len() <= 8,
    ensures
        spec_decode_integer(ber_tag_bytes(tag) + seq![c.len() as u8] + c + rest, tag) == Ok::<(int, nat), ErrorCode>(
            (sign_extend(be_value(c), 8 * c.len()), ber_tag_bytes(tag).len() + 1 + c.len()),
        ),
{
    let t = ber_tag_bytes(tag);
    let all = t + seq![c.len() as u8] + c + rest;
    law_ber_tag_roundtrip(tag, seq![c.len() as u8] + c + rest);
    assert(all =~= t + (seq![c.len() as u8] + c + rest));
    let after_tag = all.subrange(t.len() as int, all.len() as int);
    assert(after_tag =~= seq![c.len() as u8] + c + rest);
    assert(spec_decode_length(after_tag) == Ok::<(int, nat), ErrorCode>((c.len() as int, 1)));
    let h = t.len() + 1;
    assert(all.subrange(h as int, (h + c.len()) as int) =~= c);
}

/// The three forms of a length: a first byte below 0x80 is the length
/// itself; 0x80 is the indefinite form (-1); 0x80 + l is followed by `l`
/// bytes holding the length, most significant first, which is accepted
/// whenever it is at most `i32::MAX` (whether or not the short form could
/// have held it) and refused otherwise.
pub proof fn law_ber_length_forms(b: u8, s: Seq<u8>, rest: Seq<u8>)
    requires
        1 <= s.len() <= 0x7F,
    ensures
        b < 0x80 ==> spec_decode_length(seq![b] + rest) == Ok::<(int, nat), ErrorCode>((b as int, 1)),
        spec_decode_length(seq![0x80u8] + rest) == Ok::<(int, nat), ErrorCode>((-1, 1)),
        be_value(s) <= 0x7FFF_FFFF ==> spec_decode_length(seq![(0x80 + s.len()) as u8] + s + rest) == Ok::<
            (int, nat),
            ErrorCode,
        >((be_value(s) as int, 1 + s.len())),
        be_value(s) > 0x7FFF_FFFF ==> spec_decode_length(seq![(0x80 + s.len()) as u8] + s + rest) == Err::<
            (int, nat),
            ErrorCode,
        >(ErrorCode::BerLengthMismatch),
{
    assert((seq![b] + rest)[0] == b);
    assert((seq![0x80u8] + rest)[0] == 0x80u8);
    let a = seq![(0x80 + s.len()) as u8] + s + rest;
    assert(a[0] == (0x80 + s.len()) as u8);
    assert(a.subrange(1, 1 + s.len() as int) =~= s);
}

/// Setting bit 0x20 of the octet at byte `ts - 1` from the bottom in two
/// words makes them equal exactly when they agree below that octet and
/// agree from that octet up once its bit 0x20 is set.
proof fn lemma_octet_masks(t: u64, v: u64)
    by (bit_vector)
    ensures
        ((t | (0x20u64 << 0u64)) == (v | (0x20u64 << 0u64))) == (v % 0x1u64 == t % 0x1u64
            && (v / 0x1u64 | 0x20u64) == (t / 0x1u64 | 0x20u64)),
        ((t | (0x20u64 << 8u64)) == (v | (0x20u64 << 8u64))) == (v % 0x100u64 == t % 0x100u64
            && (v / 0x100u64 | 0x20u64) == (t / 0x100u64 | 0x20u64)),
        ((t | (0x20u64 << 16u64)) == (v | (0x20u64 << 16u64))) == (v % 0x10000u64 == t % 0x10000u64
            && (v / 0x10000u64 | 0x20u64) == (t / 0x10000u64 | 0x20u64)),
        ((t | (0x20u64 << 24u64)) == (v | (0x20u64 << 24u64))) == (v % 0x1000000u64 == t % 0x1000000u64
            && (v / 0x1000000u64 | 0x20u64) == (t / 0x1000000u64 | 0x20u64)),
        ((t | (0x20u64 << 32u64)) == (v | (0x20u64 << 32u64))) == (v % 0x100000000u64 == t % 0x100000000u64
            && (v / 0x100000000u64 | 0x20u64) == (t / 0x100000000u64 | 0x20u64)),
        ((t | (0x20u64 << 40u64)) == (v | (0x20u64 << 40u64))) == (v % 0x10000000000u64 == t % 0x10000000000u64
            && (v / 0x10000000000u64 | 0x20u64) == (t / 0x10000000000u64 | 0x20u64)),
        ((t | (0x20u64 << 48u64)) == (v | (0x20u64 << 48u64))) == (v % 0x1000000000000u64 == t % 0x1000000000000u64
            && (v / 0x1000000000000u64 | 0x20u64) == (t / 0x1000000000000u64 | 0x20u64)),
        ((t | (0x20u64 << 56u64)) == (v | (0x20u64 << 56u64))) == (v % 0x100000000000000u64 == t % 0x100000000000000u64
            && (v / 0x100000000000000u64 | 0x20u64) == (t / 0x100000000000000u64 | 0x20u64)),
{
}

/// Two identifiers of `ts` bytes agree up to bit 0x20 of their first
/// octet exactly when they agree below that octet and agree in that octet
/// with bit 0x20 set.
proof fn lemma_first_octet_mask(t: u64, v: u64, ts: nat)
    requires
        1 <= ts <= 8,
    ensures
        ((t | primitive_bit(ts)) == (v | primitive_bit(ts))) == (v % (pow2((8 * (ts - 1)) as nat) as u64)
            == t % (pow2((8 * (ts - 1)) as nat) as u64) && (v / (pow2((8 * (ts - 1)) as nat) as u64) | 0x20u64)
            == (t / (pow2((8 * (ts - 1)) as nat) as u64) | 0x20u64)),
{
    lemma2_to64();
    lemma2_to64_rest();
    lemma_octet_masks(t, v);
    if ts == 1 {
        assert(pow2(0) == 0x1);
    } else if ts == 2 {
        assert(pow2(8) == 0x100);
    } else if ts == 3 {
        assert(pow2(16) == 0x10000);
    } else if ts == 4 {
        assert(pow2(24) == 0x1000000);
    } else if ts == 5 {
        assert(pow2(32) == 0x100000000);
    } else if ts == 6 {
        assert(pow2(40) == 0x10000000000);
    } else if ts == 7 {
        assert(pow2(48) == 0x1000000000000);
    } else if ts == 8 {
        assert(pow2(56) == 0x100000000000000);
    }
}

/// A tag is accepted exactly when the `ts` identifier bytes at the cursor
/// (`ts` the tag's byte count) equal it up to the constructed bit 0x20 of
/// the first identifier octet, and then those bytes are consumed; any other
/// identifier is refused.
pub proof fn law_ber_tag_match(tag: BerTag, s: Seq<u8>, rest: Seq<u8>)
    requires
        s.len() == uint_bytes(tag as nat),
    ensures
        ({
            let p = pow2((8 * (s.len() - 1)) as nat) as u64;
            let v = be_value(s) as u64;
            spec_decode_tag(s + rest, tag) == if v % p == tag % p && (v / p | 0x20u64) == (tag / p | 0x20u64) {
                Ok::<nat, ErrorCode>(s.len())
            } else {
                Err(ErrorCode::InsufficientData)
            }
        }),
{
    let ts = s.len();
    lemma_uint_bytes_bound(tag as nat);
    lemma_be_value_bound(s);
    assert((s + rest).subrange(0, ts as int) =~= s);
    assert(be_value(s) < 0x1_0000_0000_0000_0000) by {
        lemma2_to64();
        lemma2_to64_rest();
        if ts < 8 {
            vstd::arithmetic::power2::lemma_pow2_strictly_increases(8 * ts, 64);
        }
    }
    lemma_first_octet_mask(tag, be_value(s) as u64, ts);
}

/// An OCTET STRING longer than `max_oct_count` bytes is truncated: its
/// count reads as `max_oct_count`, its first `max_oct_count` bytes are
/// stored, and the whole of it is consumed.
pub proof fn law_ber_octet_string_truncates(tag: BerTag, c: Seq<u8>, max_oct_count: i32, rest: Seq<u8>)
    requires
        0 <= max_oct_count < c.len() <= 0x7FFF_FFFF,
    ensures
        ({
            let all = ber_string_bytes(tag, c, c.len() as i32) + rest;
            let n = ber_string_bytes(tag, c, c.len() as i32).len();
            &&& spec_decode_octet_string(all, tag, max_oct_count) == Ok::<(int, nat), ErrorCode>(
                (max_oct_count as int, n),
            )
            &&& octet_stored(all, tag, max_oct_count) == c.subrange(0, max_oct_count as int)
        }),
{
    let l = c.len() as i32;
    lemma_string_header(tag, c, l, rest);
    let t = ber_tag_bytes(tag);
    let lb = ber_length_bytes(l);
    let all = ber_string_bytes(tag, c, l) + rest;
    let h = t.len() + lb.len();
    assert(c.subrange(0, l as int) =~= c);
    assert(all.subrange(h as int, all.len() as int).subrange(0, max_oct_count as int) =~= c.subrange(
        0,
        max_oct_count as int,
    ));
}

/// An IA5String that leaves no room for a terminator in a buffer of
/// `max_length` bytes is refused, and nothing of it is stored.
pub proof fn law_ber_ia5_string_too_long(tag: BerTag, c: Seq<u8>, max_length: i32, rest: Seq<u8>)
    requires
        1 <= max_length <= c.len() <= 0x7FFF_FFFF,
    ensures
        ({
            let all = ber_string_bytes(tag, c, c.len() as i32) + rest;
            &&& spec_decode_ia5_string(all, tag, max_length) == Err::<(int, nat), ErrorCode>(
                ErrorCode::BerLengthMismatch,
            )
            &&& ia5_stored(all, tag, max_length) == Seq::<u8>::empty()
        }),
{
    lemma_string_header(tag, c, c.len() as i32, rest);
}

/// A BIT STRING whose content is longer than `max_bit_count` bits take is
/// truncated: its bit count reads as `max_bit_count`, the bytes those bits
/// take are stored, and the whole of it is consumed.
pub proof fn law_ber_bit_string_truncates(tag: BerTag, u: u8, c: Seq<u8>, max_bit_count: i32, rest: Seq<u8>)
    requires
        u <= 7,
        0 <= max_bit_count,
        bit_string_content_len(max_bit_count as int) < c.len() < 0x7FFF_FFFF,
    ensures
        ({
            let head = ber_tag_bytes(tag) + ber_length_bytes((c.len() + 1) as i32) + seq![u];
            let all = head + c + rest;
            &&& spec_decode_bit_string(all, tag, max_bit_count) == Ok::<(int, nat), ErrorCode>(
                (max_bit_count as int, head.len() + c.len()),
            )
            &&& bit_string_stored(all, tag, max_bit_count) == c.subrange(
                0,
                bit_string_content_len(max_bit_count as int),
            )
        }),
{
    let t = ber_tag_bytes(tag);
    let m = c.len();
    let lb = ber_length_bytes((m + 1) as i32);
    let all = t + lb + seq![u] + c + rest;
    law_ber_tag_roundtrip(tag, lb + seq![u] + c + rest);
    assert(all =~= t + (lb + seq![u] + c + rest));
    let after_tag = all.subrange(t.len() as int, all.len() as int);
    assert(after_tag =~= lb + (seq![u] + c + rest));
    law_ber_length_roundtrip((m + 1) as i32, seq![u] + c + rest);
    let h = t.len() + lb.len();
    assert(all[h as int] == u);
    let k = bit_string_content_len(max_bit_count as int);
    assert(all.subrange((h + 1) as int, all.len() as int).subrange(0, k) =~= c.subrange(0, k));
    assert(8 * (m - 1) >= 8 * k);
    assert(8 * k >= max_bit_count);
}

/// An INTEGER is written in the fewest content bytes that hold it in two's
/// complement: the length byte `l` after the tag is such that the value
/// fits in `l` bytes and, when `l > 1`, not in `l - 1`.
pub proof fn law_ber_integer_minimal(tag: BerTag, value: Asn1SccSint)
    ensures
        ({
            let t = ber_tag_bytes(tag);
            let l = ber_integer_bytes(tag, value)[t.len() as int] as nat;
            &&& ber_integer_bytes(tag, value).len() == t.len() + 1 + l
            &&& 1 <= l <= 8
            &&& fits_signed_bytes(value as int, l)
            &&& l > 1 ==> !fits_signed_bytes(value as int, (l - 1) as nat)
        }),
{
    lemma_sint_bytes_bound(value as int);
    let t = ber_tag_bytes(tag);
    let l = sint_bytes(value as int);
    assert(ber_integer_bytes(tag, value)[t.len() as int] == l as u8);
}

/// A big-endian number is its first byte, scaled, plus the number the
/// other bytes spell.
proof fn lemma_be_value_split_first(s: Seq<u8>)
    requires
        s.len() >= 1,
    ensures
        be_value(s) == s[0] * pow2((8 * (s.len() - 1)) as nat) + be_value(s.subrange(1, s.len() as int)),
    decreases s.len(),
{
    lemma2_to64();
    if s.len() == 1 {
        assert(s.drop_last().len() == 0);
        assert(be_value(s.drop_last()) == 0);
        assert(s.subrange(1, 1).len() == 0);
        assert(be_value(s.subrange(1, 1)) == 0);
        assert(pow2(0) == 1);
        assert(s.last() == s[0]);
    } else {
        let d = s.drop_last();
        lemma_be_value_split_first(d);
        let n = s.len();
        let q = pow2((8 * (n - 2)) as nat);
        lemma_pow2_adds(8, (8 * (n - 2)) as nat);
        assert((8 * (n - 1)) as nat == 8 + (8 * (n - 2)) as nat);
        let tail = s.subrange(1, n as int);
        assert(tail.drop_last() =~= d.subrange(1, d.len() as int));
        assert(tail.last() == s.last());
        assert(d[0] == s[0]);
        assert(pow2((8 * (n - 1)) as nat) == 256 * q);
        let x = be_value(d.subrange(1, d.len() as int));
        assert(be_value(d) == d[0] * q + x);
        assert(be_value(s) == 256 * be_value(d) + s.last());
        assert(be_value(tail) == 256 * x + s.last());
        assert(256 * (s[0] * q) == s[0] * (256 * q)) by (nonlinear_arith);
        assert(be_value(s) == 256 * (s[0] * q) + 256 * x + s.last());
    }
}

/// The minimal big-endian bytes of `v` spell it, number at most eight, and
/// begin with a non-zero byte unless `v` is zero.
proof fn lemma_minimal_bytes(v: nat)
    requires
        v < 0x1_0000_0000_0000_0000,
    ensures
        be_value(be_bytes(v, uint_bytes(v))) == v,
        be_bytes(v, uint_bytes(v)).len() == uint_bytes(v),
        1 <= uint_bytes(v) <= 8,
        v != 0 ==> be_bytes(v, uint_bytes(v))[0] != 0,
{
    let n = uint_bytes(v);
    lemma_uint_bytes_bound(v);
    lemma_be_value_be_bytes_small(v, n);
    let b = be_bytes(v, n);
    if v != 0 && b[0] == 0 {
        if n == 1 {
            assert(be_value(b) == b[0]) by {
                assert(b.drop_last().len() == 0);
                assert(be_value(b.drop_last()) == 0);
            }
        } else {
            lemma_be_value_bound(b.subrange(1, n as int));
            lemma_be_value_split_first(b);
            lemma2_to64();
        }
    }
}

/// A tag is written as the fewest bytes that spell it, most significant
/// first: they denote the tag, and the first is not zero unless the tag
/// is zero.
pub proof fn law_ber_tag_bytes_minimal(tag: BerTag)
    ensures
        be_value(ber_tag_bytes(tag)) == tag,
        1 <= ber_tag_bytes(tag).len() <= 8,
        tag != 0 ==> ber_tag_bytes(tag)[0] != 0,
{
    lemma_minimal_bytes(tag as nat);
}

/// A length up to 0x7F is written as one byte holding it; a longer one as
/// 0x80 plus the number of bytes that follow, then the fewest bytes that
/// spell it, most significant first.
pub proof fn law_ber_length_bytes_form(value: i32)
    requires
        0 <= value,
    ensures
        value <= 0x7F ==> ber_length_bytes(value) == seq![value as u8],
        value > 0x7F ==> ({
            let b = ber_length_bytes(value);
            &&& 2 <= b.len() <= 5
            &&& b[0] == 0x80 + (b.len() - 1)
            &&& b[1] != 0
            &&& be_value(b.subrange(1, b.len() as int)) == value
        }),
{
    if value > 0x7F {
        lemma_minimal_bytes(value as nat);
        lemma_uint_bytes_bound(value as nat);
        let b = ber_length_bytes(value);
        let c = be_bytes(value as nat, uint_bytes(value as nat));
        assert(b.subrange(1, b.len() as int) =~= c);
        assert(b[1] == c[0]);
    }
}

} // verus!
