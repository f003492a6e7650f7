//! ACN decimal integer encodings: BCD (one digit per nibble) and ASCII
//! (one digit character per byte), in constant size, length-embedded and
//! terminated forms.
use vstd::prelude::*;
use vstd::arithmetic::div_mod::*;
use vstd::arithmetic::power2::*;
use crate::{Asn1SccSint, Asn1SccUint};
use crate::bits::{
    bits_value, lemma_bits_value_bound, lemma_bits_value_nat_bits_small, lemma_nat_bits_len,
    lemma_octet_bits_len, nat_bits, octet_bits,
};
use crate::bitstream::{lemma_wrote_concat, lemma_wrote_nothing, BitStream};
use crate::octets::wrap_i64;

verus! {

broadcast use lemma_nat_bits_len;

// ─── Decimal arithmetic ────────────────────────────────────────────────

/// `10^n`.
pub open spec fn pow10(n: nat) -> nat
    decreases n,
{
    if n == 0 {
        1
    } else {
        10 * pow10((n - 1) as nat)
    }
}

/// The number that a sequence of decimal digits denotes, most significant first.
pub open spec fn dec_value(ds: Seq<nat>) -> nat
    decreases ds.len(),
{
    if ds.len() == 0 {
        0
    } else {
        10 * dec_value(ds.drop_last()) + ds.last()
    }
}

/// `v` divided by `10^k`.
pub open spec fn div10k(v: nat, k: nat) -> nat
    decreases k,
{
    if k == 0 {
        v
    } else {
        div10k(v, (k - 1) as nat) / 10
    }
}

/// The `n` low decimal digits of `v`, each written as `off + digit` in `w`
/// bits, most significant digit first.
pub open spec fn digit_bits(v: nat, n: nat, w: nat, off: nat) -> Seq<bool>
    decreases n,
{
    if n == 0 {
        Seq::empty()
    } else {
        digit_bits(v / 10, (n - 1) as nat, w, off) + nat_bits(off + v % 10, w)
    }
}

/// Number of decimal digits of `v` (none for zero).
pub open spec fn bcd_size(v: nat) -> nat
    decreases v,
{
    if v == 0 {
        0
    } else {
        1 + bcd_size(v / 10)
    }
}

/// Number of decimal digits of `v` (one for zero).
pub open spec fn num_digits(v: nat) -> nat {
    if v == 0 {
        1
    } else {
        bcd_size(v)
    }
}

/// The symbol of `w` bits at index `i` after bit position `p`.
pub open spec fn symbol_at(bits: Seq<bool>, p: int, w: int, i: int) -> nat {
    bits_value(bits.subrange(p + w * i, p + w * i + w))
}

/// The `n` symbols of `w` bits that follow the cursor.
pub open spec fn symbols(b: Seq<bool>, p: int, n: int, w: int) -> Seq<nat> {
    Seq::new(n as nat, |i: int| symbol_at(b, p, w, i))
}

/// Every symbol is a digit written as `off + digit`.
pub open spec fn all_digits(syms: Seq<nat>, off: nat) -> bool {
    forall|i: int| 0 <= i < syms.len() ==> off <= #[trigger] syms[i] <= off + 9
}

/// The digits that the symbols stand for.
pub open spec fn digit_values(syms: Seq<nat>, off: nat) -> Seq<nat> {
    Seq::new(syms.len(), |i: int| (syms[i] - off) as nat)
}

/// `n` decimal digits written as `off + digit` in `w` bits each, whose
/// value must fit in a `u64`.
pub open spec fn spec_dec_decimal(b: Seq<bool>, p: int, n: int, w: int, off: nat) -> Option<
    (int, int),
> {
    let syms = symbols(b, p, n, w);
    if n > 0 && b.len() - p < w * n {
        None
    } else if !all_digits(syms, off) {
        None
    } else if dec_value(digit_values(syms, off)) > 0xFFFF_FFFF_FFFF_FFFF {
        None
    } else {
        Some((dec_value(digit_values(syms, off)) as int, w * n))
    }
}

/// Dropping the last digits does not increase the value.
pub proof fn lemma_dec_value_prefix(ds: Seq<nat>, i: int)
    requires
        0 <= i <= ds.len(),
    ensures
        dec_value(ds.subrange(0, i)) <= dec_value(ds),
    decreases ds.len() - i,
{
    if i < ds.len() {
        assert(ds.subrange(0, i) =~= ds.drop_last().subrange(0, i));
        lemma_dec_value_prefix(ds.drop_last(), i);
    } else {
        assert(ds.subrange(0, i) =~= ds);
    }
}

/// Once `div10k` reaches zero it stays there.
proof fn lemma_div10k_zero(v: nat, t: nat, k: nat)
    requires
        t <= k,
        div10k(v, t) == 0,
    ensures
        div10k(v, k) == 0,
    decreases k - t,
{
    if t < k {
        lemma_div10k_zero(v, t, (k - 1) as nat);
    }
}

/// The digits of a `u64`: `div10k` reaches zero after at most 20 divisions.
proof fn lemma_div10k_max()
    ensures
        div10k(0xFFFF_FFFF_FFFF_FFFF, 20) == 0,
{
    reveal_with_fuel(div10k, 21);
}

/// Dividing a smaller number by `10^k` gives a smaller quotient.
proof fn lemma_div10k_mono(a: nat, b: nat, k: nat)
    requires
        a <= b,
    ensures
        div10k(a, k) <= div10k(b, k),
    decreases k,
{
    if k > 0 {
        lemma_div10k_mono(a, b, (k - 1) as nat);
        lemma_div_is_ordered(div10k(a, (k - 1) as nat) as int, div10k(b, (k - 1) as nat) as int, 10);
    }
}

/// One step of writing the digits of `v` from the most significant end.
proof fn lemma_digit_bits_step(v: nat, i: nat, m: nat, w: nat, off: nat)
    ensures
        digit_bits(div10k(v, i), m + 1, w, off) == digit_bits(div10k(v, i + 1), m, w, off) + nat_bits(
            off + div10k(v, i) % 10,
            w,
        ),
{
}

/// The decimal digits of `v` from the least significant end, zero-padded to 100.
fn decimal_digits(int_val: Asn1SccUint) -> (r: (Vec<u8>, i32))
    ensures
        r.0@.len() == 100,
        0 <= r.1 <= 20,
        r.1 == bcd_size(int_val as nat),
        forall|j: int| 0 <= j < 100 ==> #[trigger] r.0@[j] as nat == div10k(int_val as nat, j as nat) % 10,
{
    let mut tmp: Vec<u8> = vec![0u8; 100];
    let mut total_nibbles: i32 = 0;
    let mut val = int_val;
    proof {
        lemma_div10k_max();
    }
    while val > 0
        invariant
            tmp@.len() == 100,
            0 <= total_nibbles <= 20,
            val as nat == div10k(int_val as nat, total_nibbles as nat),
            val as nat <= div10k(0xFFFF_FFFF_FFFF_FFFF, total_nibbles as nat),
            div10k(0xFFFF_FFFF_FFFF_FFFF, 20) == 0,
            bcd_size(int_val as nat) == total_nibbles + bcd_size(val as nat),
            forall|j: int|
                0 <= j < total_nibbles ==> #[trigger] tmp@[j] as nat == div10k(int_val as nat, j as nat)
                    % 10,
            forall|j: int| total_nibbles <= j < 100 ==> #[trigger] tmp@[j] == 0,
        decreases val,
    {
        if total_nibbles == 20 {
            proof {
                assert(false);
            }
        }
        tmp.set(total_nibbles as usize, (val % 10) as u8);
        proof {
            lemma_div_is_ordered(
                val as int,
                div10k(0xFFFF_FFFF_FFFF_FFFF, total_nibbles as nat) as int,
                10,
            );
        }
        total_nibbles = total_nibbles + 1;
        val = val / 10;
    }
    proof {
        assert forall|j: int| 0 <= j < 100 implies #[trigger] tmp@[j] as nat == div10k(
            int_val as nat,
            j as nat,
        ) % 10 by {
            if j >= total_nibbles {
                lemma_div10k_zero(int_val as nat, total_nibbles as nat, j as nat);
            }
        }
    }
    (tmp, total_nibbles)
}

/// Write the `n` low decimal digits of `v` (`n` at most 100), most
/// significant first, each as `off + digit` in `w` bits (4 or 8).
fn write_digits(p_bit_strm: &mut BitStream, int_val: Asn1SccUint, n: i32, w: u8, off: u8)
    requires
        old(p_bit_strm).wf(),
        n <= 100,
        w == 4 || w == 8,
        off == 0 || off == 48,
        w == 4 ==> off == 0,
        old(p_bit_strm).remaining() >= w * (if n > 0 { n as int } else { 0 }),
    ensures
        final(p_bit_strm).wrote(
            *old(p_bit_strm),
            digit_bits(int_val as nat, if n > 0 { n as nat } else { 0 }, w as nat, off as nat),
        ),
{
    let ghost s0 = *p_bit_strm;
    let ghost nn: nat = if n > 0 { n as nat } else { 0 };
    let (tmp, _) = decimal_digits(int_val);
    let mut i: i32 = if n > 0 { n } else { 0 };
    proof {
        lemma_wrote_nothing(s0, *p_bit_strm);
        assert(digit_bits(div10k(int_val as nat, nn), 0, w as nat, off as nat) =~= Seq::<bool>::empty());
    }
    while i > 0
        invariant
            0 <= i <= nn <= 100,
            nn == if n > 0 { n as nat } else { 0 },
            w == 4 || w == 8,
            off == 0 || off == 48,
            w == 4 ==> off == 0,
            s0 == *old(p_bit_strm),
            s0.wf(),
            s0.remaining() >= w * nn,
            tmp@.len() == 100,
            forall|j: int| 0 <= j < 100 ==> #[trigger] tmp@[j] as nat == div10k(int_val as nat, j as nat)
                % 10,
            p_bit_strm.wrote(
                s0,
                digit_bits(div10k(int_val as nat, i as nat), (nn - i) as nat, w as nat, off as nat),
            ),
        decreases i,
    {
        let k = i - 1;
        let d = tmp[k as usize];
        assert(d < 10);
        let sym: u8 = d + off;
        let ghost s1 = *p_bit_strm;
        proof {
            lemma_digit_bits_step(int_val as nat, k as nat, (nn - i) as nat, w as nat, off as nat);
            let pre = digit_bits(div10k(int_val as nat, i as nat), (nn - i) as nat, w as nat, off as nat);
            lemma_digit_bits_len(div10k(int_val as nat, i as nat), (nn - i) as nat, w as nat, off as nat);
            assert(w * (nn - i) + w <= w * nn) by (nonlinear_arith)
                requires
                    i >= 1,
                    i <= nn,
            ;
        }
        p_bit_strm.append_partial_byte(sym, w, false);
        proof {
            let pre = digit_bits(div10k(int_val as nat, i as nat), (nn - i) as nat, w as nat, off as nat);
            lemma_wrote_concat(s0, s1, *p_bit_strm, pre, nat_bits(sym as nat, w as nat));
            assert((k + 1) as nat == i as nat);
            assert((nn - k) as nat == (nn - i) as nat + 1);
        }
        i = k;
    }
}

/// The length of the bits of `n` digits of `w` bits.
pub proof fn lemma_digit_bits_len(v: nat, n: nat, w: nat, off: nat)
    ensures
        digit_bits(v, n, w, off).len() == w * n,
    decreases n,
{
    if n > 0 {
        lemma_digit_bits_len(v / 10, (n - 1) as nat, w, off);
        lemma_nat_bits_len(off + v % 10, w);
        assert(digit_bits(v, n, w, off) == digit_bits(v / 10, (n - 1) as nat, w, off) + nat_bits(
            off + v % 10,
            w,
        ));
        assert(w * (n - 1) + w == w * n) by (nonlinear_arith)
            requires
                n >= 1,
        ;
    } else {
        assert(w * n == 0) by (nonlinear_arith)
            requires
                n == 0,
        ;
    }
}

// ─── BCD ───────────────────────────────────────────────────────────────

/// Number of decimal digits of `int_val` (none for zero).
fn acn_get_int_size_bcd(int_val: Asn1SccUint) -> (r: i32)
    ensures
        r == bcd_size(int_val as nat),
        0 <= r <= 20,
{
    let (_, n) = decimal_digits(int_val);
    n
}

/// Write the `encoded_size_in_nibbles` low decimal digits of `int_val`, one
/// per nibble, most significant first.
pub fn acn_enc_int_bcd_const_size(
    p_bit_strm: &mut BitStream,
    int_val: Asn1SccUint,
    encoded_size_in_nibbles: i32,
)
    requires
        old(p_bit_strm).wf(),
        encoded_size_in_nibbles <= 100,
        old(p_bit_strm).remaining() >= 4 * (if encoded_size_in_nibbles > 0 {
            encoded_size_in_nibbles as int
        } else {
            0
        }),
    ensures
        final(p_bit_strm).wrote(
            *old(p_bit_strm),
            digit_bits(
                int_val as nat,
                if encoded_size_in_nibbles > 0 { encoded_size_in_nibbles as nat } else { 0 },
                4,
                0,
            ),
        ),
{
    write_digits(p_bit_strm, int_val, encoded_size_in_nibbles, 4, 0);
}

/// A BCD field of `n` nibbles.
pub open spec fn spec_dec_bcd(b: Seq<bool>, p: int, n: int) -> Option<(int, int)> {
    if n < 0 {
        None
    } else {
        spec_dec_decimal(b, p, n, 4, 0)
    }
}

/// Read `n` symbols of `w` bits (4 or 8), each a digit written as
/// `off + digit`, as a decimal number that must fit in a `u64`.
fn read_digits(p_bit_strm: &mut BitStream, n: i32, w: u8, off: u8) -> (r: (Asn1SccUint, bool))
    requires
        old(p_bit_strm).wf(),
        0 <= n,
        w == 4 || w == 8,
        off == 0 || off == 48,
    ensures
        final(p_bit_strm).decoded(
            *old(p_bit_strm),
            r.0 as int,
            r.1,
            spec_dec_decimal(old(p_bit_strm).bits(), old(p_bit_strm).pos(), n as int, w as int, off as nat),
        ),
{
    let ghost s0 = *p_bit_strm;
    let ghost full = symbols(s0.bits(), s0.pos(), n as int, w as int);
    let mut ret: Asn1SccUint = 0;
    let mut remaining = n;
    proof {
        assert(digit_values(symbols(s0.bits(), s0.pos(), 0, w as int), off as nat) =~= Seq::<nat>::empty());
    }
    while remaining > 0
        invariant
            0 <= remaining <= n,
            w == 4 || w == 8,
            off == 0 || off == 48,
            s0 == *old(p_bit_strm),
            s0.wf(),
            full == symbols(s0.bits(), s0.pos(), n as int, w as int),
            p_bit_strm.same_buffer(s0),
            n - remaining > 0 ==> s0.remaining() >= w * (n - remaining),
            p_bit_strm.pos() == s0.pos() + w * (n - remaining),
            all_digits(symbols(s0.bits(), s0.pos(), n - remaining, w as int), off as nat),
            ret as nat == dec_value(digit_values(symbols(s0.bits(), s0.pos(), n - remaining, w as int), off as nat)),
        decreases remaining,
    {
        let ghost i = n - remaining;
        let ghost s1 = *p_bit_strm;
        let (sym, ok) = p_bit_strm.read_partial_byte(w);
        proof {
            assert(s1.remaining() == s0.remaining() - w * i);
            if !ok {
                assert(s0.remaining() < w * n) by (nonlinear_arith)
                    requires
                        s0.remaining() - w * i < w,
                        i < n,
                        w > 0,
                ;
            }
        }
        if !ok {
            return (0, false);
        }
        proof {
            assert(w * i + w == w * (i + 1)) by (nonlinear_arith);
            assert(w * (i + 1) <= w * n) by (nonlinear_arith)
                requires
                    i < n,
                    w > 0,
            ;
            assert(s1.next_bits(w as int) =~= s0.bits().subrange(
                s0.pos() + w * i,
                s0.pos() + w * i + w,
            ));
            assert(full[i] == sym);
            lemma_bits_value_bound(s1.next_bits(w as int));
        }
        if sym < off || sym - off > 9 {
            proof {
                assert(!all_digits(full, off as nat));
            }
            return (0, false);
        }
        let d = (sym - off) as Asn1SccUint;
        let ghost pre = symbols(s0.bits(), s0.pos(), i + 1, w as int);
        proof {
            assert(symbols(s0.bits(), s0.pos(), i, w as int) =~= pre.drop_last());
            assert(digit_values(pre, off as nat).drop_last() =~= digit_values(
                symbols(s0.bits(), s0.pos(), i, w as int),
                off as nat,
            ));
            assert(pre.last() == sym);
        }
        if ret > (0xFFFF_FFFF_FFFF_FFFFu64 - d) / 10 {
            proof {
                assert(dec_value(digit_values(pre, off as nat)) > 0xFFFF_FFFF_FFFF_FFFF);
                if all_digits(full, off as nat) {
                    let dv = digit_values(full, off as nat);
                    assert(dv.subrange(0, i + 1) =~= digit_values(pre, off as nat));
                    lemma_dec_value_prefix(dv, i + 1);
                }
            }
            return (0, false);
        }
        ret = ret * 10 + d;
        remaining = remaining - 1;
        proof {
            let prev = symbols(s0.bits(), s0.pos(), i, w as int);
            assert forall|j: int| 0 <= j < pre.len() implies off <= #[trigger] pre[j] <= off + 9 by {
                if j < i {
                    assert(pre[j] == prev[j]);
                }
            }
        }
    }
    proof {
        assert(symbols(s0.bits(), s0.pos(), n as int, w as int) == full);
    }
    (ret, true)
}

/// Read a BCD field of `encoded_size_in_nibbles` nibbles.
pub fn acn_dec_int_bcd_const_size(p_bit_strm: &mut BitStream, encoded_size_in_nibbles: i32) -> (r: (
    Asn1SccUint,
    bool,
))
    requires
        old(p_bit_strm).wf(),
    ensures
        final(p_bit_strm).decoded(
            *old(p_bit_strm),
            r.0 as int,
            r.1,
            spec_dec_bcd(old(p_bit_strm).bits(), old(p_bit_strm).pos(), encoded_size_in_nibbles as int),
        ),
{
    if encoded_size_in_nibbles < 0 {
        return (0, false);
    }
    read_digits(p_bit_strm, encoded_size_in_nibbles, 4, 0)
}

/// The bits of a length-embedded BCD integer: the number of digits in one
/// byte, then the digits.
pub open spec fn bcd_var_bits(v: nat) -> Seq<bool> {
    nat_bits(bcd_size(v), 8) + digit_bits(v, bcd_size(v), 4, 0)
}

/// Write the number of decimal digits of `int_val` in one byte, then the digits.
pub fn acn_enc_int_bcd_var_size_length_embedded(p_bit_strm: &mut BitStream, int_val: Asn1SccUint)
    requires
        old(p_bit_strm).wf(),
        old(p_bit_strm).remaining() >= bcd_var_bits(int_val as nat).len(),
    ensures
        final(p_bit_strm).wrote(*old(p_bit_strm), bcd_var_bits(int_val as nat)),
{
    let ghost s0 = *p_bit_strm;
    let n_nibbles = acn_get_int_size_bcd(int_val);
    proof {
        lemma_digit_bits_len(int_val as nat, n_nibbles as nat, 4, 0);
    }
    p_bit_strm.append_byte0(n_nibbles as u8);
    let ghost s1 = *p_bit_strm;
    acn_enc_int_bcd_const_size(p_bit_strm, int_val, n_nibbles);
    proof {
        lemma_wrote_concat(
            s0,
            s1,
            *p_bit_strm,
            nat_bits(n_nibbles as nat, 8),
            digit_bits(int_val as nat, n_nibbles as nat, 4, 0),
        );
    }
}

/// A length-embedded BCD integer: a digit count (at most 16), then the digits.
pub open spec fn spec_dec_bcd_var(b: Seq<bool>, p: int) -> Option<(int, int)> {
    if b.len() - p < 8 {
        None
    } else {
        let l = bits_value(b.subrange(p, p + 8)) as int;
        if l > 16 {
            None
        } else {
            match spec_dec_decimal(b, p + 8, l, 4, 0) {
                Some((v, k)) => Some((v, 8 + k)),
                None => None,
            }
        }
    }
}

/// Read a length-embedded BCD integer.
pub fn acn_dec_int_bcd_var_size_length_embedded(p_bit_strm: &mut BitStream) -> (r: (
    Asn1SccUint,
    bool,
))
    requires
        old(p_bit_strm).wf(),
    ensures
        final(p_bit_strm).decoded(*old(p_bit_strm), r.0 as int, r.1, spec_dec_bcd_var(old(p_bit_strm).bits(), old(p_bit_strm).pos())),
{
    let ghost s0 = *p_bit_strm;
    let (n_nibbles, ok) = p_bit_strm.read_byte();
    if !ok {
        return (0, false);
    }
    if n_nibbles as i32 > 2 * crate::WORD_SIZE {
        return (0, false);
    }
    if n_nibbles as i32 > 20 {
        return (0, false);
    }
    acn_dec_int_bcd_const_size(p_bit_strm, n_nibbles as i32)
}

/// The bits of a BCD integer terminated by the nibble 0xF.
pub open spec fn bcd_null_bits(v: nat) -> Seq<bool> {
    digit_bits(v, bcd_size(v), 4, 0) + nat_bits(15, 4)
}

/// Write the decimal digits of `int_val`, one per nibble, then the nibble 0xF.
pub fn acn_enc_int_bcd_var_size_null_terminated(p_bit_strm: &mut BitStream, int_val: Asn1SccUint)
    requires
        old(p_bit_strm).wf(),
        old(p_bit_strm).remaining() >= bcd_null_bits(int_val as nat).len(),
    ensures
        final(p_bit_strm).wrote(*old(p_bit_strm), bcd_null_bits(int_val as nat)),
{
    let ghost s0 = *p_bit_strm;
    let n_nibbles = acn_get_int_size_bcd(int_val);
    proof {
        lemma_digit_bits_len(int_val as nat, n_nibbles as nat, 4, 0);
    }
    acn_enc_int_bcd_const_size(p_bit_strm, int_val, n_nibbles);
    let ghost s1 = *p_bit_strm;
    p_bit_strm.append_partial_byte(0xF, 4, false);
    proof {
        lemma_wrote_concat(
            s0,
            s1,
            *p_bit_strm,
            digit_bits(int_val as nat, n_nibbles as nat, 4, 0),
            nat_bits(15, 4),
        );
    }
}

/// Index of the first nibble above 9 (the terminator) at or after nibble
/// `i`, when it lies within the stream.
pub open spec fn bcd_terminator(b: Seq<bool>, p: int, i: nat) -> Option<nat>
    decreases b.len() - p - 4 * i,
{
    if p + 4 * i + 4 > b.len() {
        None
    } else if symbol_at(b, p, 4, i as int) > 9 {
        Some(i)
    } else {
        bcd_terminator(b, p, i + 1)
    }
}

/// A BCD integer terminated by a nibble above 9, whose value must fit in a `u64`.
pub open spec fn spec_dec_bcd_null(b: Seq<bool>, p: int) -> Option<(int, int)> {
    match bcd_terminator(b, p, 0) {
        Some(t) => {
            let v = dec_value(digit_values(symbols(b, p, t as int, 4), 0));
            if v > 0xFFFF_FFFF_FFFF_FFFF {
                None
            } else {
                Some((v as int, (4 * t + 4) as int))
            }
        },
        None => None,
    }
}

/// What the scan for the terminator finds from nibble `i` on.
proof fn lemma_bcd_terminator(b: Seq<bool>, p: int, i: nat)
    ensures
        match bcd_terminator(b, p, i) {
            Some(t) => {
                &&& i <= t
                &&& p + 4 * t + 4 <= b.len()
                &&& symbol_at(b, p, 4, t as int) > 9
                &&& forall|j: int| i <= j < t ==> #[trigger] symbol_at(b, p, 4, j) <= 9
            },
            None => true,
        },
    decreases b.len() - p - 4 * i,
{
    if p + 4 * i + 4 > b.len() {
    } else if symbol_at(b, p, 4, i as int) > 9 {
    } else {
        lemma_bcd_terminator(b, p, i + 1);
    }
}

/// Read BCD digits up to the first nibble above 9, which ends the number.
pub fn acn_dec_int_bcd_var_size_null_terminated(p_bit_strm: &mut BitStream) -> (r: (
    Asn1SccUint,
    bool,
))
    requires
        old(p_bit_strm).wf(),
    ensures
        final(p_bit_strm).decoded(
            *old(p_bit_strm),
            r.0 as int,
            r.1,
            spec_dec_bcd_null(old(p_bit_strm).bits(), old(p_bit_strm).pos()),
        ),
{
    let ghost s0 = *p_bit_strm;
    let ghost b = s0.bits();
    let ghost p = s0.pos();
    let mut ret: Asn1SccUint = 0;
    let mut i: u64 = 0;
    proof {
        assert(digit_values(symbols(b, p, 0, 4), 0) =~= Seq::<nat>::empty());
    }
    loop
        invariant
            s0 == *old(p_bit_strm),
            s0.wf(),
            b == s0.bits(),
            p == s0.pos(),
            p_bit_strm.same_buffer(s0),
            p_bit_strm.pos() == p + 4 * i,
            i > 0 ==> p + 4 * i <= b.len(),
            i <= 0x1_0000_0000_0000,
            forall|j: int| 0 <= j < i ==> #[trigger] symbol_at(b, p, 4, j) <= 9,
            bcd_terminator(b, p, 0) == bcd_terminator(b, p, i as nat),
            all_digits(symbols(b, p, i as int, 4), 0),
            ret as nat == dec_value(digit_values(symbols(b, p, i as int, 4), 0)),
        decreases p_bit_strm.remaining(),
    {
        let ghost s1 = *p_bit_strm;
        let (digit, ok) = p_bit_strm.read_partial_byte(4);
        if !ok {
            proof {
                assert(bcd_terminator(b, p, i as nat) is None);
            }
            return (0, false);
        }
        proof {
            assert(s1.next_bits(4) =~= b.subrange(p + 4 * i, p + 4 * i + 4));
            assert(symbol_at(b, p, 4, i as int) == digit);
            lemma_bits_value_bound(s1.next_bits(4));
        }
        if digit > 9 {
            proof {
                assert(bcd_terminator(b, p, i as nat) == Some(i as nat));
            }
            return (ret, true);
        }
        let d = digit as Asn1SccUint;
        let ghost pre = symbols(b, p, i + 1, 4);
        proof {
            assert(symbols(b, p, i as int, 4) =~= pre.drop_last());
            assert(digit_values(pre, 0).drop_last() =~= digit_values(symbols(b, p, i as int, 4), 0));
            assert(pre.last() == digit);
        }
        if ret > (0xFFFF_FFFF_FFFF_FFFFu64 - d) / 10 {
            proof {
                assert(dec_value(digit_values(pre, 0)) > 0xFFFF_FFFF_FFFF_FFFF);
                lemma_bcd_terminator(b, p, i as nat);
                if let Some(t) = bcd_terminator(b, p, i as nat) {
                    assert(t != i);
                    let dv = digit_values(symbols(b, p, t as int, 4), 0);
                    assert(dv.subrange(0, i + 1) =~= digit_values(pre, 0));
                    lemma_dec_value_prefix(dv, i + 1);
                }
            }
            return (0, false);
        }
        ret = ret * 10 + d;
        proof {
            let prev = symbols(b, p, i as int, 4);
            assert forall|j: int| 0 <= j < pre.len() implies 0 <= #[trigger] pre[j] <= 9 by {
                if j < i {
                    assert(pre[j] == prev[j]);
                }
            }
        }
        i = i + 1;
    }
}

// ─── ASCII, constant size ─────────────────────────────────────────────

/// Write the `encoded_size_in_bytes` low decimal digits of `int_val` as
/// ASCII characters, most significant first.
pub fn acn_enc_uint_ascii_const_size(
    p_bit_strm: &mut BitStream,
    int_val: Asn1SccUint,
    encoded_size_in_bytes: i32,
)
    requires
        old(p_bit_strm).wf(),
        encoded_size_in_bytes <= 100,
        old(p_bit_strm).remaining() >= 8 * (if encoded_size_in_bytes > 0 {
            encoded_size_in_bytes as int
        } else {
            0
        }),
    ensures
        final(p_bit_strm).wrote(
            *old(p_bit_strm),
            digit_bits(
                int_val as nat,
                if encoded_size_in_bytes > 0 { encoded_size_in_bytes as nat } else { 0 },
                8,
                48,
            ),
        ),
{
    write_digits(p_bit_strm, int_val, encoded_size_in_bytes, 8, 48);
}

/// An ASCII decimal field of `n` characters (nothing is read when `n` is
/// not positive).
pub open spec fn spec_dec_uint_ascii(b: Seq<bool>, p: int, n: int) -> Option<(int, int)> {
    if n <= 0 {
        Some((0, 0))
    } else {
        spec_dec_decimal(b, p, n, 8, 48)
    }
}

/// Read an ASCII decimal field of `encoded_size_in_bytes` characters.
pub fn acn_dec_uint_ascii_const_size(p_bit_strm: &mut BitStream, encoded_size_in_bytes: i32) -> (r: (
    Asn1SccUint,
    bool,
))
    requires
        old(p_bit_strm).wf(),
    ensures
        final(p_bit_strm).decoded(
            *old(p_bit_strm),
            r.0 as int,
            r.1,
            spec_dec_uint_ascii(old(p_bit_strm).bits(), old(p_bit_strm).pos(), encoded_size_in_bytes as int),
        ),
{
    if encoded_size_in_bytes <= 0 {
        return (0, true);
    }
    read_digits(p_bit_strm, encoded_size_in_bytes, 8, 48)
}

/// `|v|`.
pub open spec fn abs_value(v: int) -> nat {
    if v >= 0 {
        v as nat
    } else {
        (-v) as nat
    }
}

/// The sign character of `v`.
pub open spec fn sign_char(v: int) -> nat {
    if v >= 0 {
        43
    } else {
        45
    }
}

/// The magnitude of an `i64` as a `u64`.
fn abs_uint(int_val: Asn1SccSint) -> (r: Asn1SccUint)
    ensures
        r == abs_value(int_val as int),
{
    if int_val >= 0 {
        int_val as Asn1SccUint
    } else {
        (-(int_val as i128)) as Asn1SccUint
    }
}

/// Write the sign character of `int_val`, then the `encoded_size_in_bytes - 1`
/// low decimal digits of its magnitude as ASCII characters.
pub fn acn_enc_sint_ascii_const_size(
    p_bit_strm: &mut BitStream,
    int_val: Asn1SccSint,
    encoded_size_in_bytes: i32,
)
    requires
        old(p_bit_strm).wf(),
        i32::MIN < encoded_size_in_bytes <= 101,
        old(p_bit_strm).remaining() >= 8 + 8 * (if encoded_size_in_bytes > 1 {
            encoded_size_in_bytes - 1
        } else {
            0
        }),
    ensures
        final(p_bit_strm).wrote(
            *old(p_bit_strm),
            nat_bits(sign_char(int_val as int), 8) + digit_bits(
                abs_value(int_val as int),
                if encoded_size_in_bytes > 1 { (encoded_size_in_bytes - 1) as nat } else { 0 },
                8,
                48,
            ),
        ),
{
    let ghost s0 = *p_bit_strm;
    let abs_int_val = abs_uint(int_val);
    p_bit_strm.append_byte0(if int_val >= 0 { 43u8 } else { 45u8 });
    let ghost s1 = *p_bit_strm;
    acn_enc_uint_ascii_const_size(p_bit_strm, abs_int_val, encoded_size_in_bytes - 1);
    proof {
        let m: nat = if encoded_size_in_bytes > 1 { (encoded_size_in_bytes - 1) as nat } else { 0 };
        lemma_digit_bits_len(abs_value(int_val as int), m, 8, 48);
        lemma_wrote_concat(
            s0,
            s1,
            *p_bit_strm,
            nat_bits(sign_char(int_val as int), 8),
            digit_bits(abs_value(int_val as int), m, 8, 48),
        );
    }
}

/// A signed ASCII decimal field of `n` characters: a sign character ('+'
/// or '-'), then `n - 1` digits.  The result wraps as `i64` arithmetic does.
pub open spec fn spec_dec_sint_ascii(b: Seq<bool>, p: int, n: int) -> Option<(int, int)> {
    if b.len() - p < 8 {
        None
    } else {
        let c = bits_value(b.subrange(p, p + 8));
        if c != 43 && c != 45 {
            None
        } else {
            match spec_dec_uint_ascii(b, p + 8, n - 1) {
                Some((v, k)) => Some((wrap_i64(if c == 45 { -v } else { v }), 8 + k)),
                None => None,
            }
        }
    }
}

/// Read a signed ASCII decimal field of `encoded_size_in_bytes` characters.
pub fn acn_dec_sint_ascii_const_size(p_bit_strm: &mut BitStream, encoded_size_in_bytes: i32) -> (r: (
    Asn1SccSint,
    bool,
))
    requires
        old(p_bit_strm).wf(),
        encoded_size_in_bytes > i32::MIN,
    ensures
        final(p_bit_strm).decoded(
            *old(p_bit_strm),
            r.0 as int,
            r.1,
            spec_dec_sint_ascii(old(p_bit_strm).bits(), old(p_bit_strm).pos(), encoded_size_in_bytes as int),
        ),
{
    let ghost s0 = *p_bit_strm;
    let (digit, ok) = p_bit_strm.read_byte();
    if !ok {
        return (0, false);
    }
    let sign: Asn1SccSint = if digit == 43u8 {
        1
    } else if digit == 45u8 {
        -1
    } else {
        return (0, false);
    };
    let (ret, ok) = acn_dec_uint_ascii_const_size(p_bit_strm, encoded_size_in_bytes - 1);
    if !ok {
        return (0, false);
    }
    let result = if sign < 0 {
        wrapping_neg_u64(ret)
    } else {
        wrap_to_i64(ret)
    };
    (result, true)
}

/// `v` reinterpreted as an `i64`.
fn wrap_to_i64(v: Asn1SccUint) -> (r: Asn1SccSint)
    ensures
        r == wrap_i64(v as int),
{
    if v <= 0x7FFF_FFFF_FFFF_FFFF {
        v as Asn1SccSint
    } else {
        (v as i128 - 0x1_0000_0000_0000_0000i128) as Asn1SccSint
    }
}

/// `-v` in `i64` arithmetic with wrap-around.
fn wrapping_neg_u64(v: Asn1SccUint) -> (r: Asn1SccSint)
    ensures
        r == wrap_i64(-(v as int)),
{
    if v == 0 {
        0
    } else if v <= 0x8000_0000_0000_0000 {
        (-(v as i128)) as Asn1SccSint
    } else {
        (0x1_0000_0000_0000_0000i128 - v as i128) as Asn1SccSint
    }
}

// ─── ASCII, variable size ─────────────────────────────────────────────

/// The decimal digits of `v` as ASCII characters, most significant first
/// ("0" for zero).
pub open spec fn ascii_digits_bits(v: nat) -> Seq<bool> {
    digit_bits(v, num_digits(v), 8, 48)
}

/// The ASCII characters of the decimal digits of `int_val`, most
/// significant first, zero-padded to 100 bytes, and their number.
fn get_integer_digits(int_val: Asn1SccUint) -> (r: (Vec<u8>, u8))
    ensures
        r.0@.len() == 100,
        r.1 == num_digits(int_val as nat),
        1 <= r.1 <= 20,
        forall|j: int|
            0 <= j < r.1 ==> #[trigger] r.0@[j] as nat == 48 + div10k(int_val as nat, (r.1 - 1 - j) as nat)
                % 10,
        forall|j: int| r.1 <= j < 100 ==> #[trigger] r.0@[j] == 0,
{
    let mut digits: Vec<u8> = vec![0u8; 100];
    if int_val > 0 {
        let (reversed, total) = decimal_digits(int_val);
        let mut i: i32 = 0;
        while i < total
            invariant
                0 <= i <= total <= 20,
                total == bcd_size(int_val as nat),
                reversed@.len() == 100,
                digits@.len() == 100,
                forall|j: int| 0 <= j < 100 ==> #[trigger] reversed@[j] as nat == div10k(int_val as nat, j as nat) % 10,
                forall|j: int|
                    0 <= j < i ==> #[trigger] digits@[j] as nat == 48 + div10k(int_val as nat, (total - 1 - j) as nat) % 10,
                forall|j: int| i <= j < 100 ==> #[trigger] digits@[j] == 0,
            decreases total - i,
        {
            let d = reversed[(total - 1 - i) as usize];
            assert(d < 10);
            digits.set(i as usize, 48 + d);
            i = i + 1;
        }
        proof {
            assert(bcd_size(int_val as nat) > 0);
        }
        (digits, total as u8)
    } else {
        digits.set(0, 48);
        (digits, 1)
    }
}

/// Write the `n` leading characters of `digits`, which hold the ASCII
/// decimal digits of `v`; stops at the first zero byte.
fn write_ascii_digits(p_bit_strm: &mut BitStream, digits: &Vec<u8>, n: u8, Ghost(v): Ghost<nat>)
    requires
        old(p_bit_strm).wf(),
        digits@.len() == 100,
        1 <= n <= 20,
        forall|j: int| 0 <= j < n ==> #[trigger] digits@[j] as nat == 48 + div10k(v, (n - 1 - j) as nat) % 10,
        forall|j: int| n <= j < 100 ==> #[trigger] digits@[j] == 0,
        old(p_bit_strm).remaining() >= 8 * n,
    ensures
        final(p_bit_strm).wrote(*old(p_bit_strm), digit_bits(v, n as nat, 8, 48)),
{
    let ghost s0 = *p_bit_strm;
    let mut i: usize = 0;
    proof {
        lemma_wrote_nothing(s0, *p_bit_strm);
        assert(digit_bits(div10k(v, n as nat), 0, 8, 48) =~= Seq::<bool>::empty());
    }
    while i < 100 && digits[i] != 0
        invariant
            i <= n <= 20,
            digits@.len() == 100,
            forall|j: int| 0 <= j < n ==> #[trigger] digits@[j] as nat == 48 + div10k(v, (n - 1 - j) as nat) % 10,
            forall|j: int| n <= j < 100 ==> #[trigger] digits@[j] == 0,
            s0 == *old(p_bit_strm),
            s0.wf(),
            s0.remaining() >= 8 * n,
            p_bit_strm.wrote(s0, digit_bits(div10k(v, (n - i) as nat), i as nat, 8, 48)),
        decreases 100 - i,
    {
        let ghost s1 = *p_bit_strm;
        let ghost k: nat = (n - 1 - i) as nat;
        proof {
            lemma_digit_bits_step(v, k, i as nat, 8, 48);
            lemma_digit_bits_len(div10k(v, (n - i) as nat), i as nat, 8, 48);
            assert(k + 1 == (n - i) as nat);
        }
        p_bit_strm.append_byte0(digits[i]);
        proof {
            lemma_wrote_concat(
                s0,
                s1,
                *p_bit_strm,
                digit_bits(div10k(v, (n - i) as nat), i as nat, 8, 48),
                nat_bits(48 + div10k(v, k) % 10, 8),
            );
        }
        i = i + 1;
    }
}

/// Write the number of decimal digits of `int_val` in one byte, then the
/// digits as ASCII characters.
pub fn acn_enc_uint_ascii_var_size_length_embedded(p_bit_strm: &mut BitStream, int_val: Asn1SccUint)
    requires
        old(p_bit_strm).wf(),
        old(p_bit_strm).remaining() >= 8 + 8 * num_digits(int_val as nat),
    ensures
        final(p_bit_strm).wrote(
            *old(p_bit_strm),
            nat_bits(num_digits(int_val as nat), 8) + ascii_digits_bits(int_val as nat),
        ),
{
    let ghost s0 = *p_bit_strm;
    let (digits, n_chars) = get_integer_digits(int_val);
    p_bit_strm.append_byte0(n_chars);
    let ghost s1 = *p_bit_strm;
    write_ascii_digits(p_bit_strm, &digits, n_chars, Ghost(int_val as nat));
    proof {
        lemma_digit_bits_len(int_val as nat, n_chars as nat, 8, 48);
        lemma_wrote_concat(
            s0,
            s1,
            *p_bit_strm,
            nat_bits(n_chars as nat, 8),
            ascii_digits_bits(int_val as nat),
        );
    }
}

/// Write the number of characters (digits of the magnitude, plus the sign)
/// in one byte, then the sign character, then the digits of the magnitude.
pub fn acn_enc_sint_ascii_var_size_length_embedded(p_bit_strm: &mut BitStream, int_val: Asn1SccSint)
    requires
        old(p_bit_strm).wf(),
        old(p_bit_strm).remaining() >= 16 + 8 * num_digits(abs_value(int_val as int)),
    ensures
        final(p_bit_strm).wrote(
            *old(p_bit_strm),
            nat_bits(num_digits(abs_value(int_val as int)) + 1, 8) + nat_bits(sign_char(int_val as int), 8)
                + ascii_digits_bits(abs_value(int_val as int)),
        ),
{
    let ghost s0 = *p_bit_strm;
    let abs_int_val = abs_uint(int_val);
    let (digits, n_chars) = get_integer_digits(abs_int_val);
    p_bit_strm.append_byte0(n_chars + 1);
    let ghost s1 = *p_bit_strm;
    p_bit_strm.append_byte0(if int_val >= 0 { 43u8 } else { 45u8 });
    let ghost s2 = *p_bit_strm;
    write_ascii_digits(p_bit_strm, &digits, n_chars, Ghost(abs_int_val as nat));
    proof {
        let a = nat_bits((n_chars + 1) as nat, 8);
        let sg = nat_bits(sign_char(int_val as int), 8);
        let d = ascii_digits_bits(abs_int_val as nat);
        lemma_digit_bits_len(abs_int_val as nat, n_chars as nat, 8, 48);
        lemma_wrote_concat(s0, s1, s2, a, sg);
        lemma_wrote_concat(s0, s2, *p_bit_strm, a + sg, d);
    }
}

/// A length-embedded unsigned ASCII integer: a character count in one
/// byte, then that many digit characters.
pub open spec fn spec_dec_uint_ascii_var(b: Seq<bool>, p: int) -> Option<(int, int)> {
    if b.len() - p < 8 {
        None
    } else {
        match spec_dec_uint_ascii(b, p + 8, bits_value(b.subrange(p, p + 8)) as int) {
            Some((v, k)) => Some((v, 8 + k)),
            None => None,
        }
    }
}

/// Read a length-embedded unsigned ASCII integer.
pub fn acn_dec_uint_ascii_var_size_length_embedded(p_bit_strm: &mut BitStream) -> (r: (
    Asn1SccUint,
    bool,
))
    requires
        old(p_bit_strm).wf(),
    ensures
        final(p_bit_strm).decoded(
            *old(p_bit_strm),
            r.0 as int,
            r.1,
            spec_dec_uint_ascii_var(old(p_bit_strm).bits(), old(p_bit_strm).pos()),
        ),
{
    let (n_chars, ok) = p_bit_strm.read_byte();
    if !ok {
        return (0, false);
    }
    acn_dec_uint_ascii_const_size(p_bit_strm, n_chars as i32)
}

/// A length-embedded signed ASCII integer: a character count in one byte
/// (the sign included), then the sign character and the digits.
pub open spec fn spec_dec_sint_ascii_var(b: Seq<bool>, p: int) -> Option<(int, int)> {
    if b.len() - p < 8 {
        None
    } else {
        match spec_dec_sint_ascii(b, p + 8, bits_value(b.subrange(p, p + 8)) as int) {
            Some((v, k)) => Some((v, 8 + k)),
            None => None,
        }
    }
}

/// Read a length-embedded signed ASCII integer.
pub fn acn_dec_sint_ascii_var_size_length_embedded(p_bit_strm: &mut BitStream) -> (r: (
    Asn1SccSint,
    bool,
))
    requires
        old(p_bit_strm).wf(),
    ensures
        final(p_bit_strm).decoded(
            *old(p_bit_strm),
            r.0 as int,
            r.1,
            spec_dec_sint_ascii_var(old(p_bit_strm).bits(), old(p_bit_strm).pos()),
        ),
{
    let (n_chars, ok) = p_bit_strm.read_byte();
    if !ok {
        return (0, false);
    }
    acn_dec_sint_ascii_const_size(p_bit_strm, n_chars as i32)
}

/// Write the decimal digits of `int_val` as ASCII characters, then the
/// bytes of `null_characters`.
pub fn acn_enc_uint_ascii_var_size_null_terminated(
    p_bit_strm: &mut BitStream,
    int_val: Asn1SccUint,
    null_characters: &[u8],
)
    requires
        old(p_bit_strm).wf(),
        old(p_bit_strm).remaining() >= 8 * num_digits(int_val as nat) + 8 * null_characters@.len(),
    ensures
        final(p_bit_strm).wrote(
            *old(p_bit_strm),
            ascii_digits_bits(int_val as nat) + octet_bits(null_characters@),
        ),
{
    let ghost s0 = *p_bit_strm;
    let (digits, n_chars) = get_integer_digits(int_val);
    write_ascii_digits(p_bit_strm, &digits, n_chars, Ghost(int_val as nat));
    let ghost s1 = *p_bit_strm;
    proof {
        lemma_digit_bits_len(int_val as nat, n_chars as nat, 8, 48);
    }
    p_bit_strm.append_octets(null_characters, null_characters.len());
    proof {
        assert(null_characters@.subrange(0, null_characters@.len() as int) =~= null_characters@);
        lemma_octet_bits_len(null_characters@);
        lemma_wrote_concat(
            s0,
            s1,
            *p_bit_strm,
            ascii_digits_bits(int_val as nat),
            octet_bits(null_characters@),
        );
    }
}

/// Write the sign character of `int_val`, the decimal digits of its
/// magnitude as ASCII characters, then the bytes of `null_characters`.
pub fn acn_enc_sint_ascii_var_size_null_terminated(
    p_bit_strm: &mut BitStream,
    int_val: Asn1SccSint,
    null_characters: &[u8],
)
    requires
        old(p_bit_strm).wf(),
        old(p_bit_strm).remaining() >= 8 + 8 * num_digits(abs_value(int_val as int)) + 8
            * null_characters@.len(),
    ensures
        final(p_bit_strm).wrote(
            *old(p_bit_strm),
            nat_bits(sign_char(int_val as int), 8) + ascii_digits_bits(abs_value(int_val as int))
                + octet_bits(null_characters@),
        ),
{
    let ghost s0 = *p_bit_strm;
    let abs_int_val = abs_uint(int_val);
    p_bit_strm.append_byte0(if int_val >= 0 { 43u8 } else { 45u8 });
    let ghost s1 = *p_bit_strm;
    acn_enc_uint_ascii_var_size_null_terminated(p_bit_strm, abs_int_val, null_characters);
    proof {
        let sg = nat_bits(sign_char(int_val as int), 8);
        let rest = ascii_digits_bits(abs_int_val as nat) + octet_bits(null_characters@);
        lemma_digit_bits_len(abs_int_val as nat, num_digits(abs_int_val as nat), 8, 48);
        lemma_octet_bits_len(null_characters@);
        lemma_wrote_concat(s0, s1, *p_bit_strm, sg, rest);
        assert(sg + rest =~= sg + ascii_digits_bits(abs_int_val as nat) + octet_bits(null_characters@));
    }
}

// ─── ASCII, terminated ────────────────────────────────────────────────

/// The part of a terminator that takes part in the match: its first 10 bytes.
pub open spec fn terminator_prefix(nc: Seq<u8>) -> Seq<u8> {
    if nc.len() > 10 {
        nc.subrange(0, 10)
    } else {
        nc
    }
}

/// The bytes from byte `i` after bit position `p` on are those of `z`.
pub open spec fn window_is(b: Seq<bool>, p: int, z: Seq<u8>, i: int) -> bool {
    forall|k: int| 0 <= k < z.len() ==> #[trigger] symbol_at(b, p, 8, i + k) == z[k] as nat
}

/// Index of the first byte, at or after byte `i`, where the terminator `z`
/// starts, when every byte before it, from `i` on, is an ASCII digit and
/// the terminator lies within the stream.
pub open spec fn ascii_terminator(b: Seq<bool>, p: int, z: Seq<u8>, i: nat) -> Option<nat>
    decreases b.len() - p - 8 * i,
{
    if z.len() > 0 && p + 8 * (i + z.len()) > b.len() {
        None
    } else if window_is(b, p, z, i as int) {
        Some(i)
    } else if !(48 <= symbol_at(b, p, 8, i as int) <= 57) {
        None
    } else {
        ascii_terminator(b, p, z, i + 1)
    }
}

/// An unsigned ASCII integer followed by the terminator `nc` (of which the
/// first 10 bytes count), whose value must fit in a `u64`.
pub open spec fn spec_dec_uint_ascii_null(b: Seq<bool>, p: int, nc: Seq<u8>) -> Option<(int, int)> {
    let z = terminator_prefix(nc);
    match ascii_terminator(b, p, z, 0) {
        Some(t) => {
            let v = dec_value(digit_values(symbols(b, p, t as int, 8), 48));
            if v > 0xFFFF_FFFF_FFFF_FFFF {
                None
            } else {
                Some((v as int, (8 * (t + z.len())) as int))
            }
        },
        None => None,
    }
}

/// What the scan for the terminator finds from byte `i` on.
proof fn lemma_ascii_terminator(b: Seq<bool>, p: int, z: Seq<u8>, i: nat)
    ensures
        match ascii_terminator(b, p, z, i) {
            Some(t) => {
                &&& i <= t
                &&& window_is(b, p, z, t as int)
                &&& forall|j: int| i <= j < t ==> 48 <= #[trigger] symbol_at(b, p, 8, j) <= 57
            },
            None => true,
        },
    decreases b.len() - p - 8 * i,
{
    if z.len() > 0 && p + 8 * (i + z.len()) > b.len() {
    } else if window_is(b, p, z, i as int) {
    } else if !(48 <= symbol_at(b, p, 8, i as int) <= 57) {
    } else {
        lemma_ascii_terminator(b, p, z, i + 1);
    }
}

/// The first `n` bytes of `a` and `b` are equal.
pub(crate) fn prefix_eq(a: &[u8], b: &Vec<u8>, n: usize) -> (r: bool)
    requires
        n <= a@.len(),
        n <= b@.len(),
    ensures
        r == (forall|k: int| 0 <= k < n ==> a@[k] == b@[k]),
{
    let mut i: usize = 0;
    while i < n
        invariant
            i <= n <= a@.len(),
            n <= b@.len(),
            forall|k: int| 0 <= k < i ==> a@[k] == b@[k],
        decreases n - i,
    {
        if a[i] != b[i] {
            return false;
        }
        i = i + 1;
    }
    true
}

/// Read ASCII digits up to the terminator `null_characters` (of which the
/// first 10 bytes count).
pub fn acn_dec_uint_ascii_var_size_null_terminated(p_bit_strm: &mut BitStream, null_characters: &[u8]) -> (r: (
    Asn1SccUint,
    bool,
))
    requires
        old(p_bit_strm).wf(),
    ensures
        final(p_bit_strm).decoded(
            *old(p_bit_strm),
            r.0 as int,
            r.1,
            spec_dec_uint_ascii_null(old(p_bit_strm).bits(), old(p_bit_strm).pos(), null_characters@),
        ),
{
    let ghost s0 = *p_bit_strm;
    let ghost b = s0.bits();
    let ghost p = s0.pos();
    let ghost z = terminator_prefix(null_characters@);
    let mut ret: Asn1SccUint = 0;
    let sz: usize = if null_characters.len() < 10 { null_characters.len() } else { 10 };
    let mut tmp: Vec<u8> = vec![0u8; 10];
    let mut j: usize = 0;
    proof {
        assert(z.len() == sz);
    }
    while j < sz
        invariant
            j <= sz <= 10,
            tmp@.len() == 10,
            s0 == *old(p_bit_strm),
            s0.wf(),
            b == s0.bits(),
            p == s0.pos(),
            p_bit_strm.advanced(s0, 8 * j),
            j > 0 ==> p + 8 * j <= b.len(),
            z == terminator_prefix(null_characters@),
            z.len() == sz,
            forall|k: int| 0 <= k < j ==> #[trigger] tmp@[k] as nat == symbol_at(b, p, 8, k),
        decreases sz - j,
    {
        let ghost s1 = *p_bit_strm;
        let (c, ok) = p_bit_strm.read_byte();
        if !ok {
            proof {
                assert(ascii_terminator(b, p, z, 0) is None);
            }
            return (0, false);
        }
        proof {
            assert(s1.next_bits(8) =~= b.subrange(p + 8 * j, p + 8 * j + 8));
        }
        tmp.set(j, c);
        j = j + 1;
    }
    let ghost mut i: nat = 0;
    proof {
        assert(digit_values(symbols(b, p, 0, 8), 48) =~= Seq::<nat>::empty());
    }
    loop
        invariant
            sz <= 10,
            sz == z.len(),
            z == terminator_prefix(null_characters@),
            forall|k: int| 0 <= k < sz ==> #[trigger] z[k] == null_characters@[k],
            sz <= null_characters@.len(),
            tmp@.len() == 10,
            s0 == *old(p_bit_strm),
            s0.wf(),
            b == s0.bits(),
            p == s0.pos(),
            p_bit_strm.same_buffer(s0),
            p_bit_strm.pos() == p + 8 * (i + sz),
            sz > 0 ==> p + 8 * (i + sz) <= b.len(),
            sz == 0 ==> i == 0,
            forall|k: int| 0 <= k < sz ==> #[trigger] tmp@[k] as nat == symbol_at(b, p, 8, i + k),
            ascii_terminator(b, p, z, 0) == ascii_terminator(b, p, z, i),
            all_digits(symbols(b, p, i as int, 8), 48),
            ret as nat == dec_value(digit_values(symbols(b, p, i as int, 8), 48)),
        decreases p_bit_strm.remaining(),
    {
        let eq = prefix_eq(null_characters, &tmp, sz);
        if eq {
            proof {
                assert(window_is(b, p, z, i as int)) by {
                    assert forall|k: int| 0 <= k < z.len() implies #[trigger] symbol_at(b, p, 8, i + k) == z[k] as nat by {
                        assert(tmp@[k] as nat == symbol_at(b, p, 8, i + k));
                    }
                }
                assert(ascii_terminator(b, p, z, i) == Some(i));
            }
            return (ret, true);
        }
        proof {
            assert(!window_is(b, p, z, i as int));
            assert(sz > 0);
            assert(tmp@[0] as nat == symbol_at(b, p, 8, i + 0int));
        }
        let digit = tmp[0];
        if !(digit >= 48u8 && digit <= 57u8) {
            proof {
                assert(symbol_at(b, p, 8, i as int) == digit);
            }
            return (0, false);
        }
        let d = (digit - 48u8) as Asn1SccUint;
        let ghost pre = symbols(b, p, i + 1int, 8);
        proof {
            assert(symbol_at(b, p, 8, i as int) == digit);
            assert(symbols(b, p, i as int, 8) =~= pre.drop_last());
            assert(digit_values(pre, 48).drop_last() =~= digit_values(symbols(b, p, i as int, 8), 48));
            assert(pre.last() == digit);
        }
        if ret > (0xFFFF_FFFF_FFFF_FFFFu64 - d) / 10 {
            proof {
                assert(dec_value(digit_values(pre, 48)) > 0xFFFF_FFFF_FFFF_FFFF);
                lemma_ascii_terminator(b, p, z, i);
                if let Some(t) = ascii_terminator(b, p, z, i) {
                    assert(t != i);
                    let dv = digit_values(symbols(b, p, t as int, 8), 48);
                    assert(dv.subrange(0, i + 1int) =~= digit_values(pre, 48));
                    lemma_dec_value_prefix(dv, i + 1int);
                }
            }
            return (0, false);
        }
        let mut k: usize = 0;
        while k + 1 < sz
            invariant
                0 < sz <= 10,
                tmp@.len() == 10,
                k < sz,
                forall|m: int| 0 <= m < k ==> #[trigger] tmp@[m] as nat == symbol_at(b, p, 8, i + 1 + m),
                forall|m: int| k <= m < sz ==> #[trigger] tmp@[m] as nat == symbol_at(b, p, 8, i + m),
            decreases sz - k,
        {
            let next = tmp[k + 1];
            tmp.set(k, next);
            proof {
                assert(tmp@[k as int] as nat == symbol_at(b, p, 8, i + (k + 1)));
            }
            k = k + 1;
        }
        let ghost s1 = *p_bit_strm;
        let (c, ok) = p_bit_strm.read_byte();
        if !ok {
            proof {
                assert(ascii_terminator(b, p, z, (i + 1) as nat) is None);
            }
            return (0, false);
        }
        proof {
            assert(s1.next_bits(8) =~= b.subrange(p + 8 * (i + sz), p + 8 * (i + sz) + 8));
            assert(symbol_at(b, p, 8, (i + 1) + (sz - 1)) == c);
        }
        tmp.set(sz - 1, c);
        ret = ret * 10 + d;
        proof {
            let prev = symbols(b, p, i as int, 8);
            assert forall|m: int| 0 <= m < pre.len() implies 48 <= #[trigger] pre[m] <= 48 + 9 by {
                if m < i {
                    assert(pre[m] == prev[m]);
                }
            }
            i = i + 1;
        }
    }
}

/// A signed ASCII integer: a sign character ('+' or '-'), then an unsigned
/// one followed by the terminator `nc`.  The result wraps as `i64`
/// arithmetic does.
pub open spec fn spec_dec_sint_ascii_null(b: Seq<bool>, p: int, nc: Seq<u8>) -> Option<(int, int)> {
    if b.len() - p < 8 {
        None
    } else {
        let c = bits_value(b.subrange(p, p + 8));
        if c != 43 && c != 45 {
            None
        } else {
            match spec_dec_uint_ascii_null(b, p + 8, nc) {
                Some((v, k)) => Some((wrap_i64(if c == 45 { -v } else { v }), 8 + k)),
                None => None,
            }
        }
    }
}

/// Read a sign character, then ASCII digits up to the terminator `null_characters`.
pub fn acn_dec_sint_ascii_var_size_null_terminated(p_bit_strm: &mut BitStream, null_characters: &[u8]) -> (r: (
    Asn1SccSint,
    bool,
))
    requires
        old(p_bit_strm).wf(),
    ensures
        final(p_bit_strm).decoded(
            *old(p_bit_strm),
            r.0 as int,
            r.1,
            spec_dec_sint_ascii_null(old(p_bit_strm).bits(), old(p_bit_strm).pos(), null_characters@),
        ),
{
    let (digit, ok) = p_bit_strm.read_byte();
    if !ok {
        return (0, false);
    }
    if digit != 45u8 && digit != 43u8 {
        return (0, false);
    }
    let is_negative = digit == 45u8;
    let (ret, ok) = acn_dec_uint_ascii_var_size_null_terminated(p_bit_strm, null_characters);
    if !ok {
        return (0, false);
    }
    let result = if is_negative {
        wrapping_neg_u64(ret)
    } else {
        wrap_to_i64(ret)
    };
    (result, true)
}

} // verus!
