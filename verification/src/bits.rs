//! The mathematical model of a bit stream: sequences of bits, their
//! unsigned value (most significant bit first), and the writing of a bit
//! sequence over part of another.
use vstd::prelude::*;
use vstd::arithmetic::div_mod::*;
use vstd::arithmetic::power2::*;

verus! {

/// Bit `j` of byte `b`, where bit 0 is the most significant one.
pub open spec fn byte_bit(b: u8, j: int) -> bool {
    ((b >> ((7 - j) as u8)) & 1u8) == 1u8
}

/// The bits of a byte buffer, most significant bit of each byte first.
pub open spec fn bytes_to_bits(buf: Seq<u8>) -> Seq<bool> {
    Seq::new((8 * buf.len()) as nat, |i: int| byte_bit(buf[i / 8], i % 8))
}

/// 1 for a set bit, 0 for a clear one.
pub open spec fn bit_num(b: bool) -> nat {
    if b { 1 } else { 0 }
}

/// The unsigned number that a bit sequence denotes, most significant bit first.
pub open spec fn bits_value(s: Seq<bool>) -> nat
    decreases s.len(),
{
    if s.len() == 0 {
        0
    } else {
        2 * bits_value(s.drop_last()) + bit_num(s.last())
    }
}

/// The `n` low bits of `v`, most significant bit first.
pub open spec fn nat_bits(v: nat, n: nat) -> Seq<bool>
    decreases n,
{
    if n == 0 {
        Seq::empty()
    } else {
        nat_bits(v / 2, (n - 1) as nat).push(v % 2 == 1)
    }
}

/// The bits of a sequence of bytes written one after another.
pub open spec fn octet_bits(s: Seq<u8>) -> Seq<bool>
    decreases s.len(),
{
    if s.len() == 0 {
        Seq::empty()
    } else {
        octet_bits(s.drop_last()) + nat_bits(s.last() as nat, 8)
    }
}

/// `bits` with the positions from `pos` on overwritten by `s`.
pub open spec fn splice(bits: Seq<bool>, pos: int, s: Seq<bool>) -> Seq<bool> {
    bits.subrange(0, pos) + s + bits.subrange(pos + s.len(), bits.len() as int)
}

/// `n` copies of the bit `b`.
pub open spec fn repeat_bit(b: bool, n: nat) -> Seq<bool> {
    Seq::new(n, |i: int| b)
}

/// `nat_bits(v, n)` has `n` bits.
pub broadcast proof fn lemma_nat_bits_len(v: nat, n: nat)
    ensures
        #[trigger] nat_bits(v, n).len() == n,
    decreases n,
{
    if n > 0 {
        lemma_nat_bits_len(v / 2, (n - 1) as nat);
    }
}

/// The value of the `n` low bits of `v` is `v` modulo `2^n`.
pub proof fn lemma_bits_value_nat_bits(v: nat, n: nat)
    ensures
        bits_value(nat_bits(v, n)) == v % pow2(n),
    decreases n,
{
    if n == 0 {
        lemma2_to64();
        assert(nat_bits(v, 0) =~= Seq::<bool>::empty());
    } else {
        let m = (n - 1) as nat;
        lemma_bits_value_nat_bits(v / 2, m);
        lemma_nat_bits_len(v / 2, m);
        let s = nat_bits(v, n);
        assert(s.drop_last() =~= nat_bits(v / 2, m));
        lemma_pow2_unfold(n);
        lemma_pow2_pos(m);
        // v % (2 * p) == 2 * ((v / 2) % p) + v % 2
        lemma_mod_breakdown(v as int, 2, pow2(m) as int);
        assert(bits_value(s) == 2 * ((v / 2) % pow2(m)) + v % 2);
    }
}

/// A number below `2^n` is denoted by its `n` low bits.
pub proof fn lemma_bits_value_nat_bits_small(v: nat, n: nat)
    requires
        v < pow2(n),
    ensures
        bits_value(nat_bits(v, n)) == v,
{
    lemma_bits_value_nat_bits(v, n);
    vstd::arithmetic::div_mod::lemma_small_mod(v, pow2(n));
}

/// The value of a bit sequence of length `n` is below `2^n`.
pub proof fn lemma_bits_value_bound(s: Seq<bool>)
    ensures
        bits_value(s) < pow2(s.len()),
    decreases s.len(),
{
    if s.len() == 0 {
        lemma2_to64();
    } else {
        lemma_bits_value_bound(s.drop_last());
        lemma_pow2_unfold(s.len());
    }
}

/// Writing the value of a bit sequence gives back the sequence.
pub proof fn lemma_nat_bits_of_value(s: Seq<bool>)
    ensures
        nat_bits(bits_value(s), s.len()) == s,
    decreases s.len(),
{
    if s.len() > 0 {
        let t = s.drop_last();
        lemma_nat_bits_of_value(t);
        let v = bits_value(s);
        assert(v / 2 == bits_value(t));
        assert((v % 2 == 1) == s.last());
        assert(nat_bits(v, s.len()) =~= t.push(s.last()));
        assert(t.push(s.last()) =~= s);
    } else {
        assert(nat_bits(bits_value(s), 0) =~= s);
    }
}

/// One step of writing the bits of `v` from the most significant end.
pub proof fn lemma_nat_bits_step(v: nat, k: nat, m: nat)
    ensures
        nat_bits(v / pow2(k), m + 1) == nat_bits(v / pow2(k + 1), m).push((v / pow2(k)) % 2 == 1),
{
    lemma_pow2_pos(k);
    lemma_pow2_unfold(k + 1);
    lemma_div_denominator(v as int, pow2(k) as int, 2);
    assert(pow2(k) * 2 == pow2(k + 1));
    assert((v / pow2(k)) / 2 == v / pow2(k + 1));
}

/// The bits of `v` split into a high and a low part.
pub proof fn lemma_nat_bits_split(v: nat, a: nat, b: nat)
    ensures
        nat_bits(v, a + b) == nat_bits(v / pow2(b), a) + nat_bits(v, b),
    decreases b,
{
    if b == 0 {
        lemma2_to64();
        assert(nat_bits(v, 0) =~= Seq::<bool>::empty());
        assert(nat_bits(v / pow2(0), a) + nat_bits(v, 0) =~= nat_bits(v, a));
    } else {
        let b1 = (b - 1) as nat;
        lemma_nat_bits_split(v / 2, a, b1);
        lemma_pow2_pos(b1);
        lemma_pow2_unfold(b);
        lemma_div_denominator(v as int, 2, pow2(b1) as int);
        assert(v / 2 / pow2(b1) == v / pow2(b));
        assert(nat_bits(v, a + b) == nat_bits(v / 2, a + b1).push(v % 2 == 1));
        assert(nat_bits(v, b) == nat_bits(v / 2, b1).push(v % 2 == 1));
        assert(nat_bits(v, a + b) =~= nat_bits(v / pow2(b), a) + nat_bits(v, b));
    }
}

/// The low bits of `v` only depend on `v` modulo a larger power of two.
pub proof fn lemma_nat_bits_mod(v: nat, n: nat, m: nat)
    requires
        n <= m,
    ensures
        nat_bits(v, n) == nat_bits(v % pow2(m), n),
    decreases n,
{
    if n > 0 {
        let n1 = (n - 1) as nat;
        let m1 = (m - 1) as nat;
        lemma_pow2_unfold(m);
        lemma_pow2_pos(m1);
        lemma_mod_breakdown(v as int, 2, pow2(m1) as int);
        let r = v % pow2(m);
        // r / 2 == (v / 2) % pow2(m1) and r % 2 == v % 2
        lemma_fundamental_div_mod(v as int, 2);
        lemma_fundamental_div_mod((v / 2) as int, pow2(m1) as int);
        assert(r == 2 * ((v / 2) % pow2(m1)) + v % 2);
        assert(r / 2 == (v / 2) % pow2(m1));
        assert(r % 2 == v % 2);
        lemma_nat_bits_mod(v / 2, n1, m1);
        assert(nat_bits(v, n) == nat_bits(v / 2, n1).push(v % 2 == 1));
        assert(nat_bits(r, n) == nat_bits(r / 2, n1).push(r % 2 == 1));
        assert(nat_bits(v / 2, n1) == nat_bits(r / 2, n1));
    } else {
        lemma_pow2_pos(m);
        assert(nat_bits(v, 0) =~= nat_bits(v % pow2(m), 0));
    }
}

/// The bits of zero are all clear.
pub proof fn lemma_nat_bits_zero(n: nat)
    ensures
        nat_bits(0, n) == repeat_bit(false, n),
    decreases n,
{
    if n > 0 {
        lemma_nat_bits_zero((n - 1) as nat);
        assert(nat_bits(0, n) =~= repeat_bit(false, n));
    } else {
        assert(nat_bits(0, 0) =~= repeat_bit(false, 0));
    }
}

/// Writing nothing changes nothing.
pub proof fn lemma_splice_empty(bits: Seq<bool>, pos: int)
    requires
        0 <= pos <= bits.len(),
    ensures
        splice(bits, pos, Seq::empty()) == bits,
{
    assert(splice(bits, pos, Seq::empty()) =~= bits);
}

/// Two writes side by side are one write of both.
pub proof fn lemma_splice_splice(bits: Seq<bool>, pos: int, a: Seq<bool>, b: Seq<bool>)
    requires
        0 <= pos,
        pos + a.len() + b.len() <= bits.len(),
    ensures
        splice(splice(bits, pos, a), pos + a.len(), b) == splice(bits, pos, a + b),
{
    assert(splice(splice(bits, pos, a), pos + a.len(), b) =~= splice(bits, pos, a + b));
}

/// Reading back what was written.
pub proof fn lemma_splice_read(bits: Seq<bool>, pos: int, s: Seq<bool>)
    requires
        0 <= pos,
        pos + s.len() <= bits.len(),
    ensures
        splice(bits, pos, s).subrange(pos, pos + s.len()) == s,
        splice(bits, pos, s).len() == bits.len(),
{
    assert(splice(bits, pos, s).subrange(pos, pos + s.len()) =~= s);
}

/// Number of bits needed to write `v` (none for zero).
pub open spec fn num_bits(v: nat) -> nat
    decreases v,
{
    if v == 0 {
        0
    } else {
        1 + num_bits(v / 2)
    }
}

/// `n` when it is positive, else 0.
pub open spec fn nonneg(n: int) -> nat {
    if n > 0 {
        n as nat
    } else {
        0
    }
}

/// A number fits in its number of bits, and needs all of them.
pub proof fn lemma_num_bits_bound(v: nat)
    ensures
        v < pow2(num_bits(v)),
        v > 0 ==> pow2((num_bits(v) - 1) as nat) <= v,
    decreases v,
{
    lemma2_to64();
    if v > 0 {
        lemma_num_bits_bound(v / 2);
        lemma_pow2_unfold(num_bits(v));
        if v / 2 > 0 {
            lemma_pow2_unfold(num_bits(v / 2));
        }
    }
}

/// A number below `2^n` needs at most `n` bits.
pub proof fn lemma_num_bits_le(v: nat, n: nat)
    requires
        v < pow2(n),
    ensures
        num_bits(v) <= n,
{
    lemma_num_bits_bound(v);
    if num_bits(v) > n {
        lemma_pow2_pos(n);
        if n < (num_bits(v) - 1) as nat {
            lemma_pow2_strictly_increases(n, (num_bits(v) - 1) as nat);
        }
    }
}

/// Writing a number in more bits than it needs pads it with zeros on the left.
pub proof fn lemma_nat_bits_padded(v: nat, n: nat)
    requires
        num_bits(v) <= n,
    ensures
        nat_bits(v, n) == repeat_bit(false, (n - num_bits(v)) as nat) + nat_bits(v, num_bits(v)),
{
    let nb = num_bits(v);
    lemma_nat_bits_split(v, (n - nb) as nat, nb);
    lemma_num_bits_bound(v);
    lemma_pow2_pos(nb);
    vstd::arithmetic::div_mod::lemma_basic_div(v as int, pow2(nb) as int);
    assert(v / pow2(nb) == 0);
    lemma_nat_bits_zero((n - nb) as nat);
    assert((n - nb) as nat + nb == n);
}

/// The `n` low bytes of `v`, least significant byte first, each byte
/// most significant bit first.
pub open spec fn le_bits(v: nat, n: nat) -> Seq<bool>
    decreases n,
{
    if n == 0 {
        Seq::empty()
    } else {
        nat_bits(v % 256, 8) + le_bits(v / 256, (n - 1) as nat)
    }
}

/// The number that a little-endian sequence of bytes denotes (the length is
/// a multiple of 8).
pub open spec fn le_value(s: Seq<bool>) -> nat
    decreases s.len(),
{
    if s.len() < 8 {
        0
    } else {
        bits_value(s.subrange(0, 8)) + 256 * le_value(s.subrange(8, s.len() as int))
    }
}

/// `le_bits(v, n)` has `8 * n` bits.
pub proof fn lemma_le_bits_len(v: nat, n: nat)
    ensures
        le_bits(v, n).len() == 8 * n,
    decreases n,
{
    if n > 0 {
        lemma_le_bits_len(v / 256, (n - 1) as nat);
        lemma_nat_bits_len(v % 256, 8);
    }
}

/// Appending the next byte of `v` to its `i` low bytes.
pub proof fn lemma_le_bits_push(v: nat, i: nat)
    ensures
        le_bits(v, i + 1) == le_bits(v, i) + nat_bits((v / pow2(8 * i)) % 256, 8),
    decreases i,
{
    lemma2_to64();
    if i == 0 {
        assert(le_bits(v / 256, 0) =~= Seq::<bool>::empty());
        assert(le_bits(v, 0) =~= Seq::<bool>::empty());
        assert(le_bits(v, 1) =~= le_bits(v, 0) + nat_bits((v / pow2(0)) % 256, 8));
    } else {
        let i1 = (i - 1) as nat;
        lemma_le_bits_push(v / 256, i1);
        lemma_pow2_pos(8 * i1);
        lemma_pow2_adds(8, 8 * i1);
        lemma_div_denominator(v as int, 256, pow2(8 * i1) as int);
        assert(8 * i == 8 + 8 * i1);
        assert(v / 256 / pow2(8 * i1) == v / pow2(8 * i));
        assert(le_bits(v, i + 1) =~= nat_bits(v % 256, 8) + le_bits(v / 256, i));
        assert(le_bits(v, i) =~= nat_bits(v % 256, 8) + le_bits(v / 256, i1));
        assert(le_bits(v, i + 1) =~= le_bits(v, i) + nat_bits((v / pow2(8 * i)) % 256, 8));
    }
}

/// The value of the `n` low bytes of `v`, little-endian, is `v` modulo `2^(8n)`.
pub proof fn lemma_le_value_le_bits(v: nat, n: nat)
    ensures
        le_value(le_bits(v, n)) == v % pow2(8 * n),
    decreases n,
{
    lemma2_to64();
    if n == 0 {
        assert(le_bits(v, 0) =~= Seq::<bool>::empty());
    } else {
        let m = (n - 1) as nat;
        lemma_le_value_le_bits(v / 256, m);
        lemma_le_bits_len(v / 256, m);
        lemma_nat_bits_len(v % 256, 8);
        let s = le_bits(v, n);
        let b = nat_bits(v % 256, 8);
        assert(s.subrange(0, 8) =~= b);
        assert(s.subrange(8, s.len() as int) =~= le_bits(v / 256, m));
        lemma_bits_value_nat_bits(v % 256, 8);
        vstd::arithmetic::div_mod::lemma_small_mod(v % 256, 256);
        lemma_pow2_adds(8, 8 * m);
        assert(8 * n == 8 + 8 * m);
        lemma_pow2_pos(8 * m);
        lemma_mod_breakdown(v as int, 256, pow2(8 * m) as int);
    }
}

/// Reading one more little-endian byte.
#[verifier::spinoff_prover]
pub proof fn lemma_le_value_push(s: Seq<bool>, i: int)
    requires
        i >= 0,
        s.len() == 8 * (i + 1),
    ensures
        le_value(s) == le_value(s.subrange(0, 8 * i)) + pow2((8 * i) as nat) * bits_value(
            s.subrange(8 * i, 8 * i + 8),
        ),
    decreases i,
{
    lemma2_to64();
    if i == 0 {
        assert(s.subrange(0, 0).len() == 0);
        assert(s.subrange(8, 8).len() == 0);
        assert(s.subrange(0, 8) =~= s);
        assert(le_value(s.subrange(8, 8)) == 0);
        assert(le_value(s) == bits_value(s.subrange(0, 8)));
        assert(le_value(s.subrange(0, 0)) == 0);
    } else {
        let i1 = i - 1;
        let t = s.subrange(8, s.len() as int);
        lemma_le_value_push(t, i1);
        let p = s.subrange(0, 8 * i);
        assert(p.subrange(0, 8) =~= s.subrange(0, 8));
        assert(p.subrange(8, p.len() as int) =~= t.subrange(0, 8 * i1));
        assert(t.subrange(8 * i1, 8 * i1 + 8) =~= s.subrange(8 * i, 8 * i + 8));
        lemma_pow2_adds(8, (8 * i1) as nat);
        assert((8 * i) as nat == 8 + (8 * i1) as nat);
        assert(le_value(p) == bits_value(s.subrange(0, 8)) + 256 * le_value(t.subrange(0, 8 * i1)));
        let x = bits_value(s.subrange(8 * i, 8 * i + 8));
        let a = pow2((8 * i) as nat);
        let b = pow2((8 * i1) as nat);
        assert(a * x == 256 * (b * x)) by (nonlinear_arith)
            requires
                a == 256 * b,
        ;
        assert(le_value(s) == bits_value(s.subrange(0, 8)) + 256 * le_value(t));
        assert(le_value(t) == le_value(t.subrange(0, 8 * i1)) + b * x);
        assert(le_value(s) == le_value(p) + a * x);
    }
}

/// Each bit of `s` flipped.
pub open spec fn complement(s: Seq<bool>) -> Seq<bool> {
    Seq::new(s.len(), |i: int| !s[i])
}

/// The low bits of `2^m - 1 - a` are the complements of those of `a`.
pub proof fn lemma_nat_bits_complement(a: nat, m: nat, n: nat)
    requires
        n <= m,
        a < pow2(m),
    ensures
        nat_bits((pow2(m) - 1 - a) as nat, n) == complement(nat_bits(a, n)),
    decreases n,
{
    if n == 0 {
        assert(nat_bits((pow2(m) - 1 - a) as nat, 0) =~= complement(nat_bits(a, 0)));
    } else {
        let m1 = (m - 1) as nat;
        let n1 = (n - 1) as nat;
        lemma_pow2_unfold(m);
        lemma_pow2_pos(m1);
        let x = (pow2(m) - 1 - a) as nat;
        // x == 2 * (2^(m-1) - 1 - a/2) + (1 - a % 2)
        assert(x == 2 * ((pow2(m1) - 1 - a / 2) as nat) + (1 - a % 2));
        assert(x / 2 == (pow2(m1) - 1 - a / 2) as nat);
        assert(x % 2 == 1 - a % 2);
        lemma_nat_bits_complement(a / 2, m1, n1);
        lemma_nat_bits_len(a / 2, n1);
        assert(nat_bits(x, n) =~= complement(nat_bits(a, n)));
    }
}

/// A little-endian value of `k` bytes is below `2^(8k)`.
pub proof fn lemma_le_value_bound(s: Seq<bool>, k: nat)
    requires
        s.len() == 8 * k,
    ensures
        le_value(s) < pow2(8 * k),
    decreases k,
{
    lemma2_to64();
    if k == 0 {
    } else {
        let k1 = (k - 1) as nat;
        let t = s.subrange(8, s.len() as int);
        lemma_le_value_bound(t, k1);
        lemma_bits_value_bound(s.subrange(0, 8));
        lemma_pow2_adds(8, 8 * k1);
        assert(8 * k == 8 + 8 * k1);
        let a = bits_value(s.subrange(0, 8));
        let b = le_value(t);
        let p = pow2(8 * k1);
        assert(a + 256 * b < 256 * p) by (nonlinear_arith)
            requires
                a < 256,
                b < p,
        ;
    }
}

/// Each byte takes 8 bits.
pub proof fn lemma_octet_bits_len(s: Seq<u8>)
    ensures
        octet_bits(s).len() == 8 * s.len(),
    decreases s.len(),
{
    if s.len() > 0 {
        lemma_octet_bits_len(s.drop_last());
        lemma_nat_bits_len(s.last() as nat, 8);
    }
}

/// Bit `j` of the `n` low bits of `v`, counted from the most significant end.
pub proof fn lemma_nat_bits_index(v: nat, n: nat, j: int)
    requires
        0 <= j < n,
    ensures
        nat_bits(v, n)[j] == ((v / pow2((n - 1 - j) as nat)) % 2 == 1),
    decreases n,
{
    let n1 = (n - 1) as nat;
    lemma_nat_bits_len(v / 2, n1);
    assert(nat_bits(v, n) == nat_bits(v / 2, n1).push(v % 2 == 1));
    if j == n1 {
        lemma2_to64();
        assert(v / pow2(0) == v);
    } else {
        lemma_nat_bits_index(v / 2, n1, j);
        let k = (n1 - 1 - j) as nat;
        lemma_pow2_pos(k);
        lemma_pow2_unfold(k + 1);
        lemma_div_denominator(v as int, 2, pow2(k) as int);
        assert((v / 2) / pow2(k) == v / pow2(k + 1));
        lemma_nat_bits_len(v / 2, n1);
    }
}

/// The bits of a single byte, in buffer order, are its 8 bits most
/// significant first.
pub proof fn lemma_byte_bits(x: u8)
    ensures
        bytes_to_bits(seq![x]) == nat_bits(x as nat, 8),
{
    let s = bytes_to_bits(seq![x]);
    lemma_nat_bits_len(x as nat, 8);
    assert forall|j: int| 0 <= j < 8 implies s[j] == nat_bits(x as nat, 8)[j] by {
        lemma_nat_bits_index(x as nat, 8, j);
        let sh = (7 - j) as u8;
        vstd::bits::lemma_u8_shr_is_div(x, sh);
        let y = x >> sh;
        assert(((y & 1u8) == 1u8) == (y % 2 == 1)) by (bit_vector);
        assert(s[j] == byte_bit(x, j));
    }
    assert(s =~= nat_bits(x as nat, 8));
}

/// `k` bits compared as a number with the `k` high bits of byte `i` of a
/// buffer are equal to them as bits.
pub proof fn lemma_byte_prefix_match(s: Seq<bool>, buf: Seq<u8>, i: int, k: nat)
    requires
        0 <= i < buf.len(),
        1 <= k <= 8,
        s.len() == k,
    ensures
        (bits_value(s) == (buf[i] as nat) / pow2((8 - k) as nat)) == (s == bytes_to_bits(buf).subrange(
            8 * i,
            8 * i + k,
        )),
{
    let x = buf[i];
    let m = (8 - k) as nat;
    let y = (x as nat) / pow2(m);
    let t = bytes_to_bits(buf).subrange(8 * i, 8 * i + k);
    lemma_byte_bits(x);
    assert forall|j: int| 0 <= j < k implies t[j] == bytes_to_bits(seq![x])[j] by {
        assert((8 * i + j) / 8 == i);
        assert((8 * i + j) % 8 == j);
    }
    lemma_nat_bits_split(x as nat, k, m);
    lemma_nat_bits_len(y, k);
    assert(t =~= nat_bits(y, k));
    lemma_pow2_adds(k, m);
    lemma2_to64();
    lemma_pow2_pos(m);
    lemma_pow2_pos(k);
    lemma_fundamental_div_mod(x as int, pow2(m) as int);
    assert(y < pow2(k)) by (nonlinear_arith)
        requires
            (x as nat) < pow2(k) * pow2(m),
            pow2(m) > 0,
            x == pow2(m) * y + (x as nat) % pow2(m),
            (x as nat) % pow2(m) >= 0,
    ;
    lemma_bits_value_nat_bits_small(y, k);
    lemma_nat_bits_of_value(s);
}

} // verus!
