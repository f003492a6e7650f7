//! Byte-level arithmetic model: big-endian byte sequences and the
//! integer conversions shared by the encoders (two's complement
//! reinterpretation, sign extension, minimal byte lengths).
use vstd::prelude::*;
use vstd::arithmetic::div_mod::*;
use vstd::arithmetic::power2::*;
use vstd::bits::{lemma_u64_shl_is_mul, lemma_u64_pow2_no_overflow};

verus! {

/// The `n` low bytes of `v`, most significant first.
pub open spec fn be_bytes(v: nat, n: nat) -> Seq<u8>
    decreases n,
{
    if n == 0 {
        Seq::empty()
    } else {
        be_bytes(v / 256, (n - 1) as nat).push((v % 256) as u8)
    }
}

/// The unsigned number that a big-endian byte sequence denotes.
pub open spec fn be_value(s: Seq<u8>) -> nat
    decreases s.len(),
{
    if s.len() == 0 {
        0
    } else {
        256 * be_value(s.drop_last()) + s.last() as nat
    }
}

/// `v` reduced modulo 2^64: its two's complement bit pattern.
pub open spec fn wrap_u64(v: int) -> nat {
    (v % 0x1_0000_0000_0000_0000int) as nat
}

/// `v` reduced into the range of `i64`, as two's complement arithmetic does.
pub open spec fn wrap_i64(v: int) -> int {
    let u = wrap_u64(v);
    if u >= 0x8000_0000_0000_0000 {
        u - 0x1_0000_0000_0000_0000int
    } else {
        u as int
    }
}

/// The signed number whose `n`-bit two's complement pattern is `v`.
pub open spec fn sign_extend(v: nat, n: nat) -> int {
    if n > 0 && v >= pow2((n - 1) as nat) {
        v - pow2(n)
    } else {
        v as int
    }
}

/// Minimal number of bytes (at least one) that hold `v`.
pub open spec fn uint_bytes(v: nat) -> nat
    decreases v,
{
    if v < 256 {
        1
    } else {
        1 + uint_bytes(v / 256)
    }
}

/// `v` is representable in `n` bytes of two's complement.
pub open spec fn fits_signed_bytes(v: int, n: nat) -> bool {
    n >= 1 && -pow2((8 * n - 1) as nat) <= v < pow2((8 * n - 1) as nat)
}

/// Smallest byte count from `n` on (at most 8) that holds `v` in two's complement.
pub open spec fn sint_bytes_from(v: int, n: nat) -> nat
    decreases 8 - n,
{
    if n >= 8 || fits_signed_bytes(v, n) {
        n
    } else {
        sint_bytes_from(v, n + 1)
    }
}

/// Minimal number of bytes (at least one) that hold `v` in two's complement.
pub open spec fn sint_bytes(v: int) -> nat {
    sint_bytes_from(v, 1)
}

/// `be_bytes(v, n)` has `n` bytes.
pub broadcast proof fn lemma_be_bytes_len(v: nat, n: nat)
    ensures
        #[trigger] be_bytes(v, n).len() == n,
    decreases n,
{
    if n > 0 {
        lemma_be_bytes_len(v / 256, (n - 1) as nat);
    }
}

/// The value of the `n` low bytes of `v` is `v` modulo `2^(8n)`.
pub proof fn lemma_be_value_be_bytes(v: nat, n: nat)
    ensures
        be_value(be_bytes(v, n)) == v % pow2(8 * n),
    decreases n,
{
    lemma2_to64();
    if n == 0 {
        assert(be_bytes(v, 0) =~= Seq::<u8>::empty());
    } else {
        let m = (n - 1) as nat;
        lemma_be_value_be_bytes(v / 256, m);
        lemma_be_bytes_len(v / 256, m);
        let s = be_bytes(v, n);
        assert(s.drop_last() =~= be_bytes(v / 256, m));
        lemma_pow2_adds(8 * m, 8);
        assert(8 * n == 8 * m + 8);
        lemma_pow2_pos(8 * m);
        lemma_mod_breakdown(v as int, 256, pow2(8 * m) as int);
        assert(pow2(8 * n) == 256 * pow2(8 * m)) by {
            lemma_mul_is_commutative_nat(pow2(8 * m), 256);
        }
    }
}

proof fn lemma_mul_is_commutative_nat(a: nat, b: nat)
    ensures
        a * b == b * a,
{
}

/// A big-endian value of `n` bytes is below `2^(8n)`.
pub proof fn lemma_be_value_bound(s: Seq<u8>)
    ensures
        be_value(s) < pow2(8 * s.len()),
    decreases s.len(),
{
    lemma2_to64();
    if s.len() > 0 {
        let t = s.drop_last();
        lemma_be_value_bound(t);
        lemma_pow2_adds(8 * t.len(), 8);
        assert(8 * s.len() == 8 * t.len() + 8);
    }
}

/// Dropping the last bytes of a big-endian sequence does not increase its value.
pub proof fn lemma_be_value_prefix(s: Seq<u8>, i: int)
    requires
        0 <= i <= s.len(),
    ensures
        be_value(s.subrange(0, i)) <= be_value(s),
    decreases s.len() - i,
{
    if i < s.len() {
        let t = s.drop_last();
        assert(s.subrange(0, i) =~= t.subrange(0, i));
        lemma_be_value_prefix(t, i);
    } else {
        assert(s.subrange(0, i) =~= s);
    }
}

/// Reading the bytes of `v` back yields the bytes.
pub proof fn lemma_be_bytes_of_value(s: Seq<u8>)
    ensures
        be_bytes(be_value(s), s.len()) == s,
    decreases s.len(),
{
    if s.len() > 0 {
        let t = s.drop_last();
        lemma_be_bytes_of_value(t);
        let v = be_value(s);
        assert(v / 256 == be_value(t));
        assert((v % 256) as u8 == s.last());
        assert(be_bytes(v, s.len()) =~= t.push(s.last()));
        assert(t.push(s.last()) =~= s);
    } else {
        assert(be_bytes(be_value(s), 0) =~= s);
    }
}

/// The `a + b` low bytes of `v` are its next `a` bytes above the `b`
/// lowest, followed by those.
pub proof fn lemma_be_bytes_split(v: nat, a: nat, b: nat)
    ensures
        be_bytes(v, a + b) == be_bytes(v / pow2(8 * b), a) + be_bytes(v, b),
    decreases b,
{
    if b == 0 {
        lemma2_to64();
        assert(be_bytes(v, 0) =~= Seq::<u8>::empty());
        assert(be_bytes(v / pow2(0), a) + be_bytes(v, 0) =~= be_bytes(v, a));
    } else {
        let b1 = (b - 1) as nat;
        lemma_be_bytes_split(v / 256, a, b1);
        lemma2_to64();
        lemma_pow2_pos(8 * b1);
        lemma_pow2_adds(8, 8 * b1);
        lemma_div_denominator(v as int, 256, pow2(8 * b1) as int);
        assert(8 * b == 8 + 8 * b1);
        assert(v / 256 / pow2(8 * b1) == v / pow2(8 * b));
        assert(be_bytes(v, a + b) == be_bytes(v / 256, a + b1).push((v % 256) as u8));
        assert(be_bytes(v, b) == be_bytes(v / 256, b1).push((v % 256) as u8));
        assert(be_bytes(v, a + b) =~= be_bytes(v / pow2(8 * b), a) + be_bytes(v, b));
    }
}

/// One step of writing the bytes of `v` from the most significant end.
pub proof fn lemma_be_bytes_step(v: nat, k: nat, m: nat)
    ensures
        be_bytes(v / pow2(8 * k), m + 1) == be_bytes(v / pow2(8 * k + 8), m).push(
            ((v / pow2(8 * k)) % 256) as u8,
        ),
{
    lemma2_to64();
    lemma_pow2_pos(8 * k);
    lemma_pow2_adds(8 * k, 8);
    lemma_div_denominator(v as int, pow2(8 * k) as int, 256);
    assert((v / pow2(8 * k)) / 256 == v / pow2(8 * k + 8));
}

/// A number below `2^(8n)` is denoted by its `n` low bytes.
pub proof fn lemma_be_value_be_bytes_small(v: nat, n: nat)
    requires
        v < pow2(8 * n),
    ensures
        be_value(be_bytes(v, n)) == v,
{
    lemma_be_value_be_bytes(v, n);
    lemma_small_mod(v, pow2(8 * n));
}

/// `uint_bytes(v)` bytes hold `v`, and at most 8 bytes are needed for a `u64`.
pub proof fn lemma_uint_bytes_bound(v: nat)
    ensures
        1 <= uint_bytes(v),
        v < pow2(8 * uint_bytes(v)),
        v < 0x1_0000_0000_0000_0000 ==> uint_bytes(v) <= 8,
        v < 0x1_0000_0000 ==> uint_bytes(v) <= 4,
        v > 255 ==> pow2((8 * (uint_bytes(v) - 1)) as nat) <= v,
    decreases v,
{
    lemma2_to64();
    lemma2_to64_rest();
    if v >= 256 {
        lemma_uint_bytes_bound(v / 256);
        let k = uint_bytes(v / 256);
        lemma_pow2_adds(8 * k, 8);
        assert(8 * uint_bytes(v) == 8 * k + 8);
        if v / 256 > 255 {
            assert(pow2((8 * (k - 1)) as nat) <= v / 256);
            lemma_pow2_adds((8 * (k - 1)) as nat, 8);
            assert((8 * (uint_bytes(v) - 1)) as nat == (8 * (k - 1)) as nat + 8);
        }
    }
}

/// `sint_bytes(v)` is a byte count between 1 and 8 that holds every `i64`.
pub proof fn lemma_sint_bytes_bound(v: int)
    requires
        -0x8000_0000_0000_0000 <= v < 0x8000_0000_0000_0000,
    ensures
        1 <= sint_bytes(v) <= 8,
        fits_signed_bytes(v, sint_bytes(v)),
        sint_bytes(v) > 1 ==> !fits_signed_bytes(v, (sint_bytes(v) - 1) as nat),
{
    lemma_sint_bytes_from(v, 1);
}

proof fn lemma_sint_bytes_from(v: int, n: nat)
    requires
        -0x8000_0000_0000_0000 <= v < 0x8000_0000_0000_0000,
        1 <= n <= 8,
        n > 1 ==> !fits_signed_bytes(v, (n - 1) as nat),
    ensures
        n <= sint_bytes_from(v, n) <= 8,
        fits_signed_bytes(v, sint_bytes_from(v, n)),
        sint_bytes_from(v, n) > 1 ==> !fits_signed_bytes(v, (sint_bytes_from(v, n) - 1) as nat),
    decreases 8 - n,
{
    lemma2_to64_rest();
    if n < 8 && !fits_signed_bytes(v, n) {
        lemma_sint_bytes_from(v, n + 1);
    }
}

/// Two's complement pattern of an `i64`.
pub fn int2uint(v: i64) -> (r: u64)
    ensures
        r == wrap_u64(v as int),
{
    if v >= 0 {
        v as u64
    } else {
        (v as i128 + 0x1_0000_0000_0000_0000i128) as u64
    }
}

/// The signed number whose two's complement pattern in `n_bytes` bytes is `v`.
pub fn uint2int(v: u64, n_bytes: i32) -> (r: i64)
    requires
        1 <= n_bytes <= 8,
        v < pow2(8 * n_bytes as nat),
    ensures
        r == sign_extend(v as nat, 8 * n_bytes as nat),
{
    let nbits: u64 = (n_bytes as u64) * 8;
    proof {
        lemma_u64_pow2_no_overflow((nbits - 1) as nat);
        lemma_u64_shl_is_mul(1u64, (nbits - 1) as u64);
        lemma_pow2_unfold(nbits as nat);
        lemma2_to64_rest();
        if nbits - 1 < 63 {
            lemma_pow2_strictly_increases((nbits - 1) as nat, 63);
        }
        assert(nbits as nat == 8 * (n_bytes as nat));
    }
    let half: u64 = 1u64 << (nbits - 1);
    let full: i128 = 2 * (half as i128);
    assert(half as nat == pow2((nbits - 1) as nat));
    assert(full == pow2(nbits as nat));
    assert(half <= 0x8000_0000_0000_0000u64);
    if v >= half {
        (v as i128 - full) as i64
    } else {
        v as i64
    }
}

/// Minimal number of bytes (at least one) that hold `v`.
pub fn get_length_in_bytes_of_uint(v: u64) -> (r: i32)
    ensures
        r == uint_bytes(v as nat),
        1 <= r <= 8,
{
    let mut x = v;
    let mut n: i32 = 1;
    proof {
        lemma_uint_bytes_bound(v as nat);
    }
    while x >= 256
        invariant
            uint_bytes(v as nat) == n - 1 + uint_bytes(x as nat),
            uint_bytes(v as nat) <= 8,
            1 <= n,
        decreases x,
    {
        assert(x >> 8u64 == x / 256) by (bit_vector);
        proof {
            lemma_uint_bytes_bound((x / 256) as nat);
        }
        x = x >> 8u64;
        n = n + 1;
    }
    n
}

/// Minimal number of bytes (at least one) that hold `v` in two's complement.
pub fn get_length_in_bytes_of_sint(v: i64) -> (r: i32)
    ensures
        r == sint_bytes(v as int),
        1 <= r <= 8,
{
    let mut n: i32 = 1;
    proof {
        lemma_sint_bytes_bound(v as int);
    }
    while n < 8
        invariant
            1 <= n <= 8,
            sint_bytes(v as int) == sint_bytes_from(v as int, n as nat),
        decreases 8 - n,
    {
        let sh: u64 = (n as u64) * 8 - 1;
        proof {
            lemma_u64_pow2_no_overflow(sh as nat);
            lemma_u64_shl_is_mul(1u64, sh);
        }
        let half: u64 = 1u64 << sh;
        if -(half as i128) <= v as i128 && (v as i128) < half as i128 {
            return n;
        }
        n = n + 1;
    }
    n
}

/// `old` with its first `content.len()` bytes replaced by `content` and the
/// following bytes up to `upto` cleared.
pub open spec fn fill_prefix(old: Seq<u8>, content: Seq<u8>, upto: int) -> Seq<u8> {
    Seq::new(
        old.len(),
        |j: int|
            if j < content.len() {
                content[j]
            } else if j < upto {
                0u8
            } else {
                old[j]
            },
    )
}

/// Clear the first `n` bytes of `value`.
pub(crate) fn clear_prefix(value: &mut [u8], n: usize)
    requires
        n <= old(value)@.len(),
    ensures
        final(value)@ == fill_prefix(old(value)@, Seq::empty(), n as int),
{
    let mut j: usize = 0;
    while j < n
        invariant
            j <= n <= value@.len(),
            value@.len() == old(value)@.len(),
            value@ == fill_prefix(old(value)@, Seq::empty(), j as int),
        decreases n - j,
    {
        value[j] = 0;
        j = j + 1;
        assert(value@ =~= fill_prefix(old(value)@, Seq::empty(), j as int));
    }
}

} // verus!
