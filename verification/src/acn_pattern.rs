//! Fixed bit patterns: reading and comparing a pattern, skipping it, and
//! booleans encoded as one of two patterns.
use vstd::prelude::*;
use crate::bits::{bytes_to_bits, lemma_bits_value_bound, lemma_byte_prefix_match};
use crate::bitstream::BitStream;

verus! {

/// The first `n` bits of a pattern given as bytes, most significant bit of
/// each byte first.
pub open spec fn pattern_bits(pattern: Seq<u8>, n: int) -> Seq<bool> {
    bytes_to_bits(pattern).subrange(0, n)
}

/// The `n` bits after the cursor of `s` are the first `n` bits of `pattern`.
pub open spec fn matches_pattern(s: BitStream, pattern: Seq<u8>, n: int) -> bool {
    s.next_bits(n) == pattern_bits(pattern, n)
}

/// Two sequences agree on their first `m + k` elements exactly when they
/// agree on the first `m` and on the `k` after them.
proof fn lemma_match_extend(x: Seq<bool>, y: Seq<bool>, m: int, k: int)
    requires
        0 <= m,
        0 <= k,
        m + k <= x.len(),
        m + k <= y.len(),
    ensures
        (x.subrange(0, m + k) == y.subrange(0, m + k)) == (x.subrange(0, m) == y.subrange(0, m)
            && x.subrange(m, m + k) == y.subrange(m, m + k)),
{
    if x.subrange(0, m) == y.subrange(0, m) && x.subrange(m, m + k) == y.subrange(m, m + k) {
        assert forall|j: int| 0 <= j < m + k implies #[trigger] x.subrange(0, m + k)[j] == y.subrange(0, m + k)[j] by {
            if j < m {
                assert(x.subrange(0, m)[j] == y.subrange(0, m)[j]);
            } else {
                assert(x.subrange(m, m + k)[j - m] == y.subrange(m, m + k)[j - m]);
            }
        }
        assert(x.subrange(0, m + k) =~= y.subrange(0, m + k));
    }
    if x.subrange(0, m + k) == y.subrange(0, m + k) {
        assert(x.subrange(0, m) =~= x.subrange(0, m + k).subrange(0, m));
        assert(y.subrange(0, m) =~= y.subrange(0, m + k).subrange(0, m));
        assert(x.subrange(m, m + k) =~= x.subrange(0, m + k).subrange(m, m + k));
        assert(y.subrange(m, m + k) =~= y.subrange(0, m + k).subrange(m, m + k));
    }
}

/// Read `n_bits_to_read` bits and compare them with the first bits of two
/// patterns; the last result tells whether the bits were there.
fn read_and_match(p_bit_strm: &mut BitStream, pat_a: &[u8], pat_b: &[u8], n_bits_to_read: i32) -> (r: (
    bool,
    bool,
    bool,
))
    requires
        old(p_bit_strm).wf(),
        0 < n_bits_to_read,
        n_bits_to_read <= 8 * pat_a@.len(),
        n_bits_to_read <= 8 * pat_b@.len(),
    ensures
        r.2 == (old(p_bit_strm).remaining() >= n_bits_to_read),
        r.2 ==> final(p_bit_strm).advanced(*old(p_bit_strm), n_bits_to_read as int) && r.0
            == matches_pattern(*old(p_bit_strm), pat_a@, n_bits_to_read as int) && r.1
            == matches_pattern(*old(p_bit_strm), pat_b@, n_bits_to_read as int),
        !r.2 ==> final(p_bit_strm).same_buffer(*old(p_bit_strm)),
{
    let ghost s0 = *p_bit_strm;
    let ghost x = s0.bits().subrange(s0.pos(), s0.bits().len() as int);
    let ghost ya = bytes_to_bits(pat_a@);
    let ghost yb = bytes_to_bits(pat_b@);
    let n_bytes_to_read = n_bits_to_read / 8;
    let n_remaining_bits = n_bits_to_read % 8;
    let mut is_a = true;
    let mut is_b = true;
    let mut i: i32 = 0;
    proof {
        assert(x.subrange(0, 0) =~= ya.subrange(0, 0));
        assert(x.subrange(0, 0) =~= yb.subrange(0, 0));
    }
    while i < n_bytes_to_read
        invariant
            0 <= i <= n_bytes_to_read,
            n_bytes_to_read == n_bits_to_read / 8,
            0 < n_bits_to_read <= 8 * pat_a@.len(),
            n_bits_to_read <= 8 * pat_b@.len(),
            s0 == *old(p_bit_strm),
            s0.wf(),
            x == s0.bits().subrange(s0.pos(), s0.bits().len() as int),
            ya == bytes_to_bits(pat_a@),
            yb == bytes_to_bits(pat_b@),
            p_bit_strm.advanced(s0, 8 * i),
            i > 0 ==> s0.remaining() >= 8 * i,
            is_a == (x.subrange(0, 8 * i) == ya.subrange(0, 8 * i)),
            is_b == (x.subrange(0, 8 * i) == yb.subrange(0, 8 * i)),
        decreases n_bytes_to_read - i,
    {
        let ghost s1 = *p_bit_strm;
        let (cur_byte, ok) = p_bit_strm.read_byte();
        if !ok {
            return (false, false, false);
        }
        proof {
            assert(s1.next_bits(8) =~= x.subrange(8 * i, 8 * i + 8));
            lemma_byte_prefix_match(s1.next_bits(8), pat_a@, i as int, 8);
            lemma_byte_prefix_match(s1.next_bits(8), pat_b@, i as int, 8);
            vstd::arithmetic::power2::lemma2_to64();
            assert(8 * i + 8 <= n_bits_to_read);
            assert(x.len() >= 8 * i + 8);
            assert(ya.len() == 8 * pat_a@.len());
            assert(yb.len() == 8 * pat_b@.len());
            lemma_match_extend(x, ya, 8 * i, 8);
            lemma_match_extend(x, yb, 8 * i, 8);
            vstd::arithmetic::div_mod::lemma_div_basics(pat_a@[i as int] as int);
            vstd::arithmetic::div_mod::lemma_div_basics(pat_b@[i as int] as int);
        }
        is_a = is_a && cur_byte == pat_a[i as usize];
        is_b = is_b && cur_byte == pat_b[i as usize];
        i = i + 1;
    }
    if n_remaining_bits > 0 {
        let ghost s1 = *p_bit_strm;
        let (cur_byte, ok) = p_bit_strm.read_partial_byte(n_remaining_bits as u8);
        if !ok {
            return (false, false, false);
        }
        let sh: u8 = (8 - n_remaining_bits) as u8;
        let ghost k = n_remaining_bits as nat;
        proof {
            let m = 8 * n_bytes_to_read;
            assert(s1.next_bits(k as int) =~= x.subrange(m, m + k));
            lemma_byte_prefix_match(s1.next_bits(k as int), pat_a@, n_bytes_to_read as int, k);
            lemma_byte_prefix_match(s1.next_bits(k as int), pat_b@, n_bytes_to_read as int, k);
            vstd::bits::lemma_u8_shr_is_div(pat_a@[n_bytes_to_read as int], sh);
            vstd::bits::lemma_u8_shr_is_div(pat_b@[n_bytes_to_read as int], sh);
            lemma_match_extend(x, ya, m, k as int);
            lemma_match_extend(x, yb, m, k as int);
        }
        is_a = is_a && cur_byte == (pat_a[n_bytes_to_read as usize] >> sh);
        is_b = is_b && cur_byte == (pat_b[n_bytes_to_read as usize] >> sh);
    }
    proof {
        assert(s0.next_bits(n_bits_to_read as int) =~= x.subrange(0, n_bits_to_read as int));
    }
    (is_a, is_b, true)
}

/// Read `n_bits_to_read` bits and tell whether they are the first bits of
/// `bit_pattern`; fails when the stream holds fewer bits.
pub fn bit_stream_read_bit_pattern(p_bit_strm: &mut BitStream, bit_pattern: &[u8], n_bits_to_read: i32) -> (r: (
    bool,
    bool,
))
    requires
        old(p_bit_strm).wf(),
        n_bits_to_read <= 8 * bit_pattern@.len(),
    ensures
        n_bits_to_read <= 0 ==> r == (true, true) && *final(p_bit_strm) == *old(p_bit_strm),
        n_bits_to_read > 0 ==> r.1 == (old(p_bit_strm).remaining() >= n_bits_to_read),
        n_bits_to_read > 0 && r.1 ==> final(p_bit_strm).advanced(*old(p_bit_strm), n_bits_to_read as int)
            && r.0 == matches_pattern(*old(p_bit_strm), bit_pattern@, n_bits_to_read as int),
        !r.1 ==> !r.0 && final(p_bit_strm).same_buffer(*old(p_bit_strm)),
{
    if n_bits_to_read <= 0 {
        return (true, true);
    }
    let (is_match, _, ok) = read_and_match(p_bit_strm, bit_pattern, bit_pattern, n_bits_to_read);
    if !ok {
        return (false, false);
    }
    (is_match, true)
}

/// Skip `n_bits_to_read` bits; fails when the stream holds fewer bits.
pub fn bit_stream_read_bit_pattern_ignore_value(p_bit_strm: &mut BitStream, n_bits_to_read: i32) -> (r: bool)
    requires
        old(p_bit_strm).wf(),
    ensures
        n_bits_to_read <= 0 ==> r && *final(p_bit_strm) == *old(p_bit_strm),
        n_bits_to_read > 0 ==> r == (old(p_bit_strm).remaining() >= n_bits_to_read),
        n_bits_to_read > 0 && r ==> final(p_bit_strm).advanced(*old(p_bit_strm), n_bits_to_read as int),
        !r ==> final(p_bit_strm).same_buffer(*old(p_bit_strm)),
{
    let ghost s0 = *p_bit_strm;
    if n_bits_to_read <= 0 {
        return true;
    }
    let n_bytes_to_read = n_bits_to_read / 8;
    let n_remaining_bits = n_bits_to_read % 8;
    let mut i: i32 = 0;
    while i < n_bytes_to_read
        invariant
            0 <= i <= n_bytes_to_read,
            n_bytes_to_read == n_bits_to_read / 8,
            0 < n_bits_to_read,
            s0 == *old(p_bit_strm),
            s0.wf(),
            p_bit_strm.advanced(s0, 8 * i),
            i > 0 ==> s0.remaining() >= 8 * i,
        decreases n_bytes_to_read - i,
    {
        let (_cur_byte, ok) = p_bit_strm.read_byte();
        if !ok {
            return false;
        }
        i = i + 1;
    }
    if n_remaining_bits > 0 {
        let (_cur_byte, ok) = p_bit_strm.read_partial_byte(n_remaining_bits as u8);
        if !ok {
            return false;
        }
    }
    true
}

/// Read `n_bits_to_read` bits and decode them as a boolean: true when they
/// are the first bits of `true_pattern`, false when they are those of
/// `false_pattern`; fails when they are neither, or when the stream holds
/// fewer bits.
pub fn bit_stream_decode_true_false_boolean(
    p_bit_strm: &mut BitStream,
    true_pattern: &[u8],
    false_pattern: &[u8],
    n_bits_to_read: i32,
) -> (r: (bool, bool))
    requires
        old(p_bit_strm).wf(),
        n_bits_to_read <= 8 * true_pattern@.len(),
        n_bits_to_read <= 8 * false_pattern@.len(),
    ensures
        n_bits_to_read <= 0 ==> r == (true, true) && *final(p_bit_strm) == *old(p_bit_strm),
        n_bits_to_read > 0 && old(p_bit_strm).remaining() < n_bits_to_read ==> r == (false, false)
            && final(p_bit_strm).same_buffer(*old(p_bit_strm)),
        n_bits_to_read > 0 && old(p_bit_strm).remaining() >= n_bits_to_read ==> final(p_bit_strm).advanced(
            *old(p_bit_strm),
            n_bits_to_read as int,
        ),
        n_bits_to_read > 0 && old(p_bit_strm).remaining() >= n_bits_to_read ==> r == (if matches_pattern(
            *old(p_bit_strm),
            true_pattern@,
            n_bits_to_read as int,
        ) {
            (true, true)
        } else if matches_pattern(*old(p_bit_strm), false_pattern@, n_bits_to_read as int) {
            (false, true)
        } else {
            (false, false)
        }),
{
    if n_bits_to_read <= 0 {
        return (true, true);
    }
    let (is_true, is_false, ok) = read_and_match(p_bit_strm, true_pattern, false_pattern, n_bits_to_read);
    if !ok {
        return (false, false);
    }
    if is_true {
        (true, true)
    } else if is_false {
        (false, true)
    } else {
        (false, false)
    }
}

} // verus!
