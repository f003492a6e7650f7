//! A bit stream over a byte buffer: a cursor made of a byte index and a bit
//! index (bit 0 is the most significant bit of a byte).  Writing overwrites
//! exactly the bits it covers; reading fails when the buffer holds fewer
//! bits than requested.
use vstd::prelude::*;
use vstd::arithmetic::power2::*;
use vstd::bits::lemma_u64_shr_is_div;
use crate::octets::wrap_i64;
use crate::bits::{
    bits_value, bit_num, byte_bit, bytes_to_bits, lemma_bits_value_bound, lemma_nat_bits_len,
    lemma_nat_bits_padded, lemma_nat_bits_step, lemma_num_bits_bound, lemma_num_bits_le, lemma_splice_empty,
    lemma_octet_bits_len, lemma_splice_splice, nat_bits, nonneg, num_bits, octet_bits, repeat_bit,
    splice,
};

verus! {

/// Largest buffer, in bytes, that a stream accepts.
pub const MAX_STREAM_BYTES: i64 = 0x0000_00FF_FFFF_FFFF;

/// Largest byte index that a stream's cursor may hold.
pub const MAX_CURSOR_BYTE: i64 = 0x0000_01FF_FFFF_FFFF;

/// A cursor over a byte buffer, at bit granularity.
pub struct BitStream {
    pub buf: Vec<u8>,
    /// Number of bytes of `buf` in use.
    pub count: i64,
    /// Index of the byte that holds the cursor.
    pub current_byte: i64,
    /// Index of the cursor's bit within that byte (0 = most significant).
    pub current_bit: i32,
}

/// The last 64 bits of `s` (all of `s` when shorter): what a 64-bit word
/// keeps of `s` shifted into it bit by bit.
pub open spec fn low_word(s: Seq<bool>) -> Seq<bool> {
    if s.len() > 64 {
        s.subrange(s.len() - 64, s.len() as int)
    } else {
        s
    }
}

/// Bit `j` (0 = most significant) of `b` set to `v`.
pub open spec fn with_bit(b: u8, j: u8, v: bool) -> u8 {
    if v {
        b | (0x80u8 >> j)
    } else {
        b & !(0x80u8 >> j)
    }
}

proof fn lemma_with_bit(b: u8, k: u8, v: bool, j: u8)
    requires
        k < 8,
        j < 8,
    ensures
        byte_bit(with_bit(b, k, v), j as int) == if j == k { v } else { byte_bit(b, j as int) },
{
    let n = with_bit(b, k, v);
    assert(byte_bit(n, j as int) == (((n >> ((7 - j) as u8)) & 1u8) == 1u8));
    if v {
        assert((((b | (0x80u8 >> k)) >> ((7 - j) as u8)) & 1u8 == 1u8) == if j == k { true } else {
            ((b >> ((7 - j) as u8)) & 1u8) == 1u8
        }) by (bit_vector)
            requires
                k < 8,
                j < 8,
        ;
    } else {
        assert((((b & !(0x80u8 >> k)) >> ((7 - j) as u8)) & 1u8 == 1u8) == if j == k { false } else {
            ((b >> ((7 - j) as u8)) & 1u8) == 1u8
        }) by (bit_vector)
            requires
                k < 8,
                j < 8,
        ;
    }
}

impl BitStream {
    /// The stream's fields are consistent.
    pub open spec fn wf(&self) -> bool {
        &&& self.count == self.buf@.len()
        &&& 0 <= self.count <= MAX_STREAM_BYTES
        &&& 0 <= self.current_byte <= MAX_CURSOR_BYTE
        &&& 0 <= self.current_bit < 8
    }

    /// The bits of the buffer.
    pub open spec fn bits(&self) -> Seq<bool> {
        bytes_to_bits(self.buf@)
    }

    /// The cursor, in bits from the start of the buffer.
    pub open spec fn pos(&self) -> int {
        self.current_byte * 8 + self.current_bit
    }

    /// Number of bits between the cursor and the end of the buffer (negative
    /// when the cursor lies past the end).
    pub open spec fn remaining(&self) -> int {
        8 * self.count - self.pos()
    }

    /// The `n` bits that follow the cursor.
    pub open spec fn next_bits(&self, n: int) -> Seq<bool> {
        self.bits().subrange(self.pos(), self.pos() + n)
    }

    /// `self` is `old` with `s` written at the cursor and the cursor moved past it.
    pub open spec fn wrote(&self, old: BitStream, s: Seq<bool>) -> bool {
        &&& self.wf()
        &&& self.count == old.count
        &&& self.bits() == splice(old.bits(), old.pos(), s)
        &&& self.pos() == old.pos() + s.len()
    }

    /// `self` is `old` with the cursor moved by `n` bits and the buffer unchanged.
    pub open spec fn advanced(&self, old: BitStream, n: int) -> bool {
        &&& self.wf()
        &&& self.count == old.count
        &&& self.buf@ == old.buf@
        &&& self.pos() == old.pos() + n
    }

    /// `self` holds the buffer of `old`, with the cursor anywhere in the stream.
    pub open spec fn same_buffer(&self, old: BitStream) -> bool {
        &&& self.wf()
        &&& self.count == old.count
        &&& self.buf@ == old.buf@
        &&& old.pos() <= self.pos()
    }

    /// `self` is `old` after a decoder that returned `(val, ok)`: on
    /// `Some((v, k))` the decoder succeeded with `v` after consuming `k`
    /// bits; on `None` it failed, and the buffer is unchanged.
    pub open spec fn decoded(&self, old: BitStream, val: int, ok: bool, res: Option<(int, int)>) -> bool {
        match res {
            Some((v, k)) => ok && val == v && self.advanced(old, k),
            None => !ok && val == 0 && self.same_buffer(old),
        }
    }

    /// Like `decoded`, for a decoder that also fails when the value lies
    /// outside `lo..=hi`; the field is then consumed all the same.
    pub open spec fn decoded_in(
        &self,
        old: BitStream,
        val: int,
        ok: bool,
        res: Option<(int, int)>,
        lo: int,
        hi: int,
    ) -> bool {
        match res {
            Some((v, k)) => if lo <= v <= hi {
                ok && val == v && self.advanced(old, k)
            } else {
                !ok && val == 0 && self.advanced(old, k)
            },
            None => !ok && val == 0 && self.same_buffer(old),
        }
    }

    /// A stream over `buf`, with the buffer cleared and the cursor at the start.
    pub fn new(buf: Vec<u8>) -> (r: BitStream)
        requires
            buf@.len() <= MAX_STREAM_BYTES,
        ensures
            r.wf(),
            r.buf@ == Seq::new(buf@.len(), |i: int| 0u8),
            r.pos() == 0,
    {
        let mut buf = buf;
        let n = buf.len();
        let mut i: usize = 0;
        while i < n
            invariant
                buf@.len() == n,
                i <= n,
                forall|j: int| 0 <= j < i ==> buf@[j] == 0u8,
            decreases n - i,
        {
            buf.set(i, 0u8);
            i = i + 1;
        }
        assert(buf@ =~= Seq::new(n as nat, |i: int| 0u8));
        BitStream { buf, count: n as i64, current_byte: 0, current_bit: 0 }
    }

    /// A stream over `buf` as it is, with the cursor at the start.
    pub fn attach_buffer_no_zero(buf: Vec<u8>) -> (r: BitStream)
        requires
            buf@.len() <= MAX_STREAM_BYTES,
        ensures
            r.wf(),
            r.buf@ == buf@,
            r.pos() == 0,
    {
        let n = buf.len();
        BitStream { buf, count: n as i64, current_byte: 0, current_bit: 0 }
    }

    /// Number of bytes that hold written data: the cursor's byte, counted
    /// when the cursor lies inside it.
    pub fn get_length(&self) -> (r: i64)
        requires
            self.wf(),
        ensures
            r == if self.current_bit > 0 { self.current_byte + 1 } else { self.current_byte as int },
    {
        if self.current_bit > 0 {
            self.current_byte + 1
        } else {
            self.current_byte
        }
    }

    /// Write one bit at the cursor.
    pub fn append_bit(&mut self, v: bool)
        requires
            old(self).wf(),
            old(self).remaining() >= 1,
        ensures
            final(self).wrote(*old(self), seq![v]),
    {
        let len = self.buf.len();
        assert(self.current_byte < len);
        let cb = self.current_byte as usize;
        let k = self.current_bit as u8;
        let old_byte = self.buf[cb];
        let new_byte = if v { old_byte | (0x80u8 >> k) } else { old_byte & !(0x80u8 >> k) };
        assert(new_byte == with_bit(old_byte, k, v));
        self.buf.set(cb, new_byte);
        proof {
            let ob = old(self).bits();
            let nb = self.bits();
            let p = old(self).pos();
            assert forall|i: int| 0 <= i < nb.len() implies nb[i] == ob.update(p, v)[i] by {
                if i / 8 == cb as int {
                    lemma_with_bit(old_byte, k, v, (i % 8) as u8);
                }
            }
            assert(nb =~= ob.update(p, v));
            assert(splice(ob, p, seq![v]) =~= ob.update(p, v));
        }
        if self.current_bit == 7 {
            self.current_bit = 0;
            self.current_byte = self.current_byte + 1;
        } else {
            self.current_bit = self.current_bit + 1;
        }
    }

    /// Read one bit at the cursor; `false` as second component when the
    /// stream is exhausted, with the cursor unchanged.
    pub fn read_bit(&mut self) -> (r: (bool, bool))
        requires
            old(self).wf(),
        ensures
            r.1 == (old(self).remaining() >= 1),
            r.1 ==> final(self).advanced(*old(self), 1) && r.0 == old(self).bits()[old(self).pos()],
            !r.1 ==> *final(self) == *old(self) && r.0 == false,
    {
        if self.current_byte >= self.count {
            return (false, false);
        }
        let len = self.buf.len();
        assert(self.current_byte < len);
        let cb = self.current_byte as usize;
        let k = self.current_bit as u8;
        let b = ((self.buf[cb] >> (7 - k)) & 1u8) == 1u8;
        proof {
            let p = old(self).pos();
            assert(p / 8 == cb as int);
            assert(p % 8 == k as int);
        }
        if self.current_bit == 7 {
            self.current_bit = 0;
            self.current_byte = self.current_byte + 1;
        } else {
            self.current_bit = self.current_bit + 1;
        }
        (b, true)
    }

    /// The bit at the cursor, without moving it; `false` when the stream is
    /// exhausted.
    pub fn peek_bit(&self) -> (r: bool)
        requires
            self.wf(),
        ensures
            r == if self.remaining() >= 1 { self.bits()[self.pos()] } else { false },
    {
        if self.current_byte >= self.count {
            return false;
        }
        let len = self.buf.len();
        assert(self.current_byte < len);
        let cb = self.current_byte as usize;
        let k = self.current_bit as u8;
        proof {
            let p = self.pos();
            assert(p / 8 == cb as int);
            assert(p % 8 == k as int);
        }
        ((self.buf[cb] >> (7 - k)) & 1u8) == 1u8
    }

    /// Number of bits between the cursor and the end of the buffer.
    pub fn remaining_bits(&self) -> (r: i64)
        requires
            self.wf(),
        ensures
            r == self.remaining(),
    {
        self.count * 8 - (self.current_byte * 8 + self.current_bit as i64)
    }

    /// Write the `n` low bits of `v`, most significant first.
    pub fn append_bits(&mut self, v: u64, n: u32)
        requires
            old(self).wf(),
            n <= 64,
            old(self).remaining() >= n,
        ensures
            final(self).wrote(*old(self), nat_bits(v as nat, n as nat)),
    {
        let ghost s0 = *self;
        let mut k: u32 = n;
        proof {
            lemma_pow2_pos(n as nat);
            assert(nat_bits(v as nat / pow2(n as nat), 0) =~= Seq::<bool>::empty());
            lemma_splice_empty(s0.bits(), s0.pos());
        }
        while k > 0
            invariant
                k <= n <= 64,
                s0.wf(),
                s0.remaining() >= n,
                self.wrote(s0, nat_bits(v as nat / pow2(k as nat), (n - k) as nat)),
            decreases k,
        {
            let sh = k - 1;
            let bit = ((v >> sh) & 1u64) == 1u64;
            proof {
                lemma_u64_shr_is_div(v, sh as u64);
                let x = v >> sh;
                assert(((x & 1u64) == 1u64) == (x % 2 == 1)) by (bit_vector);
                lemma_nat_bits_step(v as nat, sh as nat, (n - k) as nat);
                lemma_nat_bits_len(v as nat / pow2(k as nat), (n - k) as nat);
            }
            let ghost before = *self;
            self.append_bit(bit);
            proof {
                let w = nat_bits(v as nat / pow2(k as nat), (n - k) as nat);
                lemma_splice_splice(s0.bits(), s0.pos(), w, seq![bit]);
                assert(w + seq![bit] =~= w.push(bit));
                assert((sh + 1) as nat == k as nat);
            }
            k = sh;
        }
        proof {
            lemma2_to64();
            assert(v as nat / pow2(0) == v as nat);
        }
    }

    /// Read `n` bits as an unsigned number, most significant first; fails,
    /// leaving the stream unchanged, when fewer than `n` bits remain.
    pub fn read_bits(&mut self, n: u32) -> (r: (u64, bool))
        requires
            old(self).wf(),
            n <= 64,
        ensures
            r.1 == (old(self).remaining() >= n),
            r.1 ==> final(self).advanced(*old(self), n as int) && r.0 as nat == bits_value(
                old(self).next_bits(n as int),
            ),
            !r.1 ==> *final(self) == *old(self) && r.0 == 0,
    {
        if self.remaining_bits() < n as i64 {
            return (0, false);
        }
        let ghost s0 = *self;
        let mut r: u64 = 0;
        let mut i: u32 = 0;
        proof {
            assert(s0.next_bits(0) =~= Seq::<bool>::empty());
        }
        while i < n
            invariant
                i <= n <= 64,
                s0.wf(),
                s0.remaining() >= n,
                self.advanced(s0, i as int),
                r as nat == bits_value(s0.next_bits(i as int)),
            decreases n - i,
        {
            let (b, _) = self.read_bit();
            proof {
                lemma_bits_value_bound(s0.next_bits(i as int));
                lemma2_to64_rest();
                if i < 63 {
                    lemma_pow2_strictly_increases(i as nat, 63);
                }
                assert(r < 0x8000_0000_0000_0000u64);
                assert(s0.next_bits(i + 1).drop_last() =~= s0.next_bits(i as int));
                assert(s0.next_bits(i + 1).last() == b);
            }
            let c: u64 = if b { 1 } else { 0 };
            assert(r < 0x8000_0000_0000_0000u64 && c <= 1 ==> ((r << 1u64) | c) == 2 * r + c)
                by (bit_vector);
            r = (r << 1u64) | c;
            i = i + 1;
        }
        (r, true)
    }

    /// Write `n` clear bits (none when `n` is not positive).
    pub fn append_n_bit_zero(&mut self, n: i32)
        requires
            old(self).wf(),
            old(self).remaining() >= nonneg(n as int),
        ensures
            final(self).wrote(*old(self), repeat_bit(false, nonneg(n as int))),
    {
        self.append_n_bits(false, n);
    }

    /// Write `n` set bits (none when `n` is not positive).
    pub fn append_n_bit_one(&mut self, n: i32)
        requires
            old(self).wf(),
            old(self).remaining() >= nonneg(n as int),
        ensures
            final(self).wrote(*old(self), repeat_bit(true, nonneg(n as int))),
    {
        self.append_n_bits(true, n);
    }

    fn append_n_bits(&mut self, b: bool, n: i32)
        requires
            old(self).wf(),
            old(self).remaining() >= nonneg(n as int),
        ensures
            final(self).wrote(*old(self), repeat_bit(b, nonneg(n as int))),
    {
        let ghost s0 = *self;
        let mut i: i32 = 0;
        proof {
            lemma_splice_empty(s0.bits(), s0.pos());
            assert(repeat_bit(b, 0) =~= Seq::<bool>::empty());
        }
        while i < n
            invariant
                0 <= i,
                i <= n || n <= 0,
                n > 0 ==> i <= n,
                n <= 0 ==> i == 0,
                s0.wf(),
                s0.remaining() >= nonneg(n as int),
                self.wrote(s0, repeat_bit(b, i as nat)),
            decreases n - i,
        {
            self.append_bit(b);
            proof {
                lemma_splice_splice(s0.bits(), s0.pos(), repeat_bit(b, i as nat), seq![b]);
                assert(repeat_bit(b, i as nat) + seq![b] =~= repeat_bit(b, (i + 1) as nat));
            }
            i = i + 1;
        }
    }

    /// Write a byte, or its complement when `negate` holds.
    pub fn append_byte(&mut self, v: u8, negate: bool)
        requires
            old(self).wf(),
            old(self).remaining() >= 8,
        ensures
            final(self).wrote(*old(self), nat_bits((if negate { !v } else { v }) as nat, 8)),
    {
        let x: u8 = if negate { !v } else { v };
        self.append_bits(x as u64, 8);
    }

    /// Write a byte.
    pub fn append_byte0(&mut self, v: u8)
        requires
            old(self).wf(),
            old(self).remaining() >= 8,
        ensures
            final(self).wrote(*old(self), nat_bits(v as nat, 8)),
    {
        self.append_bits(v as u64, 8);
    }

    /// Write the first `n` bytes of `v`, one after another.
    pub fn append_octets(&mut self, v: &[u8], n: usize)
        requires
            old(self).wf(),
            n <= v@.len(),
            old(self).remaining() >= 8 * n,
        ensures
            final(self).wrote(*old(self), octet_bits(v@.subrange(0, n as int))),
    {
        let ghost s0 = *self;
        let mut i: usize = 0;
        proof {
            lemma_splice_empty(s0.bits(), s0.pos());
            assert(v@.subrange(0, 0) =~= Seq::<u8>::empty());
        }
        while i < n
            invariant
                i <= n <= v@.len(),
                s0.wf(),
                s0.remaining() >= 8 * n,
                self.wrote(s0, octet_bits(v@.subrange(0, i as int))),
            decreases n - i,
        {
            let ghost s1 = *self;
            proof {
                lemma_octet_bits_len(v@.subrange(0, i as int));
            }
            self.append_byte0(v[i]);
            proof {
                let pre = v@.subrange(0, i as int);
                lemma_nat_bits_len(v[i as int] as nat, 8);
                lemma_wrote_concat(s0, s1, *self, octet_bits(pre), nat_bits(v[i as int] as nat, 8));
                assert(v@.subrange(0, i + 1).drop_last() =~= pre);
            }
            i = i + 1;
        }
    }

    /// Write the `n` low bits of a byte, or of its complement when `negate` holds.
    pub fn append_partial_byte(&mut self, v: u8, n: u8, negate: bool)
        requires
            old(self).wf(),
            n <= 8,
            old(self).remaining() >= n,
        ensures
            final(self).wrote(*old(self), nat_bits((if negate { !v } else { v }) as nat, n as nat)),
    {
        let x: u8 = if negate { !v } else { v };
        self.append_bits(x as u64, n as u32);
    }

    /// Read a byte; fails, leaving the stream unchanged, when fewer than 8 bits remain.
    pub fn read_byte(&mut self) -> (r: (u8, bool))
        requires
            old(self).wf(),
        ensures
            r.1 == (old(self).remaining() >= 8),
            r.1 ==> final(self).advanced(*old(self), 8) && r.0 as nat == bits_value(
                old(self).next_bits(8),
            ),
            !r.1 ==> *final(self) == *old(self) && r.0 == 0,
    {
        let (v, ok) = self.read_bits(8);
        proof {
            lemma_bits_value_bound(old(self).next_bits(8));
            lemma2_to64();
        }
        (v as u8, ok)
    }

    /// Read `n` bits (at most 8); fails, leaving the stream unchanged, when
    /// fewer than `n` bits remain.
    pub fn read_partial_byte(&mut self, n: u8) -> (r: (u8, bool))
        requires
            old(self).wf(),
            n <= 8,
        ensures
            r.1 == (old(self).remaining() >= n),
            r.1 ==> final(self).advanced(*old(self), n as int) && r.0 as nat == bits_value(
                old(self).next_bits(n as int),
            ),
            !r.1 ==> *final(self) == *old(self) && r.0 == 0,
    {
        let (v, ok) = self.read_bits(n as u32);
        proof {
            lemma_bits_value_bound(old(self).next_bits(n as int));
            lemma2_to64();
            if n < 8 {
                lemma_pow2_strictly_increases(n as nat, 8);
            }
        }
        (v as u8, ok)
    }

    /// Write `v` in as many bits as it needs.
    pub fn encode_non_negative_integer(&mut self, v: u64)
        requires
            old(self).wf(),
            old(self).remaining() >= num_bits(v as nat),
        ensures
            final(self).wrote(*old(self), nat_bits(v as nat, num_bits(v as nat))),
    {
        let n = get_number_of_bits_for_non_negative_integer(v);
        self.append_bits(v, n as u32);
    }

    /// Write `v` in as many bits as it needs, each bit complemented when
    /// `negate` holds.
    pub fn encode_non_negative_integer_neg(&mut self, v: u64, negate: bool)
        requires
            old(self).wf(),
            old(self).remaining() >= num_bits(v as nat),
        ensures
            final(self).wrote(
                *old(self),
                nat_bits((if negate { !v } else { v }) as nat, num_bits(v as nat)),
            ),
    {
        let n = get_number_of_bits_for_non_negative_integer(v);
        let x = if negate { !v } else { v };
        self.append_bits(x, n as u32);
    }

    /// Move the cursor `k` bits forward.
    fn skip_bits(&mut self, k: i64)
        requires
            old(self).wf(),
            0 <= k <= old(self).remaining(),
        ensures
            final(self).advanced(*old(self), k as int),
    {
        let np: i64 = self.current_byte * 8 + self.current_bit as i64 + k;
        self.current_byte = np / 8;
        self.current_bit = (np % 8) as i32;
    }

    /// Read an `n`-bit unsigned number into a 64-bit word, which keeps its
    /// last 64 bits when `n` is larger; a field of `n <= 0` bits reads as 0.
    /// Fails, leaving the stream unchanged, when fewer than `n` bits remain.
    pub fn decode_non_negative_integer(&mut self, n: i32) -> (r: (u64, bool))
        requires
            old(self).wf(),
        ensures
            n <= 0 ==> r == (0u64, true) && *final(self) == *old(self),
            n > 0 ==> r.1 == (old(self).remaining() >= n),
            n > 0 && r.1 ==> final(self).advanced(*old(self), n as int) && r.0 as nat == bits_value(
                low_word(old(self).next_bits(n as int)),
            ),
            !r.1 ==> *final(self) == *old(self) && r.0 == 0,
    {
        if n <= 0 {
            return (0, true);
        }
        if n <= 64 {
            return self.read_bits(n as u32);
        }
        if self.remaining_bits() < n as i64 {
            return (0, false);
        }
        let ghost s0 = *self;
        self.skip_bits((n - 64) as i64);
        let ghost s1 = *self;
        let r = self.read_bits(64);
        proof {
            assert(s1.next_bits(64) =~= low_word(s0.next_bits(n as int)));
        }
        r
    }
}

impl BitStream {
    /// Write `v - min` in as many bits as `max - min` needs (nothing when
    /// `min == max`).
    pub fn encode_constraint_whole_number(&mut self, v: i64, min: i64, max: i64)
        requires
            old(self).wf(),
            min <= v <= max,
            old(self).remaining() >= num_bits((max - min) as nat),
        ensures
            final(self).wrote(*old(self), nat_bits((v - min) as nat, num_bits((max - min) as nat))),
    {
        let ghost s0 = *self;
        let range: u64 = (max as i128 - min as i128) as u64;
        if range == 0 {
            proof {
                assert(nat_bits((v - min) as nat, 0) =~= Seq::<bool>::empty());
                lemma_wrote_nothing(s0, *self);
            }
            return;
        }
        let n_range_bits = get_number_of_bits_for_non_negative_integer(range);
        let d: u64 = (v as i128 - min as i128) as u64;
        let n_bits = get_number_of_bits_for_non_negative_integer(d);
        proof {
            lemma_num_bits_bound(range as nat);
            lemma_num_bits_le(d as nat, n_range_bits as nat);
            lemma_nat_bits_padded(d as nat, n_range_bits as nat);
        }
        self.append_n_bit_zero(n_range_bits - n_bits);
        let ghost s1 = *self;
        self.encode_non_negative_integer(d);
        proof {
            lemma_nat_bits_len(d as nat, n_bits as nat);
            lemma_wrote_concat(
                s0,
                s1,
                *self,
                repeat_bit(false, (n_range_bits - n_bits) as nat),
                nat_bits(d as nat, n_bits as nat),
            );
        }
    }

    /// Read a number written by `encode_constraint_whole_number` with the
    /// same bounds: nothing is read when `min == max`.
    pub fn decode_constraint_whole_number(&mut self, min: i64, max: i64) -> (r: (i64, bool))
        requires
            old(self).wf(),
            min <= max,
        ensures
            final(self).decoded(*old(self), r.0 as int, r.1, spec_dec_whole_number(old(self).bits(), old(self).pos(), min as int, max as int)),
    {
        let range: u64 = (max as i128 - min as i128) as u64;
        if range == 0 {
            return (min, true);
        }
        let n_range_bits = get_number_of_bits_for_non_negative_integer(range);
        let (uv, ok) = self.decode_non_negative_integer(n_range_bits);
        if ok {
            let w = uv as i128 + min as i128;
            let v: i64 = if w > 0x7FFF_FFFF_FFFF_FFFFi128 {
                (w - 0x1_0000_0000_0000_0000i128) as i64
            } else {
                w as i64
            };
            (v, true)
        } else {
            (0, false)
        }
    }
}

/// A number written in as many bits as `max - min` needs, as an offset
/// from `min`; the sum wraps as `i64` arithmetic does.
pub open spec fn spec_dec_whole_number(b: Seq<bool>, p: int, min: int, max: int) -> Option<(int, int)> {
    let n = num_bits((max - min) as nat) as int;
    if n == 0 {
        Some((min, 0))
    } else if b.len() - p < n {
        None
    } else {
        Some((wrap_i64(bits_value(b.subrange(p, p + n)) + min), n))
    }
}

/// Index of the first `ch` in `set` at or after index `i`, or 0 when there is none.
pub open spec fn char_index_from(set: Seq<u8>, ch: u8, i: nat) -> nat
    decreases set.len() - i,
{
    if i >= set.len() {
        0
    } else if set[i as int] == ch {
        i
    } else {
        char_index_from(set, ch, i + 1)
    }
}

/// Index of the first `ch` in `set`, or 0 when there is none.
pub open spec fn char_index(set: Seq<u8>, ch: u8) -> nat {
    char_index_from(set, ch, 0)
}

proof fn lemma_char_index_from_bound(set: Seq<u8>, ch: u8, i: nat)
    ensures
        set.len() > 0 ==> char_index_from(set, ch, i) < set.len(),
    decreases set.len() - i,
{
    if i < set.len() && set[i as int] != ch {
        lemma_char_index_from_bound(set, ch, i + 1);
    }
}

/// Index of the first `ch` in `allowed_char_set`, or 0 when there is none.
pub fn get_char_index(ch: u8, allowed_char_set: &[u8]) -> (r: usize)
    ensures
        r == char_index(allowed_char_set@, ch),
        allowed_char_set@.len() > 0 ==> r < allowed_char_set@.len(),
{
    let mut i: usize = 0;
    proof {
        lemma_char_index_from_bound(allowed_char_set@, ch, 0);
    }
    while i < allowed_char_set.len()
        invariant
            i <= allowed_char_set@.len(),
            char_index(allowed_char_set@, ch) == char_index_from(allowed_char_set@, ch, i as nat),
        decreases allowed_char_set@.len() - i,
    {
        if allowed_char_set[i] == ch {
            return i;
        }
        i = i + 1;
    }
    0
}

/// Number of bits needed to write `v` (0 for zero).
pub fn get_number_of_bits_for_non_negative_integer(v: u64) -> (r: i32)
    ensures
        r == num_bits(v as nat),
        0 <= r <= 64,
{
    let mut x = v;
    let mut n: i32 = 0;
    proof {
        lemma2_to64_rest();
        lemma_num_bits_le(v as nat, 64);
    }
    while x > 0
        invariant
            num_bits(v as nat) == n + num_bits(x as nat),
            num_bits(v as nat) <= 64,
        decreases x,
    {
        assert(x >> 1u64 == x / 2) by (bit_vector);
        x = x >> 1u64;
        n = n + 1;
    }
    n
}

/// Writing `a` and then `b` is writing `a + b`.
pub proof fn lemma_wrote_concat(s0: BitStream, s1: BitStream, s2: BitStream, a: Seq<bool>, b: Seq<bool>)
    requires
        s0.wf(),
        s0.remaining() >= a.len() + b.len(),
        s1.wrote(s0, a),
        s2.wrote(s1, b),
    ensures
        s2.wrote(s0, a + b),
{
    lemma_splice_splice(s0.bits(), s0.pos(), a, b);
}

/// A stream left unchanged wrote nothing.
pub proof fn lemma_wrote_nothing(s0: BitStream, s1: BitStream)
    requires
        s0.wf(),
        s0.remaining() >= 0,
        s1 == s0,
    ensures
        s1.wrote(s0, Seq::empty()),
{
    lemma_splice_empty(s0.bits(), s0.pos());
}

} // verus!
