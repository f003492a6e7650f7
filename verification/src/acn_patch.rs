//! Deferred determinants: a field whose value is known only after later
//! fields are written is reserved with zeros, its position remembered, and
//! patched in place once the value is known.  A determinant shared by
//! several fields is written once; later patches only check that they
//! bring the same value.
use vstd::prelude::*;
use crate::{Asn1SccUint, ErrorCode};
use vstd::arithmetic::power2::*;
use crate::bits::{le_bits, lemma_nat_bits_len, lemma_nat_bits_step, nat_bits, nonneg, repeat_bit, splice};
use crate::bitstream::{lemma_wrote_concat, lemma_wrote_nothing};
use crate::acn_string::{cstr_len, nul_position};
use crate::bitstream::{BitStream, MAX_CURSOR_BYTE};
use crate::octets::wrap_u64;
use crate::acn_int::{
    acn_enc_int_positive_integer_const_size_8, acn_enc_int_positive_integer_const_size_big_endian_16,
    acn_enc_int_positive_integer_const_size_big_endian_32,
    acn_enc_int_positive_integer_const_size_big_endian_64,
    acn_enc_int_positive_integer_const_size_little_endian_16,
    acn_enc_int_positive_integer_const_size_little_endian_32,
    acn_enc_int_positive_integer_const_size_little_endian_64, acn_enc_int_twos_complement_const_size_8,
    acn_enc_int_twos_complement_const_size_big_endian_16,
    acn_enc_int_twos_complement_const_size_big_endian_32,
    acn_enc_int_twos_complement_const_size_big_endian_64, acn_enc_int_positive_integer_const_size,
    acn_enc_int_twos_complement_const_size,
};

verus! {

// ─── Positions ────────────────────────────────────────────────────────

/// A cursor position in a bit stream.
#[derive(Debug, Clone, Copy)]
pub struct AcnBitStreamPos {
    pub current_byte: i64,
    pub current_bit: i32,
}

impl AcnBitStreamPos {
    /// The position in bits from the start of the buffer.
    pub open spec fn bit_index(self) -> int {
        self.current_byte * 8 + self.current_bit
    }

    /// A position that a stream's cursor may hold.
    pub open spec fn valid(self) -> bool {
        &&& 0 <= self.current_byte <= MAX_CURSOR_BYTE
        &&& 0 <= self.current_bit < 8
    }
}

impl Default for AcnBitStreamPos {
    fn default() -> (r: Self)
        ensures
            r.current_byte == 0,
            r.current_bit == 0,
    {
        AcnBitStreamPos { current_byte: 0, current_bit: 0 }
    }
}

/// A reserved determinant: where it was reserved, whether it was written,
/// and the value written (for a string determinant, the string).
#[derive(Debug, Clone)]
pub struct AcnInsertedFieldRef {
    /// Where in the stream the field was reserved.
    pub pos: AcnBitStreamPos,
    /// Set by the first patch.
    pub is_set: bool,
    /// The value written by the first patch.
    pub value: Asn1SccUint,
    /// The string written by the first patch of a string determinant, NUL
    /// terminated (256 bytes).
    pub str_value: Vec<u8>,
    /// Number of bytes of `str_value` that hold the string.
    pub str_value_len: usize,
}

impl AcnInsertedFieldRef {
    /// The string buffer has its size and holds the string with its terminator.
    pub open spec fn wf(&self) -> bool {
        &&& self.str_value@.len() == 256
        &&& self.str_value_len <= 255
    }

    /// `self` is `old` with its position set to the cursor of `bs` and
    /// marked unset with value 0.
    pub open spec fn reserved_at(&self, old: AcnInsertedFieldRef, bs: BitStream) -> bool {
        &&& self.pos.current_byte == bs.current_byte
        &&& self.pos.current_bit == bs.current_bit
        &&& !self.is_set
        &&& self.value == 0
        &&& self.str_value == old.str_value
        &&& self.str_value_len == old.str_value_len
    }

    /// A determinant that no patch has written yet.
    pub fn new() -> (r: Self)
        ensures
            r.wf(),
            !r.is_set,
            r.value == 0,
            r.pos.current_byte == 0,
            r.pos.current_bit == 0,
            r.str_value_len == 0,
            r.str_value@ == Seq::new(256, |i: int| 0u8),
    {
        Self::default()
    }
}

impl Default for AcnInsertedFieldRef {
    fn default() -> (r: Self)
        ensures
            r.wf(),
            !r.is_set,
            r.value == 0,
            r.pos.current_byte == 0,
            r.pos.current_bit == 0,
            r.str_value_len == 0,
            r.str_value@ == Seq::new(256, |i: int| 0u8),
    {
        let v: Vec<u8> = vec![0u8; 256];
        assert(v@ =~= Seq::new(256, |i: int| 0u8));
        AcnInsertedFieldRef {
            pos: AcnBitStreamPos { current_byte: 0, current_bit: 0 },
            is_set: false,
            value: 0,
            str_value: v,
            str_value_len: 0,
        }
    }
}

/// The cursor of `bs`.
pub fn acn_bit_stream_get_pos(bs: &BitStream) -> (r: AcnBitStreamPos)
    ensures
        r.current_byte == bs.current_byte,
        r.current_bit == bs.current_bit,
{
    AcnBitStreamPos { current_byte: bs.current_byte, current_bit: bs.current_bit }
}

/// Move the cursor of `bs` to `p`.
pub fn acn_bit_stream_set_pos(bs: &mut BitStream, p: AcnBitStreamPos)
    requires
        old(bs).wf(),
        p.valid(),
    ensures
        final(bs).wf(),
        final(bs).buf == old(bs).buf,
        final(bs).count == old(bs).count,
        final(bs).current_byte == p.current_byte,
        final(bs).current_bit == p.current_bit,
{
    bs.current_byte = p.current_byte;
    bs.current_bit = p.current_bit;
}

/// `v / 8` rounded toward zero, as integer division does.
pub open spec fn div8_toward_zero(v: int) -> int {
    if v >= 0 {
        v / 8
    } else {
        -((-v) / 8)
    }
}

/// The bit distance from `start` to `end` in bytes, rounded up for a
/// forward distance, as an unsigned 64-bit number.
pub fn acn_bit_stream_distance_in_bytes(start: AcnBitStreamPos, end: AcnBitStreamPos) -> (r: Asn1SccUint)
    requires
        i64::MIN <= start.current_byte * 8 && start.bit_index() <= i64::MAX,
        i64::MIN <= end.current_byte * 8 && end.bit_index() <= i64::MAX,
        start.current_byte * 8 <= i64::MAX && i64::MIN <= start.bit_index(),
        end.current_byte * 8 <= i64::MAX && i64::MIN <= end.bit_index(),
        i64::MIN <= end.bit_index() - start.bit_index() && end.bit_index() - start.bit_index() + 7 <= i64::MAX,
    ensures
        r == wrap_u64(div8_toward_zero(end.bit_index() - start.bit_index() + 7)),
{
    let start_bits = start.current_byte * 8 + start.current_bit as i64;
    let end_bits = end.current_byte * 8 + end.current_bit as i64;
    let d = end_bits - start_bits + 7;
    let q: i64 = if d >= 0 { d / 8 } else { -((-d) / 8) };
    crate::octets::int2uint(q)
}

/// The bit distance from `start` to `end`, as an unsigned 64-bit number.
pub fn acn_bit_stream_distance_in_bits(start: AcnBitStreamPos, end: AcnBitStreamPos) -> (r: Asn1SccUint)
    requires
        i64::MIN <= start.current_byte * 8 && start.bit_index() <= i64::MAX,
        i64::MIN <= end.current_byte * 8 && end.bit_index() <= i64::MAX,
        start.current_byte * 8 <= i64::MAX && i64::MIN <= start.bit_index(),
        end.current_byte * 8 <= i64::MAX && i64::MIN <= end.bit_index(),
        i64::MIN <= end.bit_index() - start.bit_index() <= i64::MAX,
    ensures
        r == wrap_u64(end.bit_index() - start.bit_index()),
{
    let start_bits = start.current_byte * 8 + start.current_bit as i64;
    let end_bits = end.current_byte * 8 + end.current_bit as i64;
    crate::octets::int2uint(end_bits - start_bits)
}

// ─── Patching ─────────────────────────────────────────────────────────

/// `new` is `old` with `s` written over the bits from position `at` on;
/// its cursor did not move.
pub open spec fn patched(old: BitStream, new: BitStream, at: AcnBitStreamPos, s: Seq<bool>) -> bool {
    &&& new.wf()
    &&& new.count == old.count
    &&& new.pos() == old.pos()
    &&& new.bits() == splice(old.bits(), at.bit_index(), s)
}

/// What patching the determinant `old_det` with `v`, written as the bits
/// `s`, does: the first patch writes `s` at the reserved position and
/// records `v`; later ones change nothing and fail when `v` differs from
/// the recorded value.
pub open spec fn patch_outcome(
    old_bs: BitStream,
    new_bs: BitStream,
    old_det: AcnInsertedFieldRef,
    new_det: AcnInsertedFieldRef,
    v: u64,
    r: (bool, Option<ErrorCode>),
    s: Seq<bool>,
) -> bool {
    if !old_det.is_set {
        &&& r == (true, Option::<ErrorCode>::None)
        &&& new_det.pos == old_det.pos
        &&& new_det.is_set
        &&& new_det.value == v
        &&& new_det.str_value == old_det.str_value
        &&& new_det.str_value_len == old_det.str_value_len
        &&& patched(old_bs, new_bs, old_det.pos, s)
    } else if old_det.value != v {
        &&& r == (false, Some(ErrorCode::AcnDetConsistencyMismatch))
        &&& new_det == old_det
        &&& new_bs == old_bs
    } else {
        &&& r == (true, Option::<ErrorCode>::None)
        &&& new_det == old_det
        &&& new_bs == old_bs
    }
}

/// The `i64` with the bit pattern of `v`.
fn u64_as_i64(v: u64) -> (r: i64)
    ensures
        wrap_u64(r as int) == v,
{
    if v <= 0x7FFF_FFFF_FFFF_FFFF {
        v as i64
    } else {
        (v as i128 - 0x1_0000_0000_0000_0000i128) as i64
    }
}

/// The bits of a determinant written as an 8-bit unsigned field.
pub open spec fn det_bits_u8(v: u64) -> Seq<bool> {
    nat_bits(v as nat, 8)
}

/// Reserve a 8-bit determinant at the cursor: remember the position,
/// mark the determinant unset and write zeros in its place.
pub fn acn_init_det_u8(bs: &mut BitStream, det: &mut AcnInsertedFieldRef)
    requires
        old(bs).wf(),
        old(bs).remaining() >= 8,
    ensures
        final(det).reserved_at(*old(det), *old(bs)),
        final(bs).wrote(*old(bs), det_bits_u8(0)),
{
    det.pos = acn_bit_stream_get_pos(bs);
    det.is_set = false;
    det.value = 0;
    acn_enc_int_positive_integer_const_size_8(bs, 0);
}

/// Write `v` into the 8-bit determinant reserved by `acn_init_det_u8`,
/// the first time; afterwards only check that `v` is the value written.
pub fn acn_patch_det_u8(v: Asn1SccUint, bs: &mut BitStream, det: &mut AcnInsertedFieldRef) -> (r: (
    bool,
    Option<ErrorCode>,
))
    requires
        old(bs).wf(),
        !old(det).is_set ==> old(det).pos.valid() && 8 * old(bs).count - old(det).pos.bit_index() >= 8,
    ensures
        patch_outcome(*old(bs), *final(bs), *old(det), *final(det), v, r, det_bits_u8(v)),
{
    if !det.is_set {
        let cur = acn_bit_stream_get_pos(bs);
        acn_bit_stream_set_pos(bs, det.pos);
        acn_enc_int_positive_integer_const_size_8(bs, v);
        acn_bit_stream_set_pos(bs, cur);
        det.value = v;
        det.is_set = true;
        (true, None)
    } else if det.value != v {
        (false, Some(ErrorCode::AcnDetConsistencyMismatch))
    } else {
        (true, None)
    }
}

/// The bits of a determinant written as a 16-bit big-endian unsigned field.
pub open spec fn det_bits_u16_be(v: u64) -> Seq<bool> {
    nat_bits(v as nat, 16)
}

/// Reserve a 16-bit determinant at the cursor: remember the position,
/// mark the determinant unset and write zeros in its place.
pub fn acn_init_det_u16_be(bs: &mut BitStream, det: &mut AcnInsertedFieldRef)
    requires
        old(bs).wf(),
        old(bs).remaining() >= 16,
    ensures
        final(det).reserved_at(*old(det), *old(bs)),
        final(bs).wrote(*old(bs), det_bits_u16_be(0)),
{
    det.pos = acn_bit_stream_get_pos(bs);
    det.is_set = false;
    det.value = 0;
    acn_enc_int_positive_integer_const_size_big_endian_16(bs, 0);
}

/// Write `v` into the 16-bit determinant reserved by `acn_init_det_u16_be`,
/// the first time; afterwards only check that `v` is the value written.
pub fn acn_patch_det_u16_be(v: Asn1SccUint, bs: &mut BitStream, det: &mut AcnInsertedFieldRef) -> (r: (
    bool,
    Option<ErrorCode>,
))
    requires
        old(bs).wf(),
        !old(det).is_set ==> old(det).pos.valid() && 8 * old(bs).count - old(det).pos.bit_index() >= 16,
    ensures
        patch_outcome(*old(bs), *final(bs), *old(det), *final(det), v, r, det_bits_u16_be(v)),
{
    if !det.is_set {
        let cur = acn_bit_stream_get_pos(bs);
        acn_bit_stream_set_pos(bs, det.pos);
        acn_enc_int_positive_integer_const_size_big_endian_16(bs, v);
        acn_bit_stream_set_pos(bs, cur);
        det.value = v;
        det.is_set = true;
        (true, None)
    } else if det.value != v {
        (false, Some(ErrorCode::AcnDetConsistencyMismatch))
    } else {
        (true, None)
    }
}

/// The bits of a determinant written as a 32-bit big-endian unsigned field.
pub open spec fn det_bits_u32_be(v: u64) -> Seq<bool> {
    nat_bits(v as nat, 32)
}

/// Reserve a 32-bit determinant at the cursor: remember the position,
/// mark the determinant unset and write zeros in its place.
pub fn acn_init_det_u32_be(bs: &mut BitStream, det: &mut AcnInsertedFieldRef)
    requires
        old(bs).wf(),
        old(bs).remaining() >= 32,
    ensures
        final(det).reserved_at(*old(det), *old(bs)),
        final(bs).wrote(*old(bs), det_bits_u32_be(0)),
{
    det.pos = acn_bit_stream_get_pos(bs);
    det.is_set = false;
    det.value = 0;
    acn_enc_int_positive_integer_const_size_big_endian_32(bs, 0);
}

/// Write `v` into the 32-bit determinant reserved by `acn_init_det_u32_be`,
/// the first time; afterwards only check that `v` is the value written.
pub fn acn_patch_det_u32_be(v: Asn1SccUint, bs: &mut BitStream, det: &mut AcnInsertedFieldRef) -> (r: (
    bool,
    Option<ErrorCode>,
))
    requires
        old(bs).wf(),
        !old(det).is_set ==> old(det).pos.valid() && 8 * old(bs).count - old(det).pos.bit_index() >= 32,
    ensures
        patch_outcome(*old(bs), *final(bs), *old(det), *final(det), v, r, det_bits_u32_be(v)),
{
    if !det.is_set {
        let cur = acn_bit_stream_get_pos(bs);
        acn_bit_stream_set_pos(bs, det.pos);
        acn_enc_int_positive_integer_const_size_big_endian_32(bs, v);
        acn_bit_stream_set_pos(bs, cur);
        det.value = v;
        det.is_set = true;
        (true, None)
    } else if det.value != v {
        (false, Some(ErrorCode::AcnDetConsistencyMismatch))
    } else {
        (true, None)
    }
}

/// The bits of a determinant written as a 64-bit big-endian unsigned field.
pub open spec fn det_bits_u64_be(v: u64) -> Seq<bool> {
    nat_bits(v as nat, 64)
}

/// Reserve a 64-bit determinant at the cursor: remember the position,
/// mark the determinant unset and write zeros in its place.
pub fn acn_init_det_u64_be(bs: &mut BitStream, det: &mut AcnInsertedFieldRef)
    requires
        old(bs).wf(),
        old(bs).remaining() >= 64,
    ensures
        final(det).reserved_at(*old(det), *old(bs)),
        final(bs).wrote(*old(bs), det_bits_u64_be(0)),
{
    det.pos = acn_bit_stream_get_pos(bs);
    det.is_set = false;
    det.value = 0;
    acn_enc_int_positive_integer_const_size_big_endian_64(bs, 0);
}

/// Write `v` into the 64-bit determinant reserved by `acn_init_det_u64_be`,
/// the first time; afterwards only check that `v` is the value written.
pub fn acn_patch_det_u64_be(v: Asn1SccUint, bs: &mut BitStream, det: &mut AcnInsertedFieldRef) -> (r: (
    bool,
    Option<ErrorCode>,
))
    requires
        old(bs).wf(),
        !old(det).is_set ==> old(det).pos.valid() && 8 * old(bs).count - old(det).pos.bit_index() >= 64,
    ensures
        patch_outcome(*old(bs), *final(bs), *old(det), *final(det), v, r, det_bits_u64_be(v)),
{
    if !det.is_set {
        let cur = acn_bit_stream_get_pos(bs);
        acn_bit_stream_set_pos(bs, det.pos);
        acn_enc_int_positive_integer_const_size_big_endian_64(bs, v);
        acn_bit_stream_set_pos(bs, cur);
        det.value = v;
        det.is_set = true;
        (true, None)
    } else if det.value != v {
        (false, Some(ErrorCode::AcnDetConsistencyMismatch))
    } else {
        (true, None)
    }
}

/// The bits of a determinant written as a 16-bit little-endian unsigned field.
pub open spec fn det_bits_u16_le(v: u64) -> Seq<bool> {
    le_bits(v as nat, 2)
}

/// Reserve a 16-bit determinant at the cursor: remember the position,
/// mark the determinant unset and write zeros in its place.
pub fn acn_init_det_u16_le(bs: &mut BitStream, det: &mut AcnInsertedFieldRef)
    requires
        old(bs).wf(),
        old(bs).remaining() >= 16,
    ensures
        final(det).reserved_at(*old(det), *old(bs)),
        final(bs).wrote(*old(bs), det_bits_u16_le(0)),
{
    det.pos = acn_bit_stream_get_pos(bs);
    det.is_set = false;
    det.value = 0;
    acn_enc_int_positive_integer_const_size_little_endian_16(bs, 0);
}

/// Write `v` into the 16-bit determinant reserved by `acn_init_det_u16_le`,
/// the first time; afterwards only check that `v` is the value written.
pub fn acn_patch_det_u16_le(v: Asn1SccUint, bs: &mut BitStream, det: &mut AcnInsertedFieldRef) -> (r: (
    bool,
    Option<ErrorCode>,
))
    requires
        old(bs).wf(),
        !old(det).is_set ==> old(det).pos.valid() && 8 * old(bs).count - old(det).pos.bit_index() >= 16,
    ensures
        patch_outcome(*old(bs), *final(bs), *old(det), *final(det), v, r, det_bits_u16_le(v)),
{
    if !det.is_set {
        let cur = acn_bit_stream_get_pos(bs);
        acn_bit_stream_set_pos(bs, det.pos);
        acn_enc_int_positive_integer_const_size_little_endian_16(bs, v);
        acn_bit_stream_set_pos(bs, cur);
        det.value = v;
        det.is_set = true;
        (true, None)
    } else if det.value != v {
        (false, Some(ErrorCode::AcnDetConsistencyMismatch))
    } else {
        (true, None)
    }
}

/// The bits of a determinant written as a 32-bit little-endian unsigned field.
pub open spec fn det_bits_u32_le(v: u64) -> Seq<bool> {
    le_bits(v as nat, 4)
}

/// Reserve a 32-bit determinant at the cursor: remember the position,
/// mark the determinant unset and write zeros in its place.
pub fn acn_init_det_u32_le(bs: &mut BitStream, det: &mut AcnInsertedFieldRef)
    requires
        old(bs).wf(),
        old(bs).remaining() >= 32,
    ensures
        final(det).reserved_at(*old(det), *old(bs)),
        final(bs).wrote(*old(bs), det_bits_u32_le(0)),
{
    det.pos = acn_bit_stream_get_pos(bs);
    det.is_set = false;
    det.value = 0;
    acn_enc_int_positive_integer_const_size_little_endian_32(bs, 0);
}

/// Write `v` into the 32-bit determinant reserved by `acn_init_det_u32_le`,
/// the first time; afterwards only check that `v` is the value written.
pub fn acn_patch_det_u32_le(v: Asn1SccUint, bs: &mut BitStream, det: &mut AcnInsertedFieldRef) -> (r: (
    bool,
    Option<ErrorCode>,
))
    requires
        old(bs).wf(),
        !old(det).is_set ==> old(det).pos.valid() && 8 * old(bs).count - old(det).pos.bit_index() >= 32,
    ensures
        patch_outcome(*old(bs), *final(bs), *old(det), *final(det), v, r, det_bits_u32_le(v)),
{
    if !det.is_set {
        let cur = acn_bit_stream_get_pos(bs);
        acn_bit_stream_set_pos(bs, det.pos);
        acn_enc_int_positive_integer_const_size_little_endian_32(bs, v);
        acn_bit_stream_set_pos(bs, cur);
        det.value = v;
        det.is_set = true;
        (true, None)
    } else if det.value != v {
        (false, Some(ErrorCode::AcnDetConsistencyMismatch))
    } else {
        (true, None)
    }
}

/// The bits of a determinant written as a 64-bit little-endian unsigned field.
pub open spec fn det_bits_u64_le(v: u64) -> Seq<bool> {
    le_bits(v as nat, 8)
}

/// Reserve a 64-bit determinant at the cursor: remember the position,
/// mark the determinant unset and write zeros in its place.
pub fn acn_init_det_u64_le(bs: &mut BitStream, det: &mut AcnInsertedFieldRef)
    requires
        old(bs).wf(),
        old(bs).remaining() >= 64,
    ensures
        final(det).reserved_at(*old(det), *old(bs)),
        final(bs).wrote(*old(bs), det_bits_u64_le(0)),
{
    det.pos = acn_bit_stream_get_pos(bs);
    det.is_set = false;
    det.value = 0;
    acn_enc_int_positive_integer_const_size_little_endian_64(bs, 0);
}

/// Write `v` into the 64-bit determinant reserved by `acn_init_det_u64_le`,
/// the first time; afterwards only check that `v` is the value written.
pub fn acn_patch_det_u64_le(v: Asn1SccUint, bs: &mut BitStream, det: &mut AcnInsertedFieldRef) -> (r: (
    bool,
    Option<ErrorCode>,
))
    requires
        old(bs).wf(),
        !old(det).is_set ==> old(det).pos.valid() && 8 * old(bs).count - old(det).pos.bit_index() >= 64,
    ensures
        patch_outcome(*old(bs), *final(bs), *old(det), *final(det), v, r, det_bits_u64_le(v)),
{
    if !det.is_set {
        let cur = acn_bit_stream_get_pos(bs);
        acn_bit_stream_set_pos(bs, det.pos);
        acn_enc_int_positive_integer_const_size_little_endian_64(bs, v);
        acn_bit_stream_set_pos(bs, cur);
        det.value = v;
        det.is_set = true;
        (true, None)
    } else if det.value != v {
        (false, Some(ErrorCode::AcnDetConsistencyMismatch))
    } else {
        (true, None)
    }
}

/// The bits of a determinant written as an 8-bit two's complement field.
pub open spec fn det_bits_i8(v: u64) -> Seq<bool> {
    nat_bits(v as nat, 8)
}

/// Reserve a 8-bit determinant at the cursor: remember the position,
/// mark the determinant unset and write zeros in its place.
pub fn acn_init_det_i8(bs: &mut BitStream, det: &mut AcnInsertedFieldRef)
    requires
        old(bs).wf(),
        old(bs).remaining() >= 8,
    ensures
        final(det).reserved_at(*old(det), *old(bs)),
        final(bs).wrote(*old(bs), det_bits_i8(0)),
{
    det.pos = acn_bit_stream_get_pos(bs);
    det.is_set = false;
    det.value = 0;
    acn_enc_int_twos_complement_const_size_8(bs, 0);
}

/// Write `v` into the 8-bit determinant reserved by `acn_init_det_i8`,
/// the first time; afterwards only check that `v` is the value written.
pub fn acn_patch_det_i8(v: Asn1SccUint, bs: &mut BitStream, det: &mut AcnInsertedFieldRef) -> (r: (
    bool,
    Option<ErrorCode>,
))
    requires
        old(bs).wf(),
        !old(det).is_set ==> old(det).pos.valid() && 8 * old(bs).count - old(det).pos.bit_index() >= 8,
    ensures
        patch_outcome(*old(bs), *final(bs), *old(det), *final(det), v, r, det_bits_i8(v)),
{
    if !det.is_set {
        let cur = acn_bit_stream_get_pos(bs);
        acn_bit_stream_set_pos(bs, det.pos);
        acn_enc_int_twos_complement_const_size_8(bs, u64_as_i64(v));
        acn_bit_stream_set_pos(bs, cur);
        det.value = v;
        det.is_set = true;
        (true, None)
    } else if det.value != v {
        (false, Some(ErrorCode::AcnDetConsistencyMismatch))
    } else {
        (true, None)
    }
}

/// The bits of a determinant written as a 16-bit big-endian two's complement field.
pub open spec fn det_bits_i16_be(v: u64) -> Seq<bool> {
    nat_bits(v as nat, 16)
}

/// Reserve a 16-bit determinant at the cursor: remember the position,
/// mark the determinant unset and write zeros in its place.
pub fn acn_init_det_i16_be(bs: &mut BitStream, det: &mut AcnInsertedFieldRef)
    requires
        old(bs).wf(),
        old(bs).remaining() >= 16,
    ensures
        final(det).reserved_at(*old(det), *old(bs)),
        final(bs).wrote(*old(bs), det_bits_i16_be(0)),
{
    det.pos = acn_bit_stream_get_pos(bs);
    det.is_set = false;
    det.value = 0;
    acn_enc_int_twos_complement_const_size_big_endian_16(bs, 0);
}

/// Write `v` into the 16-bit determinant reserved by `acn_init_det_i16_be`,
/// the first time; afterwards only check that `v` is the value written.
pub fn acn_patch_det_i16_be(v: Asn1SccUint, bs: &mut BitStream, det: &mut AcnInsertedFieldRef) -> (r: (
    bool,
    Option<ErrorCode>,
))
    requires
        old(bs).wf(),
        !old(det).is_set ==> old(det).pos.valid() && 8 * old(bs).count - old(det).pos.bit_index() >= 16,
    ensures
        patch_outcome(*old(bs), *final(bs), *old(det), *final(det), v, r, det_bits_i16_be(v)),
{
    if !det.is_set {
        let cur = acn_bit_stream_get_pos(bs);
        acn_bit_stream_set_pos(bs, det.pos);
        acn_enc_int_twos_complement_const_size_big_endian_16(bs, u64_as_i64(v));
        acn_bit_stream_set_pos(bs, cur);
        det.value = v;
        det.is_set = true;
        (true, None)
    } else if det.value != v {
        (false, Some(ErrorCode::AcnDetConsistencyMismatch))
    } else {
        (true, None)
    }
}

/// The bits of a determinant written as a 32-bit big-endian two's complement field.
pub open spec fn det_bits_i32_be(v: u64) -> Seq<bool> {
    nat_bits(v as nat, 32)
}

/// Reserve a 32-bit determinant at the cursor: remember the position,
/// mark the determinant unset and write zeros in its place.
pub fn acn_init_det_i32_be(bs: &mut BitStream, det: &mut AcnInsertedFieldRef)
    requires
        old(bs).wf(),
        old(bs).remaining() >= 32,
    ensures
        final(det).reserved_at(*old(det), *old(bs)),
        final(bs).wrote(*old(bs), det_bits_i32_be(0)),
{
    det.pos = acn_bit_stream_get_pos(bs);
    det.is_set = false;
    det.value = 0;
    acn_enc_int_twos_complement_const_size_big_endian_32(bs, 0);
}

/// Write `v` into the 32-bit determinant reserved by `acn_init_det_i32_be`,
/// the first time; afterwards only check that `v` is the value written.
pub fn acn_patch_det_i32_be(v: Asn1SccUint, bs: &mut BitStream, det: &mut AcnInsertedFieldRef) -> (r: (
    bool,
    Option<ErrorCode>,
))
    requires
        old(bs).wf(),
        !old(det).is_set ==> old(det).pos.valid() && 8 * old(bs).count - old(det).pos.bit_index() >= 32,
    ensures
        patch_outcome(*old(bs), *final(bs), *old(det), *final(det), v, r, det_bits_i32_be(v)),
{
    if !det.is_set {
        let cur = acn_bit_stream_get_pos(bs);
        acn_bit_stream_set_pos(bs, det.pos);
        acn_enc_int_twos_complement_const_size_big_endian_32(bs, u64_as_i64(v));
        acn_bit_stream_set_pos(bs, cur);
        det.value = v;
        det.is_set = true;
        (true, None)
    } else if det.value != v {
        (false, Some(ErrorCode::AcnDetConsistencyMismatch))
    } else {
        (true, None)
    }
}

/// The bits of a determinant written as a 64-bit big-endian two's complement field.
pub open spec fn det_bits_i64_be(v: u64) -> Seq<bool> {
    nat_bits(v as nat, 64)
}

/// Reserve a 64-bit determinant at the cursor: remember the position,
/// mark the determinant unset and write zeros in its place.
pub fn acn_init_det_i64_be(bs: &mut BitStream, det: &mut AcnInsertedFieldRef)
    requires
        old(bs).wf(),
        old(bs).remaining() >= 64,
    ensures
        final(det).reserved_at(*old(det), *old(bs)),
        final(bs).wrote(*old(bs), det_bits_i64_be(0)),
{
    det.pos = acn_bit_stream_get_pos(bs);
    det.is_set = false;
    det.value = 0;
    acn_enc_int_twos_complement_const_size_big_endian_64(bs, 0);
}

/// Write `v` into the 64-bit determinant reserved by `acn_init_det_i64_be`,
/// the first time; afterwards only check that `v` is the value written.
pub fn acn_patch_det_i64_be(v: Asn1SccUint, bs: &mut BitStream, det: &mut AcnInsertedFieldRef) -> (r: (
    bool,
    Option<ErrorCode>,
))
    requires
        old(bs).wf(),
        !old(det).is_set ==> old(det).pos.valid() && 8 * old(bs).count - old(det).pos.bit_index() >= 64,
    ensures
        patch_outcome(*old(bs), *final(bs), *old(det), *final(det), v, r, det_bits_i64_be(v)),
{
    if !det.is_set {
        let cur = acn_bit_stream_get_pos(bs);
        acn_bit_stream_set_pos(bs, det.pos);
        acn_enc_int_twos_complement_const_size_big_endian_64(bs, u64_as_i64(v));
        acn_bit_stream_set_pos(bs, cur);
        det.value = v;
        det.is_set = true;
        (true, None)
    } else if det.value != v {
        (false, Some(ErrorCode::AcnDetConsistencyMismatch))
    } else {
        (true, None)
    }
}

// ─── One-bit determinants ─────────────────────────────────────────────

/// Write one bit, set when `v` is not 0.
fn acn_enc_bool_1bit(bs: &mut BitStream, v: Asn1SccUint)
    requires
        old(bs).wf(),
        old(bs).remaining() >= 1,
    ensures
        final(bs).wrote(*old(bs), seq![v != 0]),
{
    bs.append_bit(v != 0);
}

/// Reserve a one-bit determinant at the cursor.
pub fn acn_init_det_bool1(bs: &mut BitStream, det: &mut AcnInsertedFieldRef)
    requires
        old(bs).wf(),
        old(bs).remaining() >= 1,
    ensures
        final(det).reserved_at(*old(det), *old(bs)),
        final(bs).wrote(*old(bs), seq![false]),
{
    det.pos = acn_bit_stream_get_pos(bs);
    det.is_set = false;
    det.value = 0;
    acn_enc_bool_1bit(bs, 0);
}

/// Write `v` (as one bit, set when `v` is not 0) into the determinant
/// reserved by `acn_init_det_bool1`, the first time; afterwards only check
/// that `v` is the value written.
pub fn acn_patch_det_bool1(v: Asn1SccUint, bs: &mut BitStream, det: &mut AcnInsertedFieldRef) -> (r: (
    bool,
    Option<ErrorCode>,
))
    requires
        old(bs).wf(),
        !old(det).is_set ==> old(det).pos.valid() && 8 * old(bs).count - old(det).pos.bit_index() >= 1,
    ensures
        patch_outcome(*old(bs), *final(bs), *old(det), *final(det), v, r, seq![v != 0]),
{
    if !det.is_set {
        let cur = acn_bit_stream_get_pos(bs);
        acn_bit_stream_set_pos(bs, det.pos);
        acn_enc_bool_1bit(bs, v);
        acn_bit_stream_set_pos(bs, cur);
        det.value = v;
        det.is_set = true;
        (true, None)
    } else if det.value != v {
        (false, Some(ErrorCode::AcnDetConsistencyMismatch))
    } else {
        (true, None)
    }
}

// ─── Determinants of any width ────────────────────────────────────────

/// Write the `n` low bits of `v` one bit at a time, most significant first
/// (nothing when `n` is not positive).
fn write_low_bits(bs: &mut BitStream, v: u64, n: i32)
    requires
        old(bs).wf(),
        n <= 64,
        old(bs).remaining() >= nonneg(n as int),
    ensures
        final(bs).wrote(*old(bs), nat_bits(v as nat, nonneg(n as int))),
{
    let ghost s0 = *bs;
    let ghost nn = nonneg(n as int);
    let mut i: i32 = 0;
    proof {
        lemma_wrote_nothing(s0, *bs);
        lemma_nat_bits_len((v as nat) / pow2(nn), 0);
        assert(nat_bits((v as nat) / pow2(nn), 0) =~= Seq::<bool>::empty());
    }
    while i < n
        invariant
            0 <= i,
            n > 0 ==> i <= n,
            n <= 0 ==> i == 0,
            n <= 64,
            nn == nonneg(n as int),
            s0 == *old(bs),
            s0.wf(),
            s0.remaining() >= nn,
            bs.wrote(s0, nat_bits((v as nat) / pow2((nn - i) as nat), i as nat)),
        decreases n - i,
    {
        let ghost s1 = *bs;
        let sh: u64 = (n - 1 - i) as u64;
        let bit = ((v >> sh) & 1) != 0;
        proof {
            let k = (n - 1 - i) as nat;
            vstd::bits::lemma_u64_shr_is_div(v, sh);
            let x = v >> sh;
            assert(((x & 1) != 0) == (x % 2 == 1)) by (bit_vector);
            lemma_nat_bits_step(v as nat, k, i as nat);
            assert(k + 1 == (nn - i) as nat);
            lemma_nat_bits_len((v as nat) / pow2((nn - i) as nat), i as nat);
        }
        bs.append_bit(bit);
        proof {
            let pre = nat_bits((v as nat) / pow2((nn - i) as nat), i as nat);
            lemma_wrote_concat(s0, s1, *bs, pre, seq![bit]);
            assert(pre + seq![bit] =~= pre.push(bit));
            assert((nn - (i + 1)) as nat == (n - 1 - i) as nat);
        }
        i = i + 1;
    }
    proof {
        lemma2_to64();
        vstd::arithmetic::div_mod::lemma_div_basics(v as int);
    }
}

/// Reserve an `n_bits`-bit unsigned determinant at the cursor.
pub fn acn_init_det_const_size(bs: &mut BitStream, n_bits: i32, det: &mut AcnInsertedFieldRef)
    requires
        old(bs).wf(),
        0 <= n_bits,
        old(bs).remaining() >= n_bits,
    ensures
        final(det).reserved_at(*old(det), *old(bs)),
        final(bs).wrote(*old(bs), nat_bits(0, n_bits as nat)),
{
    det.pos = acn_bit_stream_get_pos(bs);
    det.is_set = false;
    det.value = 0;
    acn_enc_int_positive_integer_const_size(bs, 0, n_bits);
}

/// Write the `n_bits` low bits of `v` into the determinant reserved by
/// `acn_init_det_const_size`, the first time; afterwards only check that
/// `v` is the value written.
pub fn acn_patch_det_const_size(v: Asn1SccUint, bs: &mut BitStream, n_bits: i32, det: &mut AcnInsertedFieldRef) -> (r: (
    bool,
    Option<ErrorCode>,
))
    requires
        old(bs).wf(),
        !old(det).is_set ==> old(det).pos.valid() && n_bits <= 64 && 8 * old(bs).count
            - old(det).pos.bit_index() >= nonneg(n_bits as int),
    ensures
        patch_outcome(*old(bs), *final(bs), *old(det), *final(det), v, r, nat_bits(v as nat, nonneg(n_bits as int))),
{
    if !det.is_set {
        let cur = acn_bit_stream_get_pos(bs);
        acn_bit_stream_set_pos(bs, det.pos);
        write_low_bits(bs, v, n_bits);
        acn_bit_stream_set_pos(bs, cur);
        det.value = v;
        det.is_set = true;
        (true, None)
    } else if det.value != v {
        (false, Some(ErrorCode::AcnDetConsistencyMismatch))
    } else {
        (true, None)
    }
}

/// Reserve an `n_bits`-bit two's complement determinant at the cursor.
pub fn acn_init_det_twos_complement_const_size(bs: &mut BitStream, n_bits: i32, det: &mut AcnInsertedFieldRef)
    requires
        old(bs).wf(),
        0 <= n_bits,
        old(bs).remaining() >= n_bits,
    ensures
        final(det).reserved_at(*old(det), *old(bs)),
        final(bs).wrote(*old(bs), nat_bits(0, n_bits as nat)),
{
    det.pos = acn_bit_stream_get_pos(bs);
    det.is_set = false;
    det.value = 0;
    acn_enc_int_twos_complement_const_size(bs, 0, n_bits);
    proof {
        lemma_pow2_pos(n_bits as nat);
        vstd::arithmetic::div_mod::lemma_small_mod(0, pow2(n_bits as nat));
    }
}

/// Write the `n_bits` low bits of `v` (the two's complement pattern of a
/// signed value) into the determinant reserved by
/// `acn_init_det_twos_complement_const_size`, the first time; afterwards
/// only check that `v` is the value written.
pub fn acn_patch_det_twos_complement_const_size(
    v: Asn1SccUint,
    bs: &mut BitStream,
    n_bits: i32,
    det: &mut AcnInsertedFieldRef,
) -> (r: (bool, Option<ErrorCode>))
    requires
        old(bs).wf(),
        !old(det).is_set ==> old(det).pos.valid() && n_bits <= 64 && 8 * old(bs).count
            - old(det).pos.bit_index() >= nonneg(n_bits as int),
    ensures
        patch_outcome(*old(bs), *final(bs), *old(det), *final(det), v, r, nat_bits(v as nat, nonneg(n_bits as int))),
{
    if !det.is_set {
        let cur = acn_bit_stream_get_pos(bs);
        acn_bit_stream_set_pos(bs, det.pos);
        write_low_bits(bs, v, n_bits);
        acn_bit_stream_set_pos(bs, cur);
        det.value = v;
        det.is_set = true;
        (true, None)
    } else if det.value != v {
        (false, Some(ErrorCode::AcnDetConsistencyMismatch))
    } else {
        (true, None)
    }
}

// ─── IA5String determinants ───────────────────────────────────────────

/// Character `i` of a fixed-size IA5 determinant holding the string `s`
/// (whose length is `l`): a character of the string, or a space after it.
pub open spec fn ia5_padded_char(s: Seq<u8>, l: int, i: int) -> u8 {
    if i < l {
        s[i]
    } else {
        32u8
    }
}

/// The bits of a fixed-size IA5 determinant of `n` characters holding the
/// string in `s`: each character in 7 bits, spaces after the string.
pub open spec fn ia5_fix_bits(s: Seq<u8>, n: int) -> Seq<bool>
    decreases n,
{
    if n <= 0 {
        Seq::empty()
    } else {
        ia5_fix_bits(s, n - 1) + nat_bits(
            ia5_padded_char(s, cstr_len(s, s.len() as int) as int, n - 1) as nat,
            7,
        )
    }
}

/// The fixed-size IA5 field holds seven bits per character.
pub proof fn lemma_ia5_fix_bits_len(s: Seq<u8>, n: int)
    ensures
        ia5_fix_bits(s, n).len() == 7 * nonneg(n),
    decreases n,
{
    if n > 0 {
        lemma_ia5_fix_bits_len(s, n - 1);
        lemma_nat_bits_len(ia5_padded_char(s, cstr_len(s, s.len() as int) as int, n - 1) as nat, 7);
    }
}

/// The string buffer of a determinant after its first patch with the
/// string `s`: its first `c` characters, then a NUL byte.
pub open spec fn stored_string(old: Seq<u8>, s: Seq<u8>, c: int) -> Seq<u8> {
    Seq::new(old.len(), |j: int| if j < c { s[j] } else if j == c { 0u8 } else { old[j] })
}

/// What patching the string determinant `old_det` of `n` characters with
/// the string in `s` does: the first patch writes the characters at the
/// reserved position and records the string (its first 255 bytes); later
/// ones change nothing and fail when the string (cut to `n` characters)
/// differs from the recorded one.
pub open spec fn ia5_patch_outcome(
    old_bs: BitStream,
    new_bs: BitStream,
    old_det: AcnInsertedFieldRef,
    new_det: AcnInsertedFieldRef,
    s: Seq<u8>,
    n: int,
    r: (bool, Option<ErrorCode>),
) -> bool {
    let slen = cstr_len(s, s.len() as int) as int;
    if !old_det.is_set {
        let c = if slen < 255 { slen } else { 255 };
        &&& r == (true, Option::<ErrorCode>::None)
        &&& new_det.pos == old_det.pos
        &&& new_det.is_set
        &&& new_det.value == old_det.value
        &&& new_det.str_value_len == c
        &&& new_det.str_value@ == stored_string(old_det.str_value@, s, c)
        &&& patched(old_bs, new_bs, old_det.pos, ia5_fix_bits(s, n))
    } else {
        let l2 = if 0 <= n < slen { n } else { slen };
        let same = old_det.str_value@.subrange(0, old_det.str_value_len as int) == s.subrange(0, l2);
        &&& r == (if same {
            (true, Option::<ErrorCode>::None)
        } else {
            (false, Some(ErrorCode::AcnDetConsistencyMismatch))
        })
        &&& new_det == old_det
        &&& new_bs == old_bs
    }
}

/// Reserve a determinant of `n_chars` IA5 characters (7 bits each) at the
/// cursor, with an empty recorded string.
pub fn acn_init_det_ia5string_fix_size(bs: &mut BitStream, n_chars: i32, det: &mut AcnInsertedFieldRef)
    requires
        old(bs).wf(),
        old(det).wf(),
        i32::MIN <= 7 * n_chars <= i32::MAX,
        old(bs).remaining() >= nonneg(7 * n_chars),
    ensures
        final(det).wf(),
        final(det).pos.current_byte == old(bs).current_byte,
        final(det).pos.current_bit == old(bs).current_bit,
        !final(det).is_set,
        final(det).value == 0,
        final(det).str_value@ == old(det).str_value@.update(0, 0),
        final(det).str_value_len == 0,
        final(bs).wrote(*old(bs), repeat_bit(false, nonneg(7 * n_chars))),
{
    det.pos = acn_bit_stream_get_pos(bs);
    det.is_set = false;
    det.value = 0;
    det.str_value.set(0, 0);
    det.str_value_len = 0;
    bs.append_n_bit_zero(n_chars * 7);
}

/// The first `n` bytes of `a` and `b` are equal.
fn bytes_eq(a: &Vec<u8>, b: &[u8], n: usize) -> (r: bool)
    requires
        n <= a@.len(),
        n <= b@.len(),
    ensures
        r == (a@.subrange(0, n as int) == b@.subrange(0, n as int)),
{
    let mut i: usize = 0;
    while i < n
        invariant
            i <= n <= a@.len(),
            n <= b@.len(),
            forall|k: int| 0 <= k < i ==> a@[k] == b@[k],
        decreases n - i,
    {
        if a[i] != b[i] {
            proof {
                assert(a@.subrange(0, n as int)[i as int] != b@.subrange(0, n as int)[i as int]);
            }
            return false;
        }
        i = i + 1;
    }
    assert(a@.subrange(0, n as int) =~= b@.subrange(0, n as int));
    true
}

/// Write the string in `str_val` as `n_chars` IA5 characters (spaces after
/// the string) into the determinant reserved by
/// `acn_init_det_ia5string_fix_size`, and record it, the first time;
/// afterwards only check that the string is the one recorded.
pub fn acn_patch_det_ia5string_fix_size(
    str_val: &[u8],
    bs: &mut BitStream,
    n_chars: i32,
    det: &mut AcnInsertedFieldRef,
) -> (r: (bool, Option<ErrorCode>))
    requires
        old(bs).wf(),
        old(det).wf(),
        !old(det).is_set ==> old(det).pos.valid() && 8 * old(bs).count - old(det).pos.bit_index() >= 7
            * nonneg(n_chars as int),
    ensures
        final(det).wf(),
        ia5_patch_outcome(*old(bs), *final(bs), *old(det), *final(det), str_val@, n_chars as int, r),
{
    let ghost s = str_val@;
    if !det.is_set {
        let slen = nul_position(str_val);
        let ghost sl = slen as int;
        proof {
            crate::acn_string::lemma_cstr_len(s, s.len() as int);
        }
        let cur = acn_bit_stream_get_pos(bs);
        acn_bit_stream_set_pos(bs, det.pos);
        let ghost s0 = *bs;
        let mut i: i32 = 0;
        proof {
            lemma_wrote_nothing(s0, *bs);
            assert(ia5_fix_bits(s, 0) =~= Seq::<bool>::empty());
        }
        while i < n_chars
            invariant
                s == str_val@,
                sl == cstr_len(s, s.len() as int),
                slen == sl,
                sl <= s.len(),
                0 <= i,
                n_chars > 0 ==> i <= n_chars,
                n_chars <= 0 ==> i == 0,
                s0.wf(),
                s0.remaining() >= 7 * nonneg(n_chars as int),
                bs.wrote(s0, ia5_fix_bits(s, i as int)),
            decreases n_chars - i,
        {
            let ch: u8 = if (i as usize) < slen { str_val[i as usize] } else { 0x20 };
            let ghost s1 = *bs;
            proof {
                lemma_ia5_fix_bits_len(s, i as int);
                assert(7 * i + 7 <= 7 * n_chars);
            }
            write_low_bits(bs, ch as u64, 7);
            proof {
                assert(ch == ia5_padded_char(s, sl, i as int));
                lemma_nat_bits_len(ch as nat, 7);
                lemma_wrote_concat(s0, s1, *bs, ia5_fix_bits(s, i as int), nat_bits(ch as nat, 7));
            }
            i = i + 1;
        }
        acn_bit_stream_set_pos(bs, cur);
        let copy_len: usize = if slen < 255 { slen } else { 255 };
        let ghost old_str = det.str_value@;
        let mut j: usize = 0;
        while j < copy_len
            invariant
                j <= copy_len <= 255,
                copy_len <= s.len(),
                s == str_val@,
                det.str_value@.len() == 256,
                det.pos == old(det).pos,
                det.value == old(det).value,
                old_str == old(det).str_value@,
                old_str.len() == 256,
                forall|k: int| 0 <= k < j ==> #[trigger] det.str_value@[k] == s[k],
                forall|k: int| j <= k < 256 ==> #[trigger] det.str_value@[k] == old_str[k],
            decreases copy_len - j,
        {
            det.str_value.set(j, str_val[j]);
            j = j + 1;
        }
        det.str_value.set(copy_len, 0);
        det.str_value_len = copy_len;
        det.is_set = true;
        proof {
            assert(det.str_value@ =~= stored_string(old_str, s, copy_len as int));
        }
        (true, None)
    } else {
        let slen = nul_position(str_val);
        let slen2: usize = if 0 <= n_chars && (n_chars as usize) < slen { n_chars as usize } else { slen };
        proof {
            crate::acn_string::lemma_cstr_len(s, s.len() as int);
        }
        let same = det.str_value_len == slen2 && bytes_eq(&det.str_value, str_val, slen2);
        proof {
            if det.str_value_len != slen2 {
                assert(det.str_value@.subrange(0, det.str_value_len as int).len() != s.subrange(
                    0,
                    slen2 as int,
                ).len());
            }
        }
        if !same {
            (false, Some(ErrorCode::AcnDetConsistencyMismatch))
        } else {
            (true, None)
        }
    }
}

} // verus!
