//! BER (ITU-T X.690) encoding and decoding of tags, lengths and the
//! primitive types, over a `ByteStream`.
//!
//! Encoders return `true` when everything fitted in the stream and report
//! `InsufficientData` otherwise.  Decoders are specified by spec functions
//! over the bytes that follow the cursor: each returns either the decoded
//! value with the number of bytes consumed, or the error that the decoder
//! reports.
use vstd::prelude::*;
use vstd::arithmetic::power2::*;
use crate::{Asn1SccSint, Asn1SccUint, BerTag, ErrorCode};
use crate::bytestream::{ByteStream, splice_bytes};
use crate::bits::{bits_value, bytes_to_bits, lemma_byte_prefix_match};
use crate::bitstream::BitStream;
use crate::acn_string::octets_at;
use crate::ber_real::{lemma_real_bits_len, real_bits, spec_dec_real, DecodedReal};
use crate::octets::{
    clear_prefix, fill_prefix,
    be_bytes, be_value, fits_signed_bytes, get_length_in_bytes_of_sint,
    get_length_in_bytes_of_uint, int2uint, lemma_be_bytes_len, lemma_be_bytes_split, lemma_be_bytes_step,
    lemma_be_value_bound, lemma_be_value_prefix, lemma_uint_bytes_bound, sign_extend, sint_bytes,
    uint2int, uint_bytes, wrap_u64,
};

verus! {

broadcast use lemma_be_bytes_len;

// ─── Byte-level helpers ────────────────────────────────────────────────

/// Write one byte at the cursor; fails when the stream is full.
fn byte_stream_put_byte(p_strm: &mut ByteStream, v: u8) -> (r: bool)
    requires
        old(p_strm).wf(),
    ensures
        r == (old(p_strm).room() >= 1),
        r ==> final(p_strm).wrote(*old(p_strm), seq![v]),
        !r ==> *final(p_strm) == *old(p_strm),
{
    if p_strm.current_byte >= p_strm.count {
        return false;
    }
    let len = p_strm.buf.len();
    assert(p_strm.current_byte < len);
    let i = p_strm.current_byte as usize;
    p_strm.buf.set(i, v);
    p_strm.current_byte = p_strm.current_byte + 1;
    assert(p_strm.buf@ =~= splice_bytes(old(p_strm).buf@, i as int, seq![v]));
    true
}

/// Read one byte at the cursor; `None` when the stream is exhausted.
fn byte_stream_get_byte(p_strm: &mut ByteStream) -> (r: Option<u8>)
    requires
        old(p_strm).wf(),
    ensures
        old(p_strm).room() >= 1 ==> r == Some(old(p_strm).avail()[0]) && final(p_strm).same_data(
            *old(p_strm),
        ) && final(p_strm).current_byte == old(p_strm).current_byte + 1,
        old(p_strm).room() < 1 ==> r.is_none() && *final(p_strm) == *old(p_strm),
{
    if p_strm.current_byte >= p_strm.count {
        return None;
    }
    let len = p_strm.buf.len();
    assert(p_strm.current_byte < len);
    let v = p_strm.buf[p_strm.current_byte as usize];
    p_strm.current_byte = p_strm.current_byte + 1;
    Some(v)
}

/// Writing `a` and then `b` is writing `a + b`.
proof fn lemma_wrote_concat(s0: ByteStream, s1: ByteStream, s2: ByteStream, a: Seq<u8>, b: Seq<u8>)
    requires
        s0.wf(),
        s1.wrote(s0, a),
        s2.wrote(s1, b),
        s0.current_byte + a.len() + b.len() <= s0.count,
    ensures
        s2.wrote(s0, a + b),
{
    let c = s0.current_byte as int;
    let m = splice_bytes(s0.buf@, c, a);
    assert(m.len() == s0.buf@.len());
    let lhs = splice_bytes(m, c + a.len(), b);
    let rhs = splice_bytes(s0.buf@, c, a + b);
    assert(lhs.len() == rhs.len());
    assert forall|i: int| 0 <= i < lhs.len() implies lhs[i] == rhs[i] by {
        if i < c {
        } else if i < c + a.len() {
            assert(lhs[i] == m[i]);
        } else if i < c + a.len() + b.len() {
        } else {
            assert(lhs[i] == m[i]);
        }
    }
    assert(lhs =~= rhs);
}

/// A write of `a` followed by a write of `b` that ran out of room is a
/// write of `a + b` that ran out of room.
proof fn lemma_full_after(s0: ByteStream, s1: ByteStream, s2: ByteStream, a: Seq<u8>, b: Seq<u8>)
    requires
        s0.wf(),
        s1.wrote(s0, a),
        s2.wrote_until_full(s1, b),
    ensures
        s2.wrote_until_full(s0, a + b),
{
    assert((a + b).subrange(0, s0.room()) =~= a + b.subrange(0, s1.room()));
    lemma_wrote_concat(s0, s1, s2, a, b.subrange(0, s1.room()));
}

/// A write of `a` that ran out of room is one of `a + b` too.
proof fn lemma_full_extend(s0: ByteStream, s2: ByteStream, a: Seq<u8>, b: Seq<u8>)
    requires
        s2.wrote_until_full(s0, a),
    ensures
        s2.wrote_until_full(s0, a + b),
{
    assert((a + b).subrange(0, s0.room()) =~= a.subrange(0, s0.room()));
}

/// A full stream that writes nothing ran out of room for any bytes.
proof fn lemma_full_now(s0: ByteStream, s: Seq<u8>)
    requires
        s0.wf(),
        s0.room() == 0,
        s.len() > 0,
    ensures
        s0.wrote_until_full(s0, s),
{
    assert(splice_bytes(s0.buf@, s0.current_byte as int, s.subrange(0, 0)) =~= s0.buf@);
}

/// After consuming `n` bytes, the bytes that follow the cursor are the rest.
proof fn lemma_avail_skip(s0: ByteStream, s1: ByteStream, n: int)
    requires
        s0.wf(),
        s1.same_data(s0),
        s1.current_byte == s0.current_byte + n,
        0 <= n <= s0.room(),
    ensures
        s1.avail() == s0.avail().subrange(n, s0.avail().len() as int),
        s1.room() == s0.room() - n,
{
    assert(s1.avail() =~= s0.avail().subrange(n, s0.avail().len() as int));
}

/// Write the first `n` bytes of `value`; fails when the stream lacks room.
fn put_slice(p_strm: &mut ByteStream, value: &[u8], n: usize) -> (r: bool)
    requires
        old(p_strm).wf(),
        n <= value@.len(),
    ensures
        r == (old(p_strm).room() >= n),
        r ==> final(p_strm).wrote(*old(p_strm), value@.subrange(0, n as int)),
        !r ==> final(p_strm).wrote_until_full(*old(p_strm), value@.subrange(0, n as int)),
{
    let ghost s0 = *p_strm;
    let mut i: usize = 0;
    assert(splice_bytes(s0.buf@, s0.current_byte as int, value@.subrange(0, 0)) =~= s0.buf@);
    while i < n
        invariant
            i <= n <= value@.len(),
            s0 == *old(p_strm),
            s0.wf(),
            s0.room() >= i,
            p_strm.wrote(s0, value@.subrange(0, i as int)),
        decreases n - i,
    {
        let ghost mid = *p_strm;
        if !byte_stream_put_byte(p_strm, value[i]) {
            proof {
                lemma_full_now(mid, value@.subrange(i as int, n as int));
                lemma_full_after(s0, mid, mid, value@.subrange(0, i as int), value@.subrange(i as int, n as int));
                assert(value@.subrange(0, i as int) + value@.subrange(i as int, n as int) =~= value@.subrange(0, n as int));
            }
            return false;
        }
        proof {
            lemma_wrote_concat(s0, mid, *p_strm, value@.subrange(0, i as int), seq![value@[i as int]]);
            assert(value@.subrange(0, i as int) + seq![value@[i as int]] =~= value@.subrange(
                0,
                i + 1,
            ));
        }
        i = i + 1;
    }
    true
}

// ─── Specifications ────────────────────────────────────────────────────

/// The bytes of a tag: its minimal big-endian representation.
pub open spec fn ber_tag_bytes(tag: BerTag) -> Seq<u8> {
    be_bytes(tag as nat, uint_bytes(tag as nat))
}

/// The bit that tells constructed from primitive encodings, in the first
/// byte of a tag of `tag_size` bytes.
pub open spec fn primitive_bit(tag_size: nat) -> u64 {
    0x20u64 << (((tag_size - 1) * 8) as u64)
}

/// The bytes of a length determinant: the short form up to 0x7F, else the
/// long form (number of length bytes with the high bit set, then the
/// minimal big-endian length).
pub open spec fn ber_length_bytes(value: i32) -> Seq<u8> {
    if value <= 0x7F {
        seq![value as u8]
    } else {
        seq![(0x80 + uint_bytes(value as nat)) as u8] + be_bytes(value as nat, uint_bytes(value as nat))
    }
}

/// What decoding a tag from `avail` gives: the number of bytes consumed.
/// The primitive/constructed bit is not compared.
pub open spec fn spec_decode_tag(avail: Seq<u8>, tag: BerTag) -> Result<nat, ErrorCode> {
    let ts = uint_bytes(tag as nat);
    let pb = primitive_bit(ts);
    if avail.len() < ts {
        Err(ErrorCode::InsufficientData)
    } else if (tag | pb) != ((be_value(avail.subrange(0, ts as int)) as u64) | pb) {
        Err(ErrorCode::InsufficientData)
    } else {
        Ok(ts)
    }
}

/// What decoding a length determinant from `avail` gives: the length
/// (-1 for the indefinite form) and the number of bytes consumed.
pub open spec fn spec_decode_length(avail: Seq<u8>) -> Result<(int, nat), ErrorCode> {
    if avail.len() < 1 {
        Err(ErrorCode::InsufficientData)
    } else if avail[0] < 0x80 {
        Ok((avail[0] as int, 1))
    } else if avail[0] == 0x80 {
        Ok((-1, 1))
    } else {
        let l = (avail[0] - 0x80) as nat;
        let k = if l <= avail.len() - 1 { l } else { (avail.len() - 1) as nat };
        let v = be_value(avail.subrange(1, (1 + k) as int));
        if v > 0x7FFF_FFFF {
            Err(ErrorCode::BerLengthMismatch)
        } else if k < l {
            Err(ErrorCode::InsufficientData)
        } else {
            Ok((v as int, 1 + l))
        }
    }
}

/// Of the `l` bytes of a long-form length, how many the decoder reads
/// having read `j` without the value passing `i32::MAX`: it stops after the
/// byte that makes the value pass it, or at the end of the data.
pub open spec fn long_length_read(avail: Seq<u8>, l: nat, j: nat) -> nat
    decreases l - j,
{
    if j >= l || 1 + j >= avail.len() {
        j
    } else if be_value(avail.subrange(1, (2 + j) as int)) > 0x7FFF_FFFF {
        j + 1
    } else {
        long_length_read(avail, l, j + 1)
    }
}

/// How many bytes the length decoder reads from `avail`, whether it
/// succeeds or not.
pub open spec fn length_read(avail: Seq<u8>) -> int {
    if avail.len() < 1 {
        0
    } else if avail[0] <= 0x80 {
        1
    } else {
        1 + long_length_read(avail, (avail[0] - 0x80) as nat, 0) as int
    }
}

/// How many bytes reading a tag and then a length takes from `avail`,
/// whether it succeeds or not.
pub open spec fn header_read(avail: Seq<u8>, tag: BerTag) -> int {
    match spec_decode_tag(avail, tag) {
        Err(_) => content_read(avail.len() as int, uint_bytes(tag as nat) as int),
        Ok(n1) => n1 + length_read(avail.subrange(n1 as int, avail.len() as int)),
    }
}

/// How many bytes a decoder takes from `avail` that reads a tag and a
/// length and then, when `reads` holds, a content of that length.
pub open spec fn tlv_read(avail: Seq<u8>, tag: BerTag, reads: spec_fn(int) -> bool) -> int {
    match spec_decode_header(avail, tag) {
        Err(_) => header_read(avail, tag),
        Ok((len, h)) => if reads(len as int) {
            h + content_read(avail.len() - h, len as int)
        } else {
            h as int
        },
    }
}

/// Decoding a tag and then a length: the length, and the bytes consumed by both.
pub open spec fn spec_decode_header(avail: Seq<u8>, tag: BerTag) -> Result<(int, nat), ErrorCode> {
    match spec_decode_tag(avail, tag) {
        Err(e) => Err(e),
        Ok(n1) => match spec_decode_length(avail.subrange(n1 as int, avail.len() as int)) {
            Err(e) => Err(e),
            Ok((len, n2)) => Ok((len, n1 + n2)),
        },
    }
}

/// The bytes of an INTEGER: tag, length, minimal two's complement content.
pub open spec fn ber_integer_bytes(tag: BerTag, value: Asn1SccSint) -> Seq<u8> {
    let l = sint_bytes(value as int);
    ber_tag_bytes(tag) + seq![l as u8] + be_bytes(wrap_u64(value as int), l)
}

/// What decoding an INTEGER from `avail` gives.
pub open spec fn spec_decode_integer(avail: Seq<u8>, tag: BerTag) -> Result<(int, nat), ErrorCode> {
    match spec_decode_header(avail, tag) {
        Err(e) => Err(e),
        Ok((len, h)) => if len < 1 || len > 8 {
            Err(ErrorCode::BerLengthMismatch)
        } else if avail.len() < h + len {
            Err(ErrorCode::InsufficientData)
        } else {
            Ok(
                (
                    sign_extend(be_value(avail.subrange(h as int, h + len)), (8 * len) as nat),
                    (h + len) as nat,
                ),
            )
        },
    }
}

/// The bytes of a BOOLEAN.
pub open spec fn ber_boolean_bytes(tag: BerTag, value: bool) -> Seq<u8> {
    ber_tag_bytes(tag) + seq![1u8, if value { 0xFFu8 } else { 0x00u8 }]
}

/// What decoding a BOOLEAN from `avail` gives: any non-zero content byte is true.
pub open spec fn spec_decode_boolean(avail: Seq<u8>, tag: BerTag) -> Result<(bool, nat), ErrorCode> {
    match spec_decode_header(avail, tag) {
        Err(e) => Err(e),
        Ok((len, h)) => if len != 1 {
            Err(ErrorCode::BerLengthMismatch)
        } else if avail.len() < h + 1 {
            Err(ErrorCode::InsufficientData)
        } else {
            Ok((avail[h as int] != 0, h + 1))
        },
    }
}

/// The bytes of NULL.
pub open spec fn ber_null_bytes(tag: BerTag) -> Seq<u8> {
    ber_tag_bytes(tag) + seq![0u8]
}

/// What decoding NULL from `avail` gives: the bytes consumed.
pub open spec fn spec_decode_null(avail: Seq<u8>, tag: BerTag) -> Result<nat, ErrorCode> {
    match spec_decode_header(avail, tag) {
        Err(e) => Err(e),
        Ok((len, h)) => if len != 0 {
            Err(ErrorCode::BerLengthMismatch)
        } else {
            Ok(h)
        },
    }
}

/// The bytes of an IA5String or an OCTET STRING of `length` bytes.
pub open spec fn ber_string_bytes(tag: BerTag, value: Seq<u8>, length: i32) -> Seq<u8> {
    ber_tag_bytes(tag) + ber_length_bytes(length) + value.subrange(0, length as int)
}

/// Number of content bytes of a BIT STRING of `bit_count` bits.
pub open spec fn bit_string_content_len(bit_count: int) -> int {
    if bit_count % 8 != 0 {
        bit_count / 8 + 1
    } else {
        bit_count / 8
    }
}

/// The bytes of a BIT STRING: tag, length, number of unused bits in the
/// last byte, content bytes.
pub open spec fn ber_bit_string_bytes(tag: BerTag, value: Seq<u8>, bit_count: i32) -> Seq<u8> {
    let length = bit_string_content_len(bit_count as int);
    ber_tag_bytes(tag) + ber_length_bytes((length + 1) as i32) + seq![
        ((8 - bit_count % 8) % 8) as u8,
    ] + value.subrange(0, length)
}

// ─── Internal unsigned-integer encoders ───────────────────────────────

/// Write the `int_size` low bytes of `value`, most significant first.
fn ber_encode_uint2(
    p_strm: &mut ByteStream,
    value: Asn1SccUint,
    int_size: i32,
    p_err_code: &mut ErrorCode,
) -> (r: bool)
    requires
        old(p_strm).wf(),
        0 <= int_size <= 8,
    ensures
        r == (old(p_strm).room() >= int_size),
        r ==> final(p_strm).wrote(*old(p_strm), be_bytes(value as nat, int_size as nat)),
        r ==> *final(p_err_code) == *old(p_err_code),
        !r ==> final(p_strm).wrote_until_full(*old(p_strm), be_bytes(value as nat, int_size as nat))
            && *final(p_err_code) == ErrorCode::InsufficientData,
{
    let ghost s0 = *p_strm;
    let mut i: i32 = int_size;
    proof {
        lemma_pow2_pos(8 * int_size as nat);
        assert(be_bytes(value as nat / pow2(8 * int_size as nat), 0) =~= Seq::<u8>::empty());
        assert(splice_bytes(s0.buf@, s0.current_byte as int, Seq::<u8>::empty()) =~= s0.buf@);
    }
    while i > 0
        invariant
            0 <= i <= int_size <= 8,
            s0 == *old(p_strm),
            s0.wf(),
            s0.room() >= int_size - i,
            p_strm.wrote(s0, be_bytes(value as nat / pow2(8 * i as nat), (int_size - i) as nat)),
            *p_err_code == *old(p_err_code),
        decreases i,
    {
        let k = i - 1;
        let sh: u64 = (k as u64) * 8;
        let cur_byte = ((value >> sh) & 0xFFu64) as u8;
        proof {
            vstd::bits::lemma_u64_shr_is_div(value, sh);
            let x = value >> sh;
            assert((x & 0xFFu64) == x % 256) by (bit_vector);
            lemma_be_bytes_step(value as nat, k as nat, (int_size - i) as nat);
            lemma_pow2_pos(8 * i as nat);
            lemma_be_bytes_len(value as nat / pow2(8 * i as nat), (int_size - i) as nat);
            assert(8 * k as nat + 8 == 8 * i as nat);
        }
        let ghost mid = *p_strm;
        if !byte_stream_put_byte(p_strm, cur_byte) {
            proof {
                let w = be_bytes(value as nat / pow2(8 * i as nat), (int_size - i) as nat);
                let full = be_bytes(value as nat, int_size as nat);
                lemma_be_bytes_split(value as nat, (int_size - i) as nat, i as nat);
                let low = be_bytes(value as nat, i as nat);
                lemma_be_bytes_len(value as nat, i as nat);
                lemma_full_now(mid, low);
                lemma_full_after(s0, mid, mid, w, low);
            }
            *p_err_code = ErrorCode::InsufficientData;
            return false;
        }
        proof {
            let w = be_bytes(value as nat / pow2(8 * i as nat), (int_size - i) as nat);
            lemma_wrote_concat(s0, mid, *p_strm, w, seq![cur_byte]);
            assert(w + seq![cur_byte] =~= w.push(cur_byte));
        }
        i = k;
    }
    proof {
        lemma2_to64();
        assert(value as nat / pow2(0) == value as nat);
    }
    true
}

/// Write `value` in its minimal number of big-endian bytes (one zero byte for zero).
fn ber_encode_uint(p_strm: &mut ByteStream, value: Asn1SccUint, p_err_code: &mut ErrorCode) -> (r:
    bool)
    requires
        old(p_strm).wf(),
    ensures
        r == (old(p_strm).room() >= uint_bytes(value as nat)),
        r ==> final(p_strm).wrote(
            *old(p_strm),
            be_bytes(value as nat, uint_bytes(value as nat)),
        ),
        r ==> *final(p_err_code) == *old(p_err_code),
        !r ==> final(p_strm).wrote_until_full(*old(p_strm), be_bytes(value as nat, uint_bytes(value as nat)))
            && *final(p_err_code) == ErrorCode::InsufficientData,
{
    let n = get_length_in_bytes_of_uint(value);
    ber_encode_uint2(p_strm, value, n, p_err_code)
}

/// Write a length determinant.
fn ber_encode_length(p_strm: &mut ByteStream, value: i32, p_err_code: &mut ErrorCode) -> (r: bool)
    requires
        old(p_strm).wf(),
    ensures
        r == (old(p_strm).room() >= ber_length_bytes(value).len()),
        r ==> final(p_strm).wrote(*old(p_strm), ber_length_bytes(value)),
        r ==> *final(p_err_code) == *old(p_err_code),
        !r ==> final(p_strm).wrote_until_full(*old(p_strm), ber_length_bytes(value))
            && *final(p_err_code) == ErrorCode::InsufficientData,
{
    if value <= 0x7F {
        let ghost s = *p_strm;
        if !byte_stream_put_byte(p_strm, value as u8) {
            proof {
                lemma_full_now(s, ber_length_bytes(value));
            }
            *p_err_code = ErrorCode::InsufficientData;
            return false;
        }
        return true;
    }
    let uv = value as Asn1SccUint;
    let len_len = get_length_in_bytes_of_uint(uv);
    proof {
        lemma_uint_bytes_bound(value as nat);
    }
    let ghost s0 = *p_strm;
    let first: u8 = (len_len as u8) | 0x80u8;
    assert(first == (0x80 + len_len) as u8) by (bit_vector)
        requires
            first == (len_len as u8) | 0x80u8,
            1 <= len_len <= 4,
    ;
    if !byte_stream_put_byte(p_strm, first) {
        proof {
            lemma_full_now(s0, ber_length_bytes(value));
        }
        *p_err_code = ErrorCode::InsufficientData;
        return false;
    }
    let ghost s1 = *p_strm;
    let ok = ber_encode_uint(p_strm, uv, p_err_code);
    proof {
        if ok {
            lemma_wrote_concat(s0, s1, *p_strm, seq![first], be_bytes(uv as nat, len_len as nat));
        } else {
            lemma_full_after(s0, s1, *p_strm, seq![first], be_bytes(uv as nat, len_len as nat));
        }
    }
    ok
}

// ─── Tag handling ──────────────────────────────────────────────────────

/// Write a tag as its minimal big-endian representation.
pub fn ber_encode_tag(p_strm: &mut ByteStream, tag: BerTag, p_err_code: &mut ErrorCode) -> (r: bool)
    requires
        old(p_strm).wf(),
    ensures
        r == (old(p_strm).room() >= ber_tag_bytes(tag).len()),
        r ==> final(p_strm).wrote(*old(p_strm), ber_tag_bytes(tag)),
        r ==> *final(p_err_code) == *old(p_err_code),
        !r ==> final(p_strm).wrote_until_full(*old(p_strm), ber_tag_bytes(tag))
            && *final(p_err_code) == ErrorCode::InsufficientData,
{
    ber_encode_uint(p_strm, tag, p_err_code)
}

/// Read and check a tag, ignoring the constructed/primitive bit.
pub fn ber_decode_tag(p_strm: &mut ByteStream, tag: BerTag, p_err_code: &mut ErrorCode) -> (r: bool)
    requires
        old(p_strm).wf(),
    ensures
        final(p_strm).same_data(*old(p_strm)),
        (match spec_decode_tag(old(p_strm).avail(), tag) {
            Ok(n) => r && final(p_strm).current_byte == old(p_strm).current_byte + n
                && *final(p_err_code) == *old(p_err_code),
            Err(e) => !r && *final(p_err_code) == e,
        }),
        final(p_strm).current_byte == old(p_strm).current_byte + content_read(
            old(p_strm).room(),
            uint_bytes(tag as nat) as int,
        ),
{
    let ghost s0 = *p_strm;
    let tag_size = get_length_in_bytes_of_uint(tag);
    proof {
        lemma_uint_bytes_bound(tag as nat);
    }
    let primitive_bit: BerTag = 0x20u64 << (((tag_size - 1) * 8) as u64);
    let mut read_value: BerTag = 0;
    let mut i: i32 = 0;
    assert(s0.avail().subrange(0, 0) =~= Seq::<u8>::empty());
    while i < tag_size
        invariant
            0 <= i <= tag_size <= 8,
            tag_size == uint_bytes(tag as nat),
            s0 == *old(p_strm),
            s0.wf(),
            s0.room() >= i,
            p_strm.same_data(s0),
            p_strm.current_byte == s0.current_byte + i,
            read_value as nat == be_value(s0.avail().subrange(0, i as int)),
            *p_err_code == *old(p_err_code),
        decreases tag_size - i,
    {
        let ghost before = *p_strm;
        proof {
            lemma_avail_skip(s0, before, i as int);
        }
        let cur_byte = match byte_stream_get_byte(p_strm) {
            Some(b) => b,
            None => {
                *p_err_code = ErrorCode::InsufficientData;
                return false;
            },
        };
        proof {
            lemma_be_value_bound(s0.avail().subrange(0, i as int));
            lemma2_to64();
            lemma2_to64_rest();
            if i < 7 {
                lemma_pow2_strictly_increases(8 * i as nat, 56);
            }
            assert(s0.avail().subrange(0, i + 1).drop_last() =~= s0.avail().subrange(0, i as int));
        }
        assert(read_value < 0x100_0000_0000_0000u64 ==> ((read_value << 8u64) | (cur_byte as u64))
            == 256 * read_value + cur_byte) by (bit_vector);
        read_value = (read_value << 8u64) | (cur_byte as u64);
        i = i + 1;
    }
    if (tag | primitive_bit) != (read_value | primitive_bit) {
        *p_err_code = ErrorCode::InsufficientData;
        return false;
    }
    true
}

/// Whether the bytes at the cursor hold `tag`; the stream is left unchanged.
pub fn next_tag_matches(p_strm: &mut ByteStream, tag: BerTag) -> (r: bool)
    requires
        old(p_strm).wf(),
    ensures
        final(p_strm).same_data(*old(p_strm)),
        final(p_strm).current_byte == old(p_strm).current_byte,
        r == spec_decode_tag(old(p_strm).avail(), tag) is Ok,
{
    let saved_byte = p_strm.current_byte;
    let mut err = ErrorCode::InsufficientData;
    let ret = ber_decode_tag(p_strm, tag, &mut err);
    p_strm.current_byte = saved_byte;
    proof {
        assert(p_strm.buf@ == old(p_strm).buf@);
    }
    ret
}

// ─── Length handling ───────────────────────────────────────────────────

/// Write the indefinite-length marker 0x80.
pub fn ber_encode_length_start(p_strm: &mut ByteStream, p_err_code: &mut ErrorCode) -> (r: bool)
    requires
        old(p_strm).wf(),
    ensures
        r == (old(p_strm).room() >= 1),
        r ==> final(p_strm).wrote(*old(p_strm), seq![0x80u8]),
        r ==> *final(p_err_code) == *old(p_err_code),
        !r ==> *final(p_strm) == *old(p_strm) && *final(p_err_code) == ErrorCode::InsufficientData,
{
    if !byte_stream_put_byte(p_strm, 0x80) {
        *p_err_code = ErrorCode::InsufficientData;
        return false;
    }
    true
}

/// Write the end-of-contents marker 0x00 0x00.
pub fn ber_encode_length_end(p_strm: &mut ByteStream, p_err_code: &mut ErrorCode) -> (r: bool)
    requires
        old(p_strm).wf(),
    ensures
        r == (old(p_strm).room() >= 2),
        r ==> final(p_strm).wrote(*old(p_strm), seq![0u8, 0u8]),
        r ==> *final(p_err_code) == *old(p_err_code),
        !r ==> final(p_strm).wrote_until_full(*old(p_strm), seq![0u8, 0u8])
            && *final(p_err_code) == ErrorCode::InsufficientData,
{
    let ghost s0 = *p_strm;
    if !byte_stream_put_byte(p_strm, 0x00) {
        proof {
            lemma_full_now(s0, seq![0u8, 0u8]);
        }
        *p_err_code = ErrorCode::InsufficientData;
        return false;
    }
    let ghost s1 = *p_strm;
    if !byte_stream_put_byte(p_strm, 0x00) {
        proof {
            lemma_full_now(s1, seq![0u8]);
            lemma_full_after(s0, s1, s1, seq![0u8], seq![0u8]);
            assert(seq![0u8] + seq![0u8] =~= seq![0u8, 0u8]);
        }
        *p_err_code = ErrorCode::InsufficientData;
        return false;
    }
    proof {
        lemma_wrote_concat(s0, s1, *p_strm, seq![0u8], seq![0u8]);
        assert(seq![0u8] + seq![0u8] =~= seq![0u8, 0u8]);
    }
    true
}

/// Read a length determinant: the short form, the indefinite form (-1),
/// or the long form, which must not exceed `i32::MAX`.
pub fn ber_decode_length(p_strm: &mut ByteStream, value: &mut i32, p_err_code: &mut ErrorCode) -> (r:
    bool)
    requires
        old(p_strm).wf(),
    ensures
        final(p_strm).same_data(*old(p_strm)),
        (match spec_decode_length(old(p_strm).avail()) {
            Ok((v, n)) => r && *final(value) == v && final(p_strm).current_byte == old(
                p_strm,
            ).current_byte + n && *final(p_err_code) == *old(p_err_code),
            Err(e) => !r && *final(p_err_code) == e && *final(value) == *old(value),
        }),
        final(p_strm).current_byte == old(p_strm).current_byte + length_read(old(p_strm).avail()),
{
    let ghost s0 = *p_strm;
    let ghost avail = s0.avail();
    let cur_byte = match byte_stream_get_byte(p_strm) {
        Some(b) => b,
        None => {
            *p_err_code = ErrorCode::InsufficientData;
            return false;
        },
    };
    if (cur_byte & 0x80u8) == 0 {
        assert((cur_byte & 0x80u8) == 0 ==> cur_byte < 0x80) by (bit_vector);
        assert((cur_byte & 0x7Fu8) == cur_byte) by (bit_vector)
            requires
                cur_byte < 0x80,
        ;
        *value = (cur_byte & 0x7Fu8) as i32;
        return true;
    }
    assert((cur_byte & 0x80u8) != 0 ==> cur_byte >= 0x80 && (cur_byte & 0x7Fu8) == cur_byte - 0x80)
        by (bit_vector);
    let len_len = cur_byte & 0x7Fu8;
    if len_len == 0 {
        *value = -1;
        return true;
    }
    let mut ret: u32 = 0;
    let mut i: u8 = 0;
    assert(avail.subrange(1, 1) =~= Seq::<u8>::empty());
    while i < len_len
        invariant
            0 <= i <= len_len < 0x80,
            len_len as int == avail[0] - 0x80,
            avail == s0.avail(),
            s0 == *old(p_strm),
            s0.wf(),
            s0.room() >= 1 + i,
            p_strm.same_data(s0),
            p_strm.current_byte == s0.current_byte + 1 + i,
            ret as nat == be_value(avail.subrange(1, 1 + i)),
            ret <= 0x7FFF_FFFF,
            long_length_read(avail, len_len as nat, 0) == long_length_read(avail, len_len as nat, i as nat),
            *p_err_code == *old(p_err_code),
            *value == *old(value),
        decreases len_len - i,
    {
        let ghost before = *p_strm;
        proof {
            lemma_avail_skip(s0, before, 1 + i);
        }
        let b = match byte_stream_get_byte(p_strm) {
            Some(b) => b,
            None => {
                proof {
                    // fewer bytes than announced, and no overflow among those present
                    assert(avail.len() - 1 == i);
                }
                *p_err_code = ErrorCode::InsufficientData;
                return false;
            },
        };
        proof {
            assert(avail.subrange(1, 1 + i + 1).drop_last() =~= avail.subrange(1, 1 + i));
            assert(b == avail[1 + i]);
        }
        if ret > (0x7FFF_FFFFu32 - b as u32) / 256 {
            proof {
                let k = if len_len as int <= avail.len() - 1 { len_len as int } else { avail.len() - 1 };
                lemma_be_value_prefix(avail.subrange(1, 1 + k), i + 1);
                assert(avail.subrange(1, 1 + k).subrange(0, i + 1) =~= avail.subrange(1, 1 + i + 1));
                assert(be_value(avail.subrange(1, 2 + i)) > 0x7FFF_FFFF);
                assert(long_length_read(avail, len_len as nat, i as nat) == i + 1);
            }
            *p_err_code = ErrorCode::BerLengthMismatch;
            return false;
        }
        assert(ret <= 0x7F_FFFF ==> (ret << 8u32) | (b as u32) == 256 * ret + b) by (bit_vector);
        ret = (ret << 8u32) | (b as u32);
        proof {
            assert(be_value(avail.subrange(1, 2 + i)) <= 0x7FFF_FFFF);
        }
        i = i + 1;
    }
    *value = ret as i32;
    true
}

/// Read the end-of-contents marker 0x00 0x00.
pub fn ber_decode_two_zeroes(p_strm: &mut ByteStream, p_err_code: &mut ErrorCode) -> (r: bool)
    requires
        old(p_strm).wf(),
    ensures
        final(p_strm).same_data(*old(p_strm)),
        ({
            let a = old(p_strm).avail();
            if a.len() < 1 {
                !r && *final(p_err_code) == ErrorCode::InsufficientData
            } else if a[0] != 0 {
                !r && *final(p_err_code) == ErrorCode::BerLengthMismatch
            } else if a.len() < 2 {
                !r && *final(p_err_code) == ErrorCode::InsufficientData
            } else if a[1] != 0 {
                !r && *final(p_err_code) == ErrorCode::BerLengthMismatch
            } else {
                r && final(p_strm).current_byte == old(p_strm).current_byte + 2 && *final(p_err_code)
                    == *old(p_err_code)
            }
        }),
        ({
            let a = old(p_strm).avail();
            final(p_strm).current_byte == old(p_strm).current_byte + if a.len() < 1 {
                0int
            } else if a[0] != 0 || a.len() < 2 {
                1int
            } else {
                2int
            }
        }),
{
    let ghost s0 = *p_strm;
    let cur_byte = match byte_stream_get_byte(p_strm) {
        Some(b) => b,
        None => {
            *p_err_code = ErrorCode::InsufficientData;
            return false;
        },
    };
    if cur_byte != 0 {
        *p_err_code = ErrorCode::BerLengthMismatch;
        return false;
    }
    let ghost s1 = *p_strm;
    proof {
        lemma_avail_skip(s0, s1, 1);
    }
    let cur_byte = match byte_stream_get_byte(p_strm) {
        Some(b) => b,
        None => {
            *p_err_code = ErrorCode::InsufficientData;
            return false;
        },
    };
    if cur_byte != 0 {
        *p_err_code = ErrorCode::BerLengthMismatch;
        return false;
    }
    true
}

/// Whether the two bytes at the cursor are both zero; the stream is left unchanged.
pub fn la_next_two_bytes_00(p_strm: &mut ByteStream) -> (r: bool)
    requires
        old(p_strm).wf(),
    ensures
        final(p_strm).same_data(*old(p_strm)),
        final(p_strm).current_byte == old(p_strm).current_byte,
        r == (old(p_strm).avail().len() >= 2 && old(p_strm).avail()[0] == 0 && old(
            p_strm,
        ).avail()[1] == 0),
{
    let saved_byte = p_strm.current_byte;
    let mut err = ErrorCode::InsufficientData;
    let ret = ber_decode_two_zeroes(p_strm, &mut err);
    p_strm.current_byte = saved_byte;
    proof {
        assert(p_strm.buf@ == old(p_strm).buf@);
    }
    ret
}


/// Read a tag and then a length determinant.
fn decode_tag_and_length(
    p_strm: &mut ByteStream,
    tag: BerTag,
    length: &mut i32,
    p_err_code: &mut ErrorCode,
) -> (r: bool)
    requires
        old(p_strm).wf(),
    ensures
        final(p_strm).same_data(*old(p_strm)),
        (match spec_decode_header(old(p_strm).avail(), tag) {
            Ok((v, n)) => r && *final(length) == v && final(p_strm).current_byte == old(
                p_strm,
            ).current_byte + n && *final(p_err_code) == *old(p_err_code),
            Err(e) => !r && *final(p_err_code) == e,
        }),
        final(p_strm).current_byte == old(p_strm).current_byte + header_read(old(p_strm).avail(), tag),
{
    let ghost s0 = *p_strm;
    if !ber_decode_tag(p_strm, tag, p_err_code) {
        return false;
    }
    let ghost s1 = *p_strm;
    proof {
        let n1 = spec_decode_tag(s0.avail(), tag)->Ok_0;
        lemma_avail_skip(s0, s1, n1 as int);
    }
    ber_decode_length(p_strm, length, p_err_code)
}

/// Read `n` bytes (at most 8) as a big-endian number.
fn read_be_bytes(p_strm: &mut ByteStream, n: i32) -> (r: Option<u64>)
    requires
        old(p_strm).wf(),
        0 <= n <= 8,
    ensures
        final(p_strm).same_data(*old(p_strm)),
        old(p_strm).room() >= n ==> r == Some(
            be_value(old(p_strm).avail().subrange(0, n as int)) as u64,
        ) && final(p_strm).current_byte == old(p_strm).current_byte + n,
        old(p_strm).room() < n ==> r.is_none(),
        final(p_strm).current_byte == old(p_strm).current_byte + content_read(old(p_strm).room(), n as int),
{
    let ghost s0 = *p_strm;
    let mut ret: u64 = 0;
    let mut i: i32 = 0;
    assert(s0.avail().subrange(0, 0) =~= Seq::<u8>::empty());
    while i < n
        invariant
            0 <= i <= n <= 8,
            s0 == *old(p_strm),
            s0.wf(),
            s0.room() >= i,
            p_strm.same_data(s0),
            p_strm.current_byte == s0.current_byte + i,
            ret as nat == be_value(s0.avail().subrange(0, i as int)),
        decreases n - i,
    {
        let ghost before = *p_strm;
        proof {
            lemma_avail_skip(s0, before, i as int);
        }
        let b = match byte_stream_get_byte(p_strm) {
            Some(b) => b,
            None => {
                return None;
            },
        };
        proof {
            lemma_be_value_bound(s0.avail().subrange(0, i as int));
            lemma2_to64();
            lemma2_to64_rest();
            if i < 7 {
                lemma_pow2_strictly_increases(8 * i as nat, 56);
            }
            assert(s0.avail().subrange(0, i + 1).drop_last() =~= s0.avail().subrange(0, i as int));
        }
        assert(ret < 0x100_0000_0000_0000u64 ==> ((ret << 8u64) | (b as u64)) == 256 * ret + b)
            by (bit_vector);
        ret = (ret << 8u64) | (b as u64);
        i = i + 1;
    }
    Some(ret)
}

// ─── INTEGER ───────────────────────────────────────────────────────────

/// Write an INTEGER: tag, length, and the minimal two's complement content.
pub fn ber_encode_integer(
    p_strm: &mut ByteStream,
    tag: BerTag,
    value: Asn1SccSint,
    p_err_code: &mut ErrorCode,
) -> (r: bool)
    requires
        old(p_strm).wf(),
    ensures
        r == (old(p_strm).room() >= ber_integer_bytes(tag, value).len()),
        r ==> final(p_strm).wrote(*old(p_strm), ber_integer_bytes(tag, value)),
        r ==> *final(p_err_code) == *old(p_err_code),
        !r ==> final(p_strm).wrote_until_full(*old(p_strm), ber_integer_bytes(tag, value))
            && *final(p_err_code) == ErrorCode::InsufficientData,
{
    let ghost s0 = *p_strm;
    let ghost t = ber_tag_bytes(tag);
    let ghost l = sint_bytes(value as int);
    let ghost c = be_bytes(wrap_u64(value as int), l);
    proof {
        assert(t + (seq![l as u8] + c) =~= ber_integer_bytes(tag, value));
        assert(t + seq![l as u8] + c =~= ber_integer_bytes(tag, value));
    }
    if !ber_encode_tag(p_strm, tag, p_err_code) {
        proof {
            lemma_full_extend(s0, *p_strm, t, seq![l as u8] + c);
        }
        return false;
    }
    let ghost s1 = *p_strm;
    let length = get_length_in_bytes_of_sint(value) as u8;
    if !byte_stream_put_byte(p_strm, length) {
        proof {
            lemma_full_now(s1, seq![l as u8] + c);
            lemma_full_after(s0, s1, s1, t, seq![l as u8] + c);
        }
        *p_err_code = ErrorCode::InsufficientData;
        return false;
    }
    let ghost s2 = *p_strm;
    let v = int2uint(value);
    let ok = ber_encode_uint2(p_strm, v, length as i32, p_err_code);
    proof {
        lemma_wrote_concat(s0, s1, s2, t, seq![length]);
        if ok {
            lemma_wrote_concat(s0, s2, *p_strm, t + seq![length], be_bytes(v as nat, length as nat));
        } else {
            lemma_full_after(s0, s2, *p_strm, t + seq![length], be_bytes(v as nat, length as nat));
        }
    }
    ok
}

/// Read an INTEGER of 1 to 8 content bytes.
pub fn ber_decode_integer(
    p_strm: &mut ByteStream,
    tag: BerTag,
    value: &mut Asn1SccSint,
    p_err_code: &mut ErrorCode,
) -> (r: bool)
    requires
        old(p_strm).wf(),
    ensures
        final(p_strm).same_data(*old(p_strm)),
        (match spec_decode_integer(old(p_strm).avail(), tag) {
            Ok((v, n)) => r && *final(value) == v && final(p_strm).current_byte == old(
                p_strm,
            ).current_byte + n && *final(p_err_code) == *old(p_err_code),
            Err(e) => !r && *final(p_err_code) == e && *final(value) == *old(value),
        }),
        final(p_strm).current_byte == old(p_strm).current_byte + tlv_read(
            old(p_strm).avail(),
            tag,
            |len: int| 1 <= len <= 8,
        ),
{
    let ghost s0 = *p_strm;
    let mut length: i32 = 0;
    if !decode_tag_and_length(p_strm, tag, &mut length, p_err_code) {
        return false;
    }
    if length < 1 || length > 8 {
        *p_err_code = ErrorCode::BerLengthMismatch;
        return false;
    }
    let ghost s1 = *p_strm;
    let ghost h = spec_decode_header(s0.avail(), tag)->Ok_0.1;
    proof {
        lemma_avail_skip(s0, s1, h as int);
    }
    let ret = match read_be_bytes(p_strm, length) {
        Some(v) => v,
        None => {
            *p_err_code = ErrorCode::InsufficientData;
            return false;
        },
    };
    proof {
        assert(s1.avail().subrange(0, length as int) =~= s0.avail().subrange(h as int, h + length));
        lemma_be_value_bound(s1.avail().subrange(0, length as int));
        lemma2_to64();
        if length < 8 {
            lemma_pow2_strictly_increases(8 * length as nat, 64);
        }
        assert(ret as nat == be_value(s0.avail().subrange(h as int, h + length)));
        assert((8 * length) as nat == 8 * (length as nat));
    }
    *value = uint2int(ret, length);
    true
}

// ─── BOOLEAN ───────────────────────────────────────────────────────────

/// Write a BOOLEAN: tag, length 1, and 0xFF for true or 0x00 for false.
pub fn ber_encode_boolean(
    p_strm: &mut ByteStream,
    tag: BerTag,
    value: bool,
    p_err_code: &mut ErrorCode,
) -> (r: bool)
    requires
        old(p_strm).wf(),
    ensures
        r == (old(p_strm).room() >= ber_boolean_bytes(tag, value).len()),
        r ==> final(p_strm).wrote(*old(p_strm), ber_boolean_bytes(tag, value)),
        r ==> *final(p_err_code) == *old(p_err_code),
        !r ==> final(p_strm).wrote_until_full(*old(p_strm), ber_boolean_bytes(tag, value))
            && *final(p_err_code) == ErrorCode::InsufficientData,
{
    let ghost s0 = *p_strm;
    let ghost t = ber_tag_bytes(tag);
    let content = if value { 0xFFu8 } else { 0x00u8 };
    if !ber_encode_tag(p_strm, tag, p_err_code) {
        proof {
            lemma_full_extend(s0, *p_strm, t, seq![1u8, content]);
        }
        return false;
    }
    let ghost s1 = *p_strm;
    if !byte_stream_put_byte(p_strm, 1) {
        proof {
            lemma_full_now(s1, seq![1u8, content]);
            lemma_full_after(s0, s1, s1, t, seq![1u8, content]);
        }
        *p_err_code = ErrorCode::InsufficientData;
        return false;
    }
    let ghost s2 = *p_strm;
    if !byte_stream_put_byte(p_strm, content) {
        proof {
            lemma_wrote_concat(s0, s1, s2, t, seq![1u8]);
            lemma_full_now(s2, seq![content]);
            lemma_full_after(s0, s2, s2, t + seq![1u8], seq![content]);
            assert(t + seq![1u8] + seq![content] =~= t + seq![1u8, content]);
        }
        *p_err_code = ErrorCode::InsufficientData;
        return false;
    }
    proof {
        let t = ber_tag_bytes(tag);
        lemma_wrote_concat(s0, s1, s2, t, seq![1u8]);
        lemma_wrote_concat(s0, s2, *p_strm, t + seq![1u8], seq![content]);
        assert(t + seq![1u8] + seq![content] =~= t + seq![1u8, content]);
    }
    true
}

/// Read a BOOLEAN of one content byte; any non-zero byte is true.  The
/// output is false unless the decoding succeeds with true.
pub fn ber_decode_boolean(
    p_strm: &mut ByteStream,
    tag: BerTag,
    value: &mut bool,
    p_err_code: &mut ErrorCode,
) -> (r: bool)
    requires
        old(p_strm).wf(),
    ensures
        final(p_strm).same_data(*old(p_strm)),
        (match spec_decode_boolean(old(p_strm).avail(), tag) {
            Ok((v, n)) => r && *final(value) == v && final(p_strm).current_byte == old(
                p_strm,
            ).current_byte + n && *final(p_err_code) == *old(p_err_code),
            Err(e) => !r && *final(p_err_code) == e && *final(value) == false,
        }),
        final(p_strm).current_byte == old(p_strm).current_byte + tlv_read(
            old(p_strm).avail(),
            tag,
            |len: int| len == 1,
        ),
{
    *value = false;
    let ghost s0 = *p_strm;
    let mut length: i32 = 0;
    if !decode_tag_and_length(p_strm, tag, &mut length, p_err_code) {
        return false;
    }
    if length != 1 {
        *p_err_code = ErrorCode::BerLengthMismatch;
        return false;
    }
    let ghost s1 = *p_strm;
    let ghost h = spec_decode_header(s0.avail(), tag)->Ok_0.1;
    proof {
        lemma_avail_skip(s0, s1, h as int);
    }
    let data = match byte_stream_get_byte(p_strm) {
        Some(b) => b,
        None => {
            *p_err_code = ErrorCode::InsufficientData;
            return false;
        },
    };
    *value = data != 0;
    true
}

// ─── NULL ──────────────────────────────────────────────────────────────

/// Write NULL: tag and a zero length.
pub fn ber_encode_null(p_strm: &mut ByteStream, tag: BerTag, p_err_code: &mut ErrorCode) -> (r: bool)
    requires
        old(p_strm).wf(),
    ensures
        r == (old(p_strm).room() >= ber_null_bytes(tag).len()),
        r ==> final(p_strm).wrote(*old(p_strm), ber_null_bytes(tag)),
        r ==> *final(p_err_code) == *old(p_err_code),
        !r ==> final(p_strm).wrote_until_full(*old(p_strm), ber_null_bytes(tag))
            && *final(p_err_code) == ErrorCode::InsufficientData,
{
    let ghost s0 = *p_strm;
    if !ber_encode_tag(p_strm, tag, p_err_code) {
        proof {
            lemma_full_extend(s0, *p_strm, ber_tag_bytes(tag), seq![0u8]);
        }
        return false;
    }
    let ghost s1 = *p_strm;
    if !byte_stream_put_byte(p_strm, 0) {
        proof {
            lemma_full_now(s1, seq![0u8]);
            lemma_full_after(s0, s1, s1, ber_tag_bytes(tag), seq![0u8]);
        }
        *p_err_code = ErrorCode::InsufficientData;
        return false;
    }
    proof {
        lemma_wrote_concat(s0, s1, *p_strm, ber_tag_bytes(tag), seq![0u8]);
    }
    true
}

/// Read NULL: the length must be zero.
pub fn ber_decode_null(p_strm: &mut ByteStream, tag: BerTag, p_err_code: &mut ErrorCode) -> (r: bool)
    requires
        old(p_strm).wf(),
    ensures
        final(p_strm).same_data(*old(p_strm)),
        (match spec_decode_null(old(p_strm).avail(), tag) {
            Ok(n) => r && final(p_strm).current_byte == old(p_strm).current_byte + n
                && *final(p_err_code) == *old(p_err_code),
            Err(e) => !r && *final(p_err_code) == e,
        }),
        final(p_strm).current_byte == old(p_strm).current_byte + tlv_read(
            old(p_strm).avail(),
            tag,
            |len: int| false,
        ),
{
    let mut length: i32 = 0;
    if !decode_tag_and_length(p_strm, tag, &mut length, p_err_code) {
        return false;
    }
    if length != 0 {
        *p_err_code = ErrorCode::BerLengthMismatch;
        return false;
    }
    true
}


// ─── IA5String ─────────────────────────────────────────────────────────


/// What decoding an IA5String into a buffer of `max_length` bytes gives:
/// the string length and the bytes consumed.  The string must leave room
/// for a terminator.
pub open spec fn spec_decode_ia5_string(avail: Seq<u8>, tag: BerTag, max_length: i32) -> Result<
    (int, nat),
    ErrorCode,
> {
    if max_length < 1 {
        Err(ErrorCode::BerLengthMismatch)
    } else {
        match spec_decode_header(avail, tag) {
            Err(e) => Err(e),
            Ok((len, h)) => if len >= max_length {
                Err(ErrorCode::BerLengthMismatch)
            } else if len < 0 || avail.len() < h + len {
                Err(ErrorCode::InsufficientData)
            } else {
                Ok((len, (h + len) as nat))
            },
        }
    }
}

/// Write an IA5String: tag, length, and the first `length` bytes of `value`.
pub fn ber_encode_ia5_string(
    p_strm: &mut ByteStream,
    tag: BerTag,
    value: &[u8],
    length: i32,
    p_err_code: &mut ErrorCode,
) -> (r: bool)
    requires
        old(p_strm).wf(),
        0 <= length <= value@.len(),
    ensures
        r == (old(p_strm).room() >= ber_string_bytes(tag, value@, length).len()),
        r ==> final(p_strm).wrote(*old(p_strm), ber_string_bytes(tag, value@, length)),
        r ==> *final(p_err_code) == *old(p_err_code),
        !r ==> final(p_strm).wrote_until_full(*old(p_strm), ber_string_bytes(tag, value@, length))
            && *final(p_err_code) == ErrorCode::InsufficientData,
{
    encode_tagged_bytes(p_strm, tag, value, length, p_err_code)
}

fn encode_tagged_bytes(
    p_strm: &mut ByteStream,
    tag: BerTag,
    value: &[u8],
    length: i32,
    p_err_code: &mut ErrorCode,
) -> (r: bool)
    requires
        old(p_strm).wf(),
        0 <= length <= value@.len(),
    ensures
        r == (old(p_strm).room() >= ber_string_bytes(tag, value@, length).len()),
        r ==> final(p_strm).wrote(*old(p_strm), ber_string_bytes(tag, value@, length)),
        r ==> *final(p_err_code) == *old(p_err_code),
        !r ==> final(p_strm).wrote_until_full(*old(p_strm), ber_string_bytes(tag, value@, length))
            && *final(p_err_code) == ErrorCode::InsufficientData,
{
    let ghost s0 = *p_strm;
    let ghost t = ber_tag_bytes(tag);
    let ghost l = ber_length_bytes(length);
    let ghost c = value@.subrange(0, length as int);
    proof {
        assert(t + (l + c) =~= ber_string_bytes(tag, value@, length));
    }
    if !ber_encode_tag(p_strm, tag, p_err_code) {
        proof {
            lemma_full_extend(s0, *p_strm, t, l + c);
        }
        return false;
    }
    let ghost s1 = *p_strm;
    if !ber_encode_length(p_strm, length, p_err_code) {
        proof {
            lemma_full_extend(s1, *p_strm, l, c);
            lemma_full_after(s0, s1, *p_strm, t, l + c);
        }
        return false;
    }
    let ghost s2 = *p_strm;
    if !put_slice(p_strm, value, length as usize) {
        proof {
            lemma_wrote_concat(s0, s1, s2, t, l);
            lemma_full_after(s0, s2, *p_strm, t + l, c);
        }
        *p_err_code = ErrorCode::InsufficientData;
        return false;
    }
    proof {
        lemma_wrote_concat(s0, s1, s2, t, ber_length_bytes(length));
        lemma_wrote_concat(
            s0,
            s2,
            *p_strm,
            t + ber_length_bytes(length),
            value@.subrange(0, length as int),
        );
    }
    true
}


/// How many of the `avail.len()` remaining bytes a read of a string of
/// `length` bytes consumes: all of them when they are too few (or the
/// length is the indefinite -1), else `length`.
pub open spec fn content_read(avail_len: int, length: int) -> int {
    if 0 <= length <= avail_len {
        length
    } else {
        avail_len
    }
}

/// The bytes a read of a string of `length` bytes stores: those it
/// consumes, up to the first `max`.
pub open spec fn content_stored(avail: Seq<u8>, length: int, max: int) -> Seq<u8> {
    let k = content_read(avail.len() as int, length);
    avail.subrange(0, if k <= max { k } else { max })
}

/// Read the bytes of a string of `length` bytes (or, for the indefinite
/// length -1, of the rest of the stream), storing those below `max` at the
/// start of `value`. It fails, having consumed the rest of the stream,
/// when the stream holds fewer bytes.
fn read_content(p_strm: &mut ByteStream, value: &mut [u8], length: i32, max: usize) -> (r: bool)
    requires
        old(p_strm).wf(),
        length >= -1,
        max <= old(value)@.len(),
    ensures
        final(p_strm).same_data(*old(p_strm)),
        final(value)@.len() == old(value)@.len(),
        r == (length >= 0 && old(p_strm).room() >= length),
        final(p_strm).current_byte == old(p_strm).current_byte + content_read(old(p_strm).room(), length as int),
        final(value)@ == fill_prefix(old(value)@, content_stored(old(p_strm).avail(), length as int, max as int), 0),
{
    let ghost s0 = *p_strm;
    let n: usize = if length < 0 { usize::MAX } else { length as usize };
    let mut i: usize = 0;
    while i < n
        invariant
            s0 == *old(p_strm),
            s0.wf(),
            n == if length < 0 { usize::MAX as int } else { length as int },
            i <= n,
            i <= s0.room(),
            p_strm.same_data(s0),
            p_strm.current_byte == s0.current_byte + i,
            max <= value@.len(),
            value@.len() == old(value)@.len(),
            value@ =~= fill_prefix(
                old(value)@,
                s0.avail().subrange(0, if i <= max { i as int } else { max as int }),
                0,
            ),
        decreases n - i,
    {
        let ghost before = *p_strm;
        proof {
            lemma_avail_skip(s0, before, i as int);
        }
        let cur_byte = match byte_stream_get_byte(p_strm) {
            Some(b) => b,
            None => {
                proof {
                    assert(s0.avail().len() == s0.room());
                    if length >= 0 {
                        assert(s0.room() < length);
                    } else {
                        // a stream never holds usize::MAX bytes
                        assert(s0.room() < usize::MAX);
                    }
                }
                return false;
            },
        };
        if i < max {
            value[i] = cur_byte;
        }
        i = i + 1;
        assert(value@ =~= fill_prefix(
            old(value)@,
            s0.avail().subrange(0, if i <= max { i as int } else { max as int }),
            0,
        ));
    }
    proof {
        if length < 0 {
            // a stream never holds usize::MAX bytes
            assert(s0.room() < usize::MAX);
        }
    }
    true
}

/// The content bytes an IA5String decoder stores, success or not: those it
/// consumed when the length left room for a terminator, up to the first
/// `max_length`.
pub open spec fn ia5_stored(avail: Seq<u8>, tag: BerTag, max_length: i32) -> Seq<u8> {
    if max_length < 1 {
        Seq::empty()
    } else {
        match spec_decode_header(avail, tag) {
            Ok((len, h)) => if len >= max_length {
                Seq::empty()
            } else {
                content_stored(avail.subrange(h as int, avail.len() as int), len as int, max_length as int)
            },
            Err(_) => Seq::empty(),
        }
    }
}

/// Read an IA5String into `value`: its first `max_length` bytes are
/// cleared, then the string is stored at the start.
pub fn ber_decode_ia5_string(
    p_strm: &mut ByteStream,
    tag: BerTag,
    value: &mut [u8],
    max_length: i32,
    p_err_code: &mut ErrorCode,
) -> (r: bool)
    requires
        old(p_strm).wf(),
        max_length <= old(value)@.len(),
    ensures
        final(p_strm).same_data(*old(p_strm)),
        (match spec_decode_ia5_string(old(p_strm).avail(), tag, max_length) {
            Ok((len, n)) => r && final(p_strm).current_byte == old(p_strm).current_byte + n
                && *final(p_err_code) == *old(p_err_code) && final(value)@ == fill_prefix(
                old(value)@,
                old(p_strm).avail().subrange((n - len) as int, n as int),
                max_length as int,
            ),
            Err(e) => !r && *final(p_err_code) == e,
        }),
        final(value)@ == fill_prefix(old(value)@, ia5_stored(old(p_strm).avail(), tag, max_length), max_length as int),
        final(p_strm).current_byte == old(p_strm).current_byte + if max_length < 1 {
            0int
        } else {
            tlv_read(old(p_strm).avail(), tag, |len: int| len < max_length)
        },
{
    if max_length < 1 {
        proof {
            assert(value@ =~= fill_prefix(old(value)@, Seq::empty(), max_length as int));
        }
        *p_err_code = ErrorCode::BerLengthMismatch;
        return false;
    }
    clear_prefix(value, max_length as usize);
    let ghost s0 = *p_strm;
    let mut length: i32 = 0;
    if !decode_tag_and_length(p_strm, tag, &mut length, p_err_code) {
        return false;
    }
    if length >= max_length {
        *p_err_code = ErrorCode::BerLengthMismatch;
        return false;
    }
    let ghost s1 = *p_strm;
    let ghost h = spec_decode_header(s0.avail(), tag)->Ok_0.1;
    proof {
        lemma_avail_skip(s0, s1, h as int);
        assert(length >= -1);
    }
    let ok = read_content(p_strm, value, length, max_length as usize);
    proof {
        let st = content_stored(s1.avail(), length as int, max_length as int);
        assert(st.len() <= max_length);
        assert(value@ =~= fill_prefix(old(value)@, st, max_length as int));
    }
    if !ok {
        *p_err_code = ErrorCode::InsufficientData;
        return false;
    }
    proof {
        assert(s1.avail().subrange(0, length as int) =~= s0.avail().subrange(h as int, h + length));
        assert(value@ =~= fill_prefix(
            old(value)@,
            s0.avail().subrange(h as int, h + length),
            max_length as int,
        ));
    }
    true
}


// ─── OCTET STRING ──────────────────────────────────────────────────────

/// Write an OCTET STRING: tag, length, and the first `oct_count` bytes of `value`.
pub fn ber_encode_octet_string(
    p_strm: &mut ByteStream,
    tag: BerTag,
    value: &[u8],
    oct_count: i32,
    p_err_code: &mut ErrorCode,
) -> (r: bool)
    requires
        old(p_strm).wf(),
        0 <= oct_count <= value@.len(),
    ensures
        r == (old(p_strm).room() >= ber_string_bytes(tag, value@, oct_count).len()),
        r ==> final(p_strm).wrote(*old(p_strm), ber_string_bytes(tag, value@, oct_count)),
        r ==> *final(p_err_code) == *old(p_err_code),
        !r ==> final(p_strm).wrote_until_full(*old(p_strm), ber_string_bytes(tag, value@, oct_count))
            && *final(p_err_code) == ErrorCode::InsufficientData,
{
    encode_tagged_bytes(p_strm, tag, value, oct_count, p_err_code)
}

/// The length and the header size of an OCTET STRING, when `max_oct_count`
/// is not negative and the tag and the length decode.
pub open spec fn octet_header(avail: Seq<u8>, tag: BerTag, max_oct_count: i32) -> Option<(int, int)> {
    if max_oct_count < 0 {
        None
    } else {
        match spec_decode_header(avail, tag) {
            Ok((len, h)) => Some((len as int, h as int)),
            Err(_) => None,
        }
    }
}

/// The octet count reported for a content of `len` bytes: `len`, clamped
/// to `max_oct_count`.
pub open spec fn clamped_count(len: int, max_oct_count: int) -> int {
    if len > max_oct_count {
        max_oct_count
    } else {
        len
    }
}

/// What decoding an OCTET STRING of at most `max_oct_count` bytes gives:
/// the octet count, clamped to `max_oct_count`, and the bytes consumed,
/// which are all of the content even when it is longer.
pub open spec fn spec_decode_octet_string(avail: Seq<u8>, tag: BerTag, max_oct_count: i32) -> Result<
    (int, nat),
    ErrorCode,
> {
    if max_oct_count < 0 {
        Err(ErrorCode::BerLengthMismatch)
    } else {
        match spec_decode_header(avail, tag) {
            Err(e) => Err(e),
            Ok((len, h)) => if len < 0 || avail.len() < h + len {
                Err(ErrorCode::InsufficientData)
            } else {
                Ok((clamped_count(len as int, max_oct_count as int), (h + len) as nat))
            },
        }
    }
}

/// The content bytes an OCTET STRING decoder stores, success or not: those
/// it consumed, up to the first `max_oct_count`.
pub open spec fn octet_stored(avail: Seq<u8>, tag: BerTag, max_oct_count: i32) -> Seq<u8> {
    match octet_header(avail, tag, max_oct_count) {
        Some((len, h)) => content_stored(avail.subrange(h, avail.len() as int), len, max_oct_count as int),
        None => Seq::empty(),
    }
}

/// Read an OCTET STRING into `value`: its first `max_oct_count` bytes are
/// cleared, then the content is stored at the start, truncated to
/// `max_oct_count` bytes, and its length, clamped to `max_oct_count`, in
/// `oct_count`. A longer content is consumed whole.
pub fn ber_decode_octet_string(
    p_strm: &mut ByteStream,
    tag: BerTag,
    value: &mut [u8],
    oct_count: &mut i32,
    max_oct_count: i32,
    p_err_code: &mut ErrorCode,
) -> (r: bool)
    requires
        old(p_strm).wf(),
        max_oct_count <= old(value)@.len(),
    ensures
        final(p_strm).same_data(*old(p_strm)),
        (match spec_decode_octet_string(old(p_strm).avail(), tag, max_oct_count) {
            Ok((count, n)) => r && final(p_strm).current_byte == old(p_strm).current_byte + n
                && *final(p_err_code) == *old(p_err_code) && *final(oct_count) == count,
            Err(e) => !r && *final(p_err_code) == e,
        }),
        final(value)@ == fill_prefix(old(value)@, octet_stored(old(p_strm).avail(), tag, max_oct_count), max_oct_count as int),
        *final(oct_count) == match octet_header(old(p_strm).avail(), tag, max_oct_count) {
            Some((len, _)) => clamped_count(len, max_oct_count as int),
            None => *old(oct_count) as int,
        },
        final(p_strm).current_byte == old(p_strm).current_byte + if max_oct_count < 0 {
            0int
        } else {
            tlv_read(old(p_strm).avail(), tag, |len: int| true)
        },
{
    if max_oct_count < 0 {
        proof {
            assert(value@ =~= fill_prefix(old(value)@, Seq::empty(), max_oct_count as int));
        }
        *p_err_code = ErrorCode::BerLengthMismatch;
        return false;
    }
    clear_prefix(value, max_oct_count as usize);
    let ghost s0 = *p_strm;
    let mut length: i32 = 0;
    if !decode_tag_and_length(p_strm, tag, &mut length, p_err_code) {
        return false;
    }
    if length > max_oct_count {
        *oct_count = max_oct_count;
    } else {
        *oct_count = length;
    }
    let ghost s1 = *p_strm;
    let ghost h = spec_decode_header(s0.avail(), tag)->Ok_0.1;
    proof {
        lemma_avail_skip(s0, s1, h as int);
    }
    let ok = read_content(p_strm, value, length, max_oct_count as usize);
    proof {
        let st = content_stored(s1.avail(), length as int, max_oct_count as int);
        assert(st.len() <= max_oct_count);
        assert(value@ =~= fill_prefix(old(value)@, st, max_oct_count as int));
    }
    if !ok {
        *p_err_code = ErrorCode::InsufficientData;
        return false;
    }
    true
}

// ─── BIT STRING ────────────────────────────────────────────────────────

/// Write a BIT STRING of `bit_count` bits held in the first bytes of `value`.
pub fn ber_encode_bit_string(
    p_strm: &mut ByteStream,
    tag: BerTag,
    value: &[u8],
    bit_count: i32,
    p_err_code: &mut ErrorCode,
) -> (r: bool)
    requires
        old(p_strm).wf(),
        0 <= bit_count,
        bit_string_content_len(bit_count as int) <= value@.len(),
    ensures
        r == (old(p_strm).room() >= ber_bit_string_bytes(tag, value@, bit_count).len()),
        r ==> final(p_strm).wrote(*old(p_strm), ber_bit_string_bytes(tag, value@, bit_count)),
        r ==> *final(p_err_code) == *old(p_err_code),
        !r ==> final(p_strm).wrote_until_full(*old(p_strm), ber_bit_string_bytes(tag, value@, bit_count))
            && *final(p_err_code) == ErrorCode::InsufficientData,
{
    let mut length = bit_count / 8;
    let mut last_byte_unused_bits = 8 - bit_count % 8;
    if last_byte_unused_bits == 8 {
        last_byte_unused_bits = 0;
    }
    if bit_count % 8 != 0 {
        length = length + 1;
    }
    let ghost s0 = *p_strm;
    let ghost t = ber_tag_bytes(tag);
    let ghost l = ber_length_bytes((length + 1) as i32);
    let ghost u = seq![last_byte_unused_bits as u8];
    let ghost c = value@.subrange(0, length as int);
    proof {
        assert(last_byte_unused_bits as u8 == ((8 - bit_count % 8) % 8) as u8);
        assert(t + (l + (u + c)) =~= ber_bit_string_bytes(tag, value@, bit_count));
        assert((t + l) + (u + c) =~= ber_bit_string_bytes(tag, value@, bit_count));
        assert((t + l + u) + c =~= ber_bit_string_bytes(tag, value@, bit_count));
    }
    if !ber_encode_tag(p_strm, tag, p_err_code) {
        proof {
            lemma_full_extend(s0, *p_strm, t, l + (u + c));
        }
        return false;
    }
    let ghost s1 = *p_strm;
    if !ber_encode_length(p_strm, length + 1, p_err_code) {
        proof {
            lemma_full_extend(s1, *p_strm, l, u + c);
            lemma_full_after(s0, s1, *p_strm, t, l + (u + c));
        }
        return false;
    }
    let ghost s2 = *p_strm;
    proof {
        lemma_wrote_concat(s0, s1, s2, t, l);
    }
    if !byte_stream_put_byte(p_strm, last_byte_unused_bits as u8) {
        proof {
            lemma_full_now(s2, u + c);
            lemma_full_after(s0, s2, s2, t + l, u + c);
        }
        *p_err_code = ErrorCode::InsufficientData;
        return false;
    }
    let ghost s3 = *p_strm;
    proof {
        lemma_wrote_concat(s0, s2, s3, t + l, u);
    }
    if !put_slice(p_strm, value, length as usize) {
        proof {
            lemma_full_after(s0, s3, *p_strm, t + l + u, c);
        }
        *p_err_code = ErrorCode::InsufficientData;
        return false;
    }
    proof {
        let t = ber_tag_bytes(tag);
        let l = ber_length_bytes((length + 1) as i32);
        let u = seq![last_byte_unused_bits as u8];
        assert(last_byte_unused_bits as u8 == ((8 - bit_count % 8) % 8) as u8);
        lemma_wrote_concat(s0, s1, s2, t, l);
        lemma_wrote_concat(s0, s2, s3, t + l, u);
        lemma_wrote_concat(s0, s3, *p_strm, t + l + u, value@.subrange(0, length as int));
    }
    true
}

/// The length and the header size of a BIT STRING whose header and
/// unused-bits byte are valid, when `max_bit_count` is not negative.
pub open spec fn bit_string_header(avail: Seq<u8>, tag: BerTag, max_bit_count: i32) -> Option<(int, int)> {
    if max_bit_count < 0 {
        None
    } else {
        match spec_decode_header(avail, tag) {
            Ok((len, h)) => if len >= 1 && avail.len() >= h + 1 && avail[h as int] <= 7 {
                Some((len as int, h as int))
            } else {
                None
            },
            Err(_) => None,
        }
    }
}

/// The bit count reported for `len - 1` content bytes whose last byte has
/// `unused` unused bits, clamped to `max_bit_count`.
pub open spec fn bit_count_of(len: int, unused: int, max_bit_count: int) -> int {
    let bits = 8 * (len - 1) - unused;
    if bits > max_bit_count {
        max_bit_count
    } else {
        bits
    }
}

/// What decoding a BIT STRING of at most `max_bit_count` bits gives: the
/// bit count, clamped to `max_bit_count`, and the bytes consumed, which
/// are all of the content even when it is longer.
pub open spec fn spec_decode_bit_string(avail: Seq<u8>, tag: BerTag, max_bit_count: i32) -> Result<
    (int, nat),
    ErrorCode,
> {
    if max_bit_count < 0 {
        Err(ErrorCode::BerLengthMismatch)
    } else {
        match spec_decode_header(avail, tag) {
            Err(e) => Err(e),
            Ok((len, h)) => if len < 1 {
                Err(ErrorCode::BerLengthMismatch)
            } else if avail.len() < h + 1 {
                Err(ErrorCode::InsufficientData)
            } else if avail[h as int] > 7 {
                Err(ErrorCode::BerLengthMismatch)
            } else if avail.len() < h + len {
                Err(ErrorCode::InsufficientData)
            } else {
                Ok((bit_count_of(len as int, avail[h as int] as int, max_bit_count as int), (h + len) as nat))
            },
        }
    }
}

/// The content bytes a BIT STRING decoder stores, success or not: those it
/// consumed, up to the bytes that `max_bit_count` bits take.
pub open spec fn bit_string_stored(avail: Seq<u8>, tag: BerTag, max_bit_count: i32) -> Seq<u8> {
    match bit_string_header(avail, tag, max_bit_count) {
        Some((len, h)) => content_stored(
            avail.subrange(h + 1, avail.len() as int),
            len - 1,
            bit_string_content_len(max_bit_count as int),
        ),
        None => Seq::empty(),
    }
}

/// The content bytes that a BIT STRING decoder stores fit in a buffer of
/// `value_len` bytes.
pub open spec fn bit_string_fits(avail: Seq<u8>, tag: BerTag, max_bit_count: i32, value_len: nat) -> bool {
    match bit_string_header(avail, tag, max_bit_count) {
        Some((len, _)) => len - 1 <= value_len || bit_string_content_len(max_bit_count as int) <= value_len,
        None => true,
    }
}

/// How many bytes the BIT STRING decoder takes from `avail`, whether it
/// succeeds or not.
pub open spec fn bit_string_read(avail: Seq<u8>, tag: BerTag, max_bit_count: i32) -> int {
    if max_bit_count < 0 {
        0
    } else {
        match spec_decode_header(avail, tag) {
            Err(_) => header_read(avail, tag),
            Ok((len, h)) => if len < 1 || avail.len() < h + 1 {
                h as int
            } else if avail[h as int] > 7 {
                h + 1int
            } else {
                h + 1int + content_read(avail.len() - h - 1, len - 1)
            },
        }
    }
}

/// Read a BIT STRING: the content bytes are stored at the start of `value`,
/// truncated to the bytes that `max_bit_count` bits take, and the number of
/// bits, clamped to `max_bit_count`, in `bit_count`. A longer content is
/// consumed whole.
pub fn ber_decode_bit_string(
    p_strm: &mut ByteStream,
    tag: BerTag,
    value: &mut [u8],
    bit_count: &mut i32,
    max_bit_count: i32,
    p_err_code: &mut ErrorCode,
) -> (r: bool)
    requires
        old(p_strm).wf(),
        bit_string_fits(old(p_strm).avail(), tag, max_bit_count, old(value)@.len()),
    ensures
        final(p_strm).same_data(*old(p_strm)),
        (match spec_decode_bit_string(old(p_strm).avail(), tag, max_bit_count) {
            Ok((bits, n)) => r && final(p_strm).current_byte == old(p_strm).current_byte + n
                && *final(p_err_code) == *old(p_err_code) && *final(bit_count) == bits,
            Err(e) => !r && *final(p_err_code) == e && *final(bit_count) == *old(bit_count),
        }),
        final(value)@ == fill_prefix(old(value)@, bit_string_stored(old(p_strm).avail(), tag, max_bit_count), 0),
        final(p_strm).current_byte == old(p_strm).current_byte + bit_string_read(old(p_strm).avail(), tag, max_bit_count),
{
    let mut length: i32 = 0;
    if max_bit_count < 0 {
        proof {
            assert(value@ =~= fill_prefix(old(value)@, Seq::empty(), 0));
        }
        *p_err_code = ErrorCode::BerLengthMismatch;
        return false;
    }
    let mut max_bytes_len = max_bit_count / 8;
    if max_bit_count % 8 != 0 {
        max_bytes_len = max_bytes_len + 1;
    }
    let ghost s0 = *p_strm;
    proof {
        assert(value@ =~= fill_prefix(old(value)@, Seq::empty(), 0));
    }
    if !decode_tag_and_length(p_strm, tag, &mut length, p_err_code) {
        return false;
    }
    if length < 1 {
        *p_err_code = ErrorCode::BerLengthMismatch;
        return false;
    }
    let ghost s1 = *p_strm;
    let ghost h = spec_decode_header(s0.avail(), tag)->Ok_0.1;
    proof {
        lemma_avail_skip(s0, s1, h as int);
    }
    let last_byte_unused_bits = match byte_stream_get_byte(p_strm) {
        Some(b) => b,
        None => {
            *p_err_code = ErrorCode::InsufficientData;
            return false;
        },
    };
    if last_byte_unused_bits > 7 {
        *p_err_code = ErrorCode::BerLengthMismatch;
        return false;
    }
    let ghost s2 = *p_strm;
    proof {
        lemma_avail_skip(s0, s2, (h + 1) as int);
        assert(s2.avail() =~= s0.avail().subrange((h + 1) as int, s0.avail().len() as int));
    }
    let cap: usize = if length - 1 <= max_bytes_len { (length - 1) as usize } else { max_bytes_len as usize };
    let ok = read_content(p_strm, value, length - 1, cap);
    proof {
        let st = content_stored(s2.avail(), (length - 1) as int, bit_string_content_len(max_bit_count as int));
        assert(content_stored(s2.avail(), (length - 1) as int, cap as int) =~= st);
    }
    if !ok {
        *p_err_code = ErrorCode::InsufficientData;
        return false;
    }
    let bits: i64 = 8 * (length as i64 - 1) - last_byte_unused_bits as i64;
    if bits > max_bit_count as i64 {
        *bit_count = max_bit_count;
    } else {
        *bit_count = bits as i32;
    }
    true
}

// ─── REAL ──────────────────────────────────────────────────────────────

/// The bytes of a sequence of bits, eight bits to a byte.
pub open spec fn bits_octets(s: Seq<bool>) -> Seq<u8> {
    Seq::new(s.len() / 8, |k: int| bits_value(s.subrange(8 * k, 8 * k + 8)) as u8)
}

/// The content bytes of the binary REAL encoding of the double with bit
/// pattern `v`.
pub open spec fn real_octets(v: u64) -> Seq<u8> {
    bits_octets(real_bits(v))
}

/// Each byte of a buffer is the value of its bits.
proof fn lemma_buffer_byte(buf: Seq<u8>, k: int)
    requires
        0 <= k < buf.len(),
    ensures
        bits_value(bytes_to_bits(buf).subrange(8 * k, 8 * k + 8)) == buf[k],
{
    lemma_byte_prefix_match(bytes_to_bits(buf).subrange(8 * k, 8 * k + 8), buf, k, 8);
    vstd::arithmetic::power2::lemma2_to64();
    vstd::arithmetic::div_mod::lemma_div_basics(buf[k] as int);
}

/// Write a tag, then the binary encoding of the double with bit pattern
/// `value` (whose length byte makes a separate length unnecessary).
pub fn ber_encode_real(p_strm: &mut ByteStream, tag: BerTag, value: u64, p_err_code: &mut ErrorCode) -> (r: bool)
    requires
        old(p_strm).wf(),
    ensures
        r == (old(p_strm).room() >= ber_tag_bytes(tag).len() + real_octets(value).len()),
        r ==> final(p_strm).wrote(*old(p_strm), ber_tag_bytes(tag) + real_octets(value)),
        r ==> *final(p_err_code) == *old(p_err_code),
        !r ==> final(p_strm).wrote_until_full(*old(p_strm), ber_tag_bytes(tag) + real_octets(value))
            && *final(p_err_code) == ErrorCode::InsufficientData,
{
    let ghost s0 = *p_strm;
    let mut tmp = BitStream::new(vec![0u8; 100]);
    let ghost t0 = tmp;
    proof {
        lemma_real_bits_len(value);
    }
    tmp.encode_real(value);
    let length = tmp.get_length() as usize;
    proof {
        let rb = real_bits(value);
        crate::bits::lemma_splice_read(t0.bits(), 0, rb);
        assert(length as int == rb.len() / 8);
        assert forall|k: int| 0 <= k < length implies #[trigger] tmp.buf@[k] == real_octets(value)[k] by {
            lemma_buffer_byte(tmp.buf@, k);
            assert(tmp.bits().subrange(8 * k, 8 * k + 8) =~= rb.subrange(8 * k, 8 * k + 8));
        }
        assert(tmp.buf@.subrange(0, length as int) =~= real_octets(value));
    }
    if !ber_encode_tag(p_strm, tag, p_err_code) {
        proof {
            lemma_full_extend(s0, *p_strm, ber_tag_bytes(tag), real_octets(value));
        }
        return false;
    }
    let ghost s1 = *p_strm;
    if !put_slice(p_strm, tmp.buf.as_slice(), length) {
        proof {
            lemma_full_after(s0, s1, *p_strm, ber_tag_bytes(tag), real_octets(value));
        }
        *p_err_code = ErrorCode::InsufficientData;
        return false;
    }
    proof {
        lemma_wrote_concat(s0, s1, *p_strm, ber_tag_bytes(tag), real_octets(value));
    }
    true
}

/// The bytes of the buffer from `from` to its end, whether or not they are
/// in use.
pub open spec fn buffer_rest(s: ByteStream, from: int) -> Seq<u8> {
    s.buf@.subrange(from, s.buf@.len() as int)
}

/// A REAL after the tag, read from the bytes of the buffer that follow it,
/// ends within the data of the stream (when it decodes at all).
pub open spec fn real_within_data(s: ByteStream, tag: BerTag) -> bool {
    match spec_decode_tag(s.avail(), tag) {
        Err(_) => true,
        Ok(k) => match spec_dec_real(buffer_rest(s, s.current_byte + k)) {
            None => true,
            Some((_, n)) => s.current_byte + k + n <= s.count,
        },
    }
}

/// Read a tag, then a REAL in the binary encoding from the bytes of the
/// buffer that follow it.
pub fn ber_decode_real(p_strm: &mut ByteStream, tag: BerTag, value: &mut DecodedReal, p_err_code: &mut ErrorCode) -> (r: bool)
    requires
        old(p_strm).wf(),
        real_within_data(*old(p_strm), tag),
    ensures
        final(p_strm).same_data(*old(p_strm)),
        (match spec_decode_tag(old(p_strm).avail(), tag) {
            Err(e) => !r && *final(p_err_code) == e,
            Ok(k) => match spec_dec_real(buffer_rest(*old(p_strm), old(p_strm).current_byte + k)) {
                None => !r && *final(p_err_code) == ErrorCode::InsufficientData
                    && final(p_strm).current_byte == old(p_strm).current_byte + k,
                Some((d, n)) => r && *final(value) == d && *final(p_err_code) == *old(p_err_code)
                    && final(p_strm).current_byte == old(p_strm).current_byte + k + n,
            },
        }),
        spec_decode_tag(old(p_strm).avail(), tag) is Err ==> final(p_strm).current_byte
            == old(p_strm).current_byte + content_read(old(p_strm).room(), uint_bytes(tag as nat) as int),
{
    let ghost s0 = *p_strm;
    if !ber_decode_tag(p_strm, tag, p_err_code) {
        return false;
    }
    let start = p_strm.current_byte as usize;
    let len = p_strm.buf.len();
    let mut rest: Vec<u8> = Vec::new();
    let mut i: usize = start;
    while i < len
        invariant
            start <= i <= len,
            len == p_strm.buf@.len(),
            rest@ == p_strm.buf@.subrange(start as int, i as int),
        decreases len - i,
    {
        rest.push(p_strm.buf[i]);
        i = i + 1;
        assert(rest@ =~= p_strm.buf@.subrange(start as int, i as int));
    }
    let ghost bytes = rest@;
    let mut tmp = BitStream::attach_buffer_no_zero(rest);
    let ghost t0 = tmp;
    proof {
        let a = octets_at(t0.bits(), 0);
        assert forall|k: int| 0 <= k < bytes.len() implies #[trigger] a[k] == bytes[k] by {
            lemma_buffer_byte(bytes, k);
        }
        assert(a =~= bytes);
        assert(bytes =~= buffer_rest(s0, start as int));
    }
    let (decoded, ok) = tmp.decode_real();
    if !ok {
        *p_err_code = ErrorCode::InsufficientData;
        return false;
    }
    *value = decoded;
    let consumed = tmp.get_length();
    p_strm.current_byte = p_strm.current_byte + consumed;
    true
}

} // verus!
