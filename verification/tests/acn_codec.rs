use lib::acn_decimal::{
    acn_dec_int_bcd_const_size, acn_dec_int_bcd_var_size_length_embedded,
    acn_dec_int_bcd_var_size_null_terminated, acn_dec_sint_ascii_const_size,
    acn_dec_sint_ascii_var_size_length_embedded, acn_dec_sint_ascii_var_size_null_terminated,
    acn_dec_uint_ascii_const_size, acn_dec_uint_ascii_var_size_length_embedded,
    acn_dec_uint_ascii_var_size_null_terminated, acn_enc_int_bcd_const_size,
    acn_enc_int_bcd_var_size_length_embedded, acn_enc_int_bcd_var_size_null_terminated,
    acn_enc_sint_ascii_const_size, acn_enc_sint_ascii_var_size_length_embedded,
    acn_enc_sint_ascii_var_size_null_terminated, acn_enc_uint_ascii_const_size,
    acn_enc_uint_ascii_var_size_length_embedded, acn_enc_uint_ascii_var_size_null_terminated,
};
use lib::acn_int::{
    acn_align_to_next_byte, acn_dec_int_positive_integer_const_size,
    acn_dec_int_positive_integer_const_size_big_endian_16,
    acn_dec_int_positive_integer_const_size_little_endian_16,
    acn_dec_int_positive_integer_const_size_little_endian_32,
    acn_dec_int_positive_integer_var_size_length_embedded, acn_dec_int_twos_complement_const_size,
    acn_dec_int_twos_complement_const_size_8, acn_dec_int_twos_complement_const_size_big_endian_16,
    acn_dec_int_twos_complement_const_size_little_endian_32,
    acn_dec_int_twos_complement_var_size_length_embedded, acn_dec_length,
    acn_enc_int_positive_integer_const_size, acn_enc_int_positive_integer_const_size_big_endian_16,
    acn_enc_int_positive_integer_const_size_little_endian_16,
    acn_enc_int_positive_integer_const_size_little_endian_32,
    acn_enc_int_positive_integer_var_size_length_embedded, acn_enc_int_twos_complement_const_size,
    acn_enc_int_twos_complement_const_size_8, acn_enc_int_twos_complement_const_size_big_endian_16,
    acn_enc_int_twos_complement_const_size_little_endian_32,
    acn_enc_int_twos_complement_var_size_length_embedded, acn_enc_length, milbus_decode,
    milbus_encode,
};
use lib::acn_typed::{
    acn_dec_int_positive_integer_const_size_big_endian_16_u8,
    acn_dec_int_positive_integer_const_size_u16, acn_dec_int_positive_integer_const_size_u8,
    acn_dec_int_twos_complement_const_size_big_endian_16_i8, acn_dec_uint_ascii_const_size_u8,
};
use lib::bitstream::BitStream;

fn fresh(n: usize) -> BitStream {
    BitStream::new(vec![0u8; n])
}

fn reader(bytes: &[u8]) -> BitStream {
    BitStream::attach_buffer_no_zero(bytes.to_vec())
}

fn written(bs: &BitStream) -> Vec<u8> {
    bs.buf[..bs.get_length() as usize].to_vec()
}

#[test]
fn uint_const_size_bits_roundtrip() {
    let mut bs = fresh(4);
    acn_enc_int_positive_integer_const_size(&mut bs, 5, 4);
    acn_enc_int_positive_integer_const_size(&mut bs, 9, 12);
    assert_eq!(written(&bs), vec![0x50, 0x09]);
    let mut rd = reader(&bs.buf);
    assert_eq!(acn_dec_int_positive_integer_const_size(&mut rd, 4), (5, true));
    assert_eq!(acn_dec_int_positive_integer_const_size(&mut rd, 12), (9, true));
}

#[test]
fn uint_big_and_little_endian_bytes() {
    let mut bs = fresh(8);
    acn_enc_int_positive_integer_const_size_big_endian_16(&mut bs, 0x1234);
    acn_enc_int_positive_integer_const_size_little_endian_16(&mut bs, 0x1234);
    acn_enc_int_positive_integer_const_size_little_endian_32(&mut bs, 0x0102_0304);
    assert_eq!(written(&bs), vec![0x12, 0x34, 0x34, 0x12, 0x04, 0x03, 0x02, 0x01]);
    let mut rd = reader(&bs.buf);
    assert_eq!(acn_dec_int_positive_integer_const_size_big_endian_16(&mut rd), (0x1234, true));
    assert_eq!(acn_dec_int_positive_integer_const_size_little_endian_16(&mut rd), (0x1234, true));
    assert_eq!(acn_dec_int_positive_integer_const_size_little_endian_32(&mut rd), (0x0102_0304, true));
    assert_eq!(acn_dec_int_positive_integer_const_size_big_endian_16(&mut rd), (0, false));
}

#[test]
fn uint_var_size_roundtrip() {
    let mut bs = fresh(8);
    acn_enc_int_positive_integer_var_size_length_embedded(&mut bs, 300);
    assert_eq!(written(&bs), vec![2, 0x01, 0x2C]);
    let mut rd = reader(&bs.buf);
    assert_eq!(acn_dec_int_positive_integer_var_size_length_embedded(&mut rd), (300, true));
}

#[test]
fn uint_var_size_rejects_long_count() {
    let mut rd = reader(&[9, 0, 0, 0, 0, 0, 0, 0, 0, 1]);
    assert_eq!(acn_dec_int_positive_integer_var_size_length_embedded(&mut rd), (0, false));
}

#[test]
fn twos_complement_roundtrip() {
    let mut bs = fresh(8);
    acn_enc_int_twos_complement_const_size_8(&mut bs, -2);
    acn_enc_int_twos_complement_const_size_big_endian_16(&mut bs, -300);
    acn_enc_int_twos_complement_const_size(&mut bs, -3, 4);
    acn_enc_int_twos_complement_const_size(&mut bs, 5, 4);
    assert_eq!(written(&bs), vec![0xFE, 0xFE, 0xD4, 0xD5]);
    let mut rd = reader(&bs.buf);
    assert_eq!(acn_dec_int_twos_complement_const_size_8(&mut rd), (-2, true));
    assert_eq!(acn_dec_int_twos_complement_const_size_big_endian_16(&mut rd), (-300, true));
    assert_eq!(acn_dec_int_twos_complement_const_size(&mut rd, 4), (-3, true));
    assert_eq!(acn_dec_int_twos_complement_const_size(&mut rd, 4), (5, true));
}

#[test]
fn twos_complement_little_endian_and_var_size() {
    let mut bs = fresh(16);
    acn_enc_int_twos_complement_const_size_little_endian_32(&mut bs, -2);
    acn_enc_int_twos_complement_var_size_length_embedded(&mut bs, -1);
    acn_enc_int_twos_complement_var_size_length_embedded(&mut bs, 128);
    assert_eq!(written(&bs), vec![0xFE, 0xFF, 0xFF, 0xFF, 1, 0xFF, 2, 0x00, 0x80]);
    let mut rd = reader(&bs.buf);
    assert_eq!(acn_dec_int_twos_complement_const_size_little_endian_32(&mut rd), (-2, true));
    assert_eq!(acn_dec_int_twos_complement_var_size_length_embedded(&mut rd), (-1, true));
    assert_eq!(acn_dec_int_twos_complement_var_size_length_embedded(&mut rd), (128, true));
}

#[test]
fn twos_complement_min_value_roundtrip() {
    let mut bs = fresh(9);
    acn_enc_int_twos_complement_var_size_length_embedded(&mut bs, i64::MIN);
    let mut rd = reader(&bs.buf);
    assert_eq!(acn_dec_int_twos_complement_var_size_length_embedded(&mut rd), (i64::MIN, true));
}

#[test]
fn bcd_const_size_roundtrip() {
    let mut bs = fresh(4);
    acn_enc_int_bcd_const_size(&mut bs, 1234, 6);
    assert_eq!(written(&bs), vec![0x00, 0x12, 0x34]);
    let mut rd = reader(&bs.buf);
    assert_eq!(acn_dec_int_bcd_const_size(&mut rd, 6), (1234, true));
}

#[test]
fn bcd_rejects_non_digit_nibble() {
    let mut rd = reader(&[0x1A]);
    assert_eq!(acn_dec_int_bcd_const_size(&mut rd, 2), (0, false));
}

#[test]
fn bcd_rejects_overflow() {
    let mut rd = reader(&[0x99; 11]);
    assert_eq!(acn_dec_int_bcd_const_size(&mut rd, 21), (0, false));
}

#[test]
fn bcd_var_size_roundtrip() {
    let mut bs = fresh(8);
    acn_enc_int_bcd_var_size_length_embedded(&mut bs, 42);
    acn_enc_int_bcd_var_size_null_terminated(&mut bs, 907);
    assert_eq!(written(&bs), vec![2, 0x42, 0x90, 0x7F]);
    let mut rd = reader(&bs.buf);
    assert_eq!(acn_dec_int_bcd_var_size_length_embedded(&mut rd), (42, true));
    assert_eq!(acn_dec_int_bcd_var_size_null_terminated(&mut rd), (907, true));
}

#[test]
fn bcd_var_size_rejects_more_than_sixteen_digits() {
    let mut bs = fresh(16);
    acn_enc_int_bcd_var_size_length_embedded(&mut bs, 10_000_000_000_000_000);
    let mut rd = reader(&bs.buf);
    assert_eq!(acn_dec_int_bcd_var_size_length_embedded(&mut rd), (0, false));
}

#[test]
fn bcd_null_terminated_needs_terminator() {
    let mut rd = reader(&[0x12, 0x34]);
    assert_eq!(acn_dec_int_bcd_var_size_null_terminated(&mut rd), (0, false));
}

#[test]
fn ascii_const_size_roundtrip() {
    let mut bs = fresh(8);
    acn_enc_uint_ascii_const_size(&mut bs, 42, 4);
    acn_enc_sint_ascii_const_size(&mut bs, -42, 4);
    assert_eq!(written(&bs), b"0042-042".to_vec());
    let mut rd = reader(&bs.buf);
    assert_eq!(acn_dec_uint_ascii_const_size(&mut rd, 4), (42, true));
    assert_eq!(acn_dec_sint_ascii_const_size(&mut rd, 4), (-42, true));
}

#[test]
fn ascii_rejects_bad_sign_and_digit() {
    let mut rd = reader(b"*12");
    assert_eq!(acn_dec_sint_ascii_const_size(&mut rd, 3), (0, false));
    let mut rd2 = reader(b"1x");
    assert_eq!(acn_dec_uint_ascii_const_size(&mut rd2, 2), (0, false));
}

#[test]
fn ascii_var_size_roundtrip() {
    let mut bs = fresh(16);
    acn_enc_uint_ascii_var_size_length_embedded(&mut bs, 123);
    acn_enc_sint_ascii_var_size_length_embedded(&mut bs, -5);
    acn_enc_uint_ascii_var_size_length_embedded(&mut bs, 0);
    assert_eq!(written(&bs), vec![3, b'1', b'2', b'3', 2, b'-', b'5', 1, b'0']);
    let mut rd = reader(&bs.buf);
    assert_eq!(acn_dec_uint_ascii_var_size_length_embedded(&mut rd), (123, true));
    assert_eq!(acn_dec_sint_ascii_var_size_length_embedded(&mut rd), (-5, true));
    assert_eq!(acn_dec_uint_ascii_var_size_length_embedded(&mut rd), (0, true));
}

#[test]
fn ascii_null_terminated_roundtrip() {
    let mut bs = fresh(16);
    acn_enc_uint_ascii_var_size_null_terminated(&mut bs, 123, &[0]);
    acn_enc_sint_ascii_var_size_null_terminated(&mut bs, -77, &[b';', b';']);
    assert_eq!(written(&bs), b"123\0-77;;".to_vec());
    let mut rd = reader(&bs.buf);
    assert_eq!(acn_dec_uint_ascii_var_size_null_terminated(&mut rd, &[0]), (123, true));
    assert_eq!(acn_dec_sint_ascii_var_size_null_terminated(&mut rd, &[b';', b';']), (-77, true));
}

#[test]
fn ascii_null_terminated_missing_terminator_fails() {
    let mut rd = reader(b"1234");
    assert_eq!(acn_dec_uint_ascii_var_size_null_terminated(&mut rd, &[0]), (0, false));
}

#[test]
fn typed_decoders_check_range() {
    let mut rd = reader(&[0x01, 0x2C, 0x00, 0xC8]);
    assert_eq!(acn_dec_int_positive_integer_const_size_big_endian_16_u8(&mut rd), (0, false));
    let mut rd2 = reader(&[0x00, 0xC8]);
    assert_eq!(acn_dec_int_positive_integer_const_size_big_endian_16_u8(&mut rd2), (200, true));
    let mut rd3 = reader(&[0xFF, 0x80]);
    assert_eq!(acn_dec_int_twos_complement_const_size_big_endian_16_i8(&mut rd3), (-128, true));
    let mut rd4 = reader(&[0xFF, 0x7F]);
    assert_eq!(acn_dec_int_twos_complement_const_size_big_endian_16_i8(&mut rd4), (0, false));
    let mut rd5 = reader(b"256");
    assert_eq!(acn_dec_uint_ascii_const_size_u8(&mut rd5, 3), (0, false));
}

#[test]
fn length_field_roundtrip() {
    let mut bs = fresh(2);
    acn_enc_length(&mut bs, 5, 7);
    let mut rd = reader(&bs.buf);
    assert_eq!(acn_dec_length(&mut rd, 7), (5, true));
    assert_eq!(bs.buf[0], 0x0A);
}

#[test]
fn alignment_moves_to_next_byte() {
    let mut bs = fresh(2);
    bs.append_bits(0b101, 3);
    acn_align_to_next_byte(&mut bs, true);
    assert_eq!(bs.current_byte, 1);
    assert_eq!(bs.current_bit, 0);
    assert_eq!(bs.buf[0], 0xA0);
}

#[test]
fn milbus_zero_stands_for_thirty_two() {
    assert_eq!(milbus_encode(32), 0);
    assert_eq!(milbus_encode(7), 7);
    assert_eq!(milbus_decode(0), 32);
    assert_eq!(milbus_decode(milbus_encode(32)), 32);
}

#[test]
fn bcd_null_terminated_stops_at_any_nibble_above_nine() {
    let mut rd = reader(&[0x12, 0x3A, 0xFF]);
    assert_eq!(acn_dec_int_bcd_var_size_null_terminated(&mut rd), (123, true));
    assert_eq!(rd.current_byte, 2);
    let mut rd2 = reader(&[0xC0]);
    assert_eq!(acn_dec_int_bcd_var_size_null_terminated(&mut rd2), (0, true));
    assert_eq!(rd2.current_bit, 4);
}

#[test]
fn typed_decoder_consumes_out_of_range_field() {
    let mut rd = reader(&[0x01, 0x2C, 0x00, 0xC8]);
    assert_eq!(acn_dec_int_positive_integer_const_size_big_endian_16_u8(&mut rd), (0, false));
    assert_eq!(rd.current_byte, 2);
    assert_eq!(acn_dec_int_positive_integer_const_size_big_endian_16_u8(&mut rd), (200, true));
}

#[test]
fn field_decoders_accept_any_size() {
    // A 72-bit field keeps its last 64 bits.
    let bytes = [0xAB, 0, 0, 0, 0, 0, 0, 0x01, 0x02];
    let mut rd = reader(&bytes);
    assert_eq!(acn_dec_int_positive_integer_const_size(&mut rd, 72), (0x0102, true));
    assert_eq!(rd.current_byte, 9);
    // A field of no bits (or fewer) reads as 0 and consumes nothing.
    let mut rd2 = reader(&[0xFF]);
    assert_eq!(acn_dec_int_positive_integer_const_size(&mut rd2, -3), (0, true));
    assert_eq!(rd2.current_byte, 0);
    // Signed: a field of no bits reads as -1 when the next bit is set.
    let mut rd3 = reader(&[0x80]);
    assert_eq!(acn_dec_int_twos_complement_const_size(&mut rd3, -1), (-1, true));
    let mut rd4 = reader(&[0x00, 0xFF, 0xFF, 0xFF, 0xFF, 0xFF, 0xFF, 0xFF, 0xFE]);
    assert_eq!(acn_dec_int_twos_complement_const_size(&mut rd4, 72), (-2, true));
    // Narrowed: the 72-bit field above holds 0x0102, which is no u8, but is a u16.
    let mut rd5 = reader(&bytes);
    assert_eq!(acn_dec_int_positive_integer_const_size_u8(&mut rd5, 72), (0, false));
    assert_eq!(rd5.current_byte, 9);
    let mut rd6 = reader(&bytes);
    assert_eq!(acn_dec_int_positive_integer_const_size_u16(&mut rd6, 72), (0x0102, true));
}
