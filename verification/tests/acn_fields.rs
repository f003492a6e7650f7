use lib::acn_patch::{
    acn_bit_stream_distance_in_bits, acn_bit_stream_distance_in_bytes, acn_bit_stream_get_pos,
    acn_init_det_bool1, acn_init_det_const_size, acn_init_det_ia5string_fix_size, acn_init_det_u16_le,
    acn_init_det_u8, acn_patch_det_bool1, acn_patch_det_const_size, acn_patch_det_ia5string_fix_size,
    acn_patch_det_u16_le, acn_patch_det_u8, AcnBitStreamPos, AcnInsertedFieldRef,
};
use lib::acn_pattern::{
    bit_stream_decode_true_false_boolean, bit_stream_read_bit_pattern,
    bit_stream_read_bit_pattern_ignore_value,
};
use lib::acn_string::{
    acn_dec_ia5string_char_index_external_field_determinant, acn_dec_string_ascii_external_field_determinant,
    acn_dec_string_ascii_fix_size, acn_dec_string_ascii_internal_field_determinant,
    acn_dec_string_char_index_fix_size, acn_enc_ia5string_char_index_external_field_determinant,
    acn_enc_string_ascii_fix_size, acn_enc_string_ascii_internal_field_determinant,
    acn_enc_string_ascii_null_terminated, acn_enc_string_ascii_null_terminated_mult,
    acn_enc_string_char_index_fix_size, acn_enc_string_char_index_internal_field_determinant,
    acn_dec_string_char_index_internal_field_determinant,
};
use lib::bitstream::{get_char_index, BitStream};
use lib::ErrorCode;

fn fresh(n: usize) -> BitStream {
    BitStream::new(vec![0u8; n])
}

fn reader(bytes: &[u8]) -> BitStream {
    BitStream::attach_buffer_no_zero(bytes.to_vec())
}

#[test]
fn bit_pattern_matches_whole_and_partial_bytes() {
    let mut rd = reader(&[0xA5, 0xF0]);
    assert_eq!(bit_stream_read_bit_pattern(&mut rd, &[0xA5, 0xF3], 12), (true, true));
    let mut rd2 = reader(&[0xA5, 0xF0]);
    assert_eq!(bit_stream_read_bit_pattern(&mut rd2, &[0xA5, 0xF3], 16), (false, true));
    let mut rd3 = reader(&[0xA5]);
    assert_eq!(bit_stream_read_bit_pattern(&mut rd3, &[0xA5, 0xF3], 12), (false, false));
}

#[test]
fn bit_pattern_skip() {
    let mut rd = reader(&[0x00, 0x00]);
    assert!(bit_stream_read_bit_pattern_ignore_value(&mut rd, 11));
    assert_eq!(rd.current_byte, 1);
    assert_eq!(rd.current_bit, 3);
    assert!(!bit_stream_read_bit_pattern_ignore_value(&mut rd, 6));
}

#[test]
fn true_false_patterns() {
    let t = [0xF0u8];
    let f = [0x0Fu8];
    let mut rd = reader(&[0xF0, 0x0F, 0x33]);
    assert_eq!(bit_stream_decode_true_false_boolean(&mut rd, &t, &f, 8), (true, true));
    assert_eq!(bit_stream_decode_true_false_boolean(&mut rd, &t, &f, 8), (false, true));
    assert_eq!(bit_stream_decode_true_false_boolean(&mut rd, &t, &f, 8), (false, false));
    assert_eq!(bit_stream_decode_true_false_boolean(&mut rd, &t, &f, 8), (false, false));
}

#[test]
fn ascii_string_fix_size_roundtrip() {
    let mut bs = fresh(4);
    acn_enc_string_ascii_fix_size(&mut bs, 3, b"XYZW");
    assert_eq!(&bs.buf[..3], b"XYZ");
    let mut rd = reader(&bs.buf);
    let mut out = [0xEEu8; 4];
    assert!(acn_dec_string_ascii_fix_size(&mut rd, 3, &mut out));
    assert_eq!(out, [b'X', b'Y', b'Z', 0]);
}

#[test]
fn ascii_string_terminated_encoders() {
    let mut bs = fresh(8);
    acn_enc_string_ascii_null_terminated(&mut bs, 10, b'$', b"ab\0cd");
    acn_enc_string_ascii_null_terminated_mult(&mut bs, 2, &[0, 0], b"xyz");
    assert_eq!(&bs.buf[..7], &[b'a', b'b', b'$', b'x', b'y', 0, 0]);
}

#[test]
fn ascii_string_with_length_determinant() {
    let mut bs = fresh(4);
    acn_enc_string_ascii_internal_field_determinant(&mut bs, 5, 0, b"Hi\0\0\0");
    // 3 bits for the length 2 (range 0..5), then the characters
    let mut rd = reader(&bs.buf);
    let mut out = [0u8; 6];
    assert!(acn_dec_string_ascii_internal_field_determinant(&mut rd, 5, 0, &mut out));
    assert_eq!(&out[..3], b"Hi\0");
    let mut rd2 = reader(b"abc");
    let mut out2 = [0u8; 4];
    assert!(!acn_dec_string_ascii_external_field_determinant(&mut rd2, 2, 3, &mut out2));
    assert!(acn_dec_string_ascii_external_field_determinant(&mut rd2, 3, 3, &mut out2));
    assert_eq!(&out2, b"abc\0");
}

#[test]
fn char_index_strings_roundtrip() {
    let set = b"ABC";
    assert_eq!(get_char_index(b'C', set), 2);
    assert_eq!(get_char_index(b'Q', set), 0);
    let mut bs = fresh(2);
    acn_enc_string_char_index_fix_size(&mut bs, 3, set, b"CAB");
    assert_eq!(bs.buf[0], 0b1000_0100);
    let mut rd = reader(&bs.buf);
    let mut out = [0u8; 4];
    assert!(acn_dec_string_char_index_fix_size(&mut rd, 3, set, &mut out));
    assert_eq!(&out[..3], b"CAB");
}

#[test]
fn char_index_internal_determinant_roundtrip() {
    let set = b"01";
    let mut bs = fresh(2);
    acn_enc_string_char_index_internal_field_determinant(&mut bs, 7, set, 0, b"1101\0");
    let mut rd = reader(&bs.buf);
    let mut out = [0u8; 8];
    assert!(acn_dec_string_char_index_internal_field_determinant(&mut rd, 7, set, 0, &mut out));
    assert_eq!(&out[..5], b"1101\0");
}

#[test]
fn char_index_rejects_index_outside_set() {
    let mut rd = reader(&[0xC0]);
    let mut out = [0u8; 2];
    assert!(!acn_dec_string_char_index_fix_size(&mut rd, 1, b"ABC", &mut out));
}

#[test]
fn ia5_char_index_roundtrip() {
    let mut bs = fresh(2);
    acn_enc_ia5string_char_index_external_field_determinant(&mut bs, 2, b"Az");
    assert_eq!(bs.buf[0], 0x83);
    let mut rd = reader(&bs.buf);
    let mut out = [0u8; 3];
    assert!(acn_dec_ia5string_char_index_external_field_determinant(&mut rd, 2, 2, &mut out));
    assert_eq!(&out, b"Az\0");
}

#[test]
fn determinant_patched_in_place() {
    let mut bs = fresh(4);
    let mut det = AcnInsertedFieldRef::new();
    acn_init_det_u8(&mut bs, &mut det);
    bs.append_byte0(0x77);
    assert_eq!(acn_patch_det_u8(42, &mut bs, &mut det), (true, None));
    assert_eq!(bs.buf[0], 42);
    assert_eq!(bs.buf[1], 0x77);
    assert_eq!(bs.current_byte, 2);
    assert_eq!(acn_patch_det_u8(42, &mut bs, &mut det), (true, None));
    assert_eq!(
        acn_patch_det_u8(43, &mut bs, &mut det),
        (false, Some(ErrorCode::AcnDetConsistencyMismatch))
    );
    assert_eq!(bs.buf[0], 42);
}

#[test]
fn little_endian_and_bit_determinants() {
    let mut bs = fresh(4);
    let mut d1 = AcnInsertedFieldRef::new();
    let mut d2 = AcnInsertedFieldRef::new();
    let mut d3 = AcnInsertedFieldRef::new();
    acn_init_det_bool1(&mut bs, &mut d1);
    acn_init_det_const_size(&mut bs, 7, &mut d2);
    acn_init_det_u16_le(&mut bs, &mut d3);
    assert_eq!(acn_patch_det_bool1(5, &mut bs, &mut d1), (true, None));
    assert_eq!(acn_patch_det_const_size(3, &mut bs, 7, &mut d2), (true, None));
    assert_eq!(acn_patch_det_u16_le(0x0102, &mut bs, &mut d3), (true, None));
    assert_eq!(&bs.buf[..3], &[0x83, 0x02, 0x01]);
}

#[test]
fn ia5_determinant_padded_with_spaces() {
    let mut bs = fresh(4);
    let mut det = AcnInsertedFieldRef::new();
    acn_init_det_ia5string_fix_size(&mut bs, 3, &mut det);
    assert_eq!(acn_patch_det_ia5string_fix_size(b"AB\0", &mut bs, 3, &mut det), (true, None));
    // 'A' = 1000001, 'B' = 1000010, ' ' = 0100000
    assert_eq!(&bs.buf[..3], &[0x83, 0x09, 0x00]);
    assert_eq!(acn_patch_det_ia5string_fix_size(b"AB", &mut bs, 3, &mut det), (true, None));
    assert_eq!(
        acn_patch_det_ia5string_fix_size(b"AC", &mut bs, 3, &mut det),
        (false, Some(ErrorCode::AcnDetConsistencyMismatch))
    );
}

#[test]
fn distances_between_positions() {
    let mut bs = fresh(4);
    let start = acn_bit_stream_get_pos(&bs);
    bs.append_bits(0, 13);
    let end = acn_bit_stream_get_pos(&bs);
    assert_eq!(acn_bit_stream_distance_in_bits(start, end), 13);
    assert_eq!(acn_bit_stream_distance_in_bytes(start, end), 2);
    let p = AcnBitStreamPos::default();
    assert_eq!(p.current_byte, 0);
    assert_eq!(p.current_bit, 0);
}
