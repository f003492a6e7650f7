use lib::acn_ieee754::{
    acn_dec_real_ieee754_32_big_endian, acn_dec_real_ieee754_32_big_endian_fp32,
    acn_dec_real_ieee754_32_little_endian, acn_dec_real_ieee754_32_little_endian_fp32,
    acn_dec_real_ieee754_64_big_endian, acn_dec_real_ieee754_64_little_endian,
    acn_enc_real_ieee754_32_big_endian, acn_enc_real_ieee754_32_little_endian,
    acn_enc_real_ieee754_64_big_endian, acn_enc_real_ieee754_64_little_endian,
};
use lib::bitstream::BitStream;

fn reader(bytes: &[u8]) -> BitStream {
    BitStream::attach_buffer_no_zero(bytes.to_vec())
}

#[test]
fn ieee754_32_big_endian_octets_and_roundtrip() {
    let mut s = BitStream::new(vec![0u8; 4]);
    acn_enc_real_ieee754_32_big_endian(&mut s, 1.5f32.to_bits());
    assert_eq!(s.buf, vec![0x3F, 0xC0, 0x00, 0x00]);
    assert_eq!(s.get_length(), 4);
    let mut r = reader(&s.buf);
    let (bits, ok) = acn_dec_real_ieee754_32_big_endian(&mut r);
    assert!(ok);
    assert_eq!(f32::from_bits(bits) as f64, 1.5);
    let mut r = reader(&s.buf);
    let (bits, ok) = acn_dec_real_ieee754_32_big_endian_fp32(&mut r);
    assert!(ok);
    assert_eq!(f32::from_bits(bits), 1.5f32);
}

#[test]
fn ieee754_32_little_endian_octets_and_roundtrip() {
    let mut s = BitStream::new(vec![0u8; 4]);
    acn_enc_real_ieee754_32_little_endian(&mut s, (-2.0f32).to_bits());
    assert_eq!(s.buf, vec![0x00, 0x00, 0x00, 0xC0]);
    let mut r = reader(&s.buf);
    let (bits, ok) = acn_dec_real_ieee754_32_little_endian(&mut r);
    assert!(ok);
    assert_eq!(f32::from_bits(bits), -2.0f32);
    let mut r = reader(&s.buf);
    let (bits, ok) = acn_dec_real_ieee754_32_little_endian_fp32(&mut r);
    assert!(ok);
    assert_eq!(f32::from_bits(bits), -2.0f32);
}

#[test]
fn ieee754_64_big_endian_octets_and_roundtrip() {
    let mut s = BitStream::new(vec![0u8; 8]);
    acn_enc_real_ieee754_64_big_endian(&mut s, 1.0f64.to_bits());
    assert_eq!(s.buf, vec![0x3F, 0xF0, 0, 0, 0, 0, 0, 0]);
    let mut r = reader(&s.buf);
    let (bits, ok) = acn_dec_real_ieee754_64_big_endian(&mut r);
    assert!(ok);
    assert_eq!(f64::from_bits(bits), 1.0);
    assert_eq!(r.current_byte, 8);
}

#[test]
fn ieee754_64_little_endian_octets_and_roundtrip() {
    let v = -123.456f64;
    let mut s = BitStream::new(vec![0u8; 8]);
    acn_enc_real_ieee754_64_little_endian(&mut s, v.to_bits());
    assert_eq!(s.buf, v.to_le_bytes().to_vec());
    let mut r = reader(&s.buf);
    let (bits, ok) = acn_dec_real_ieee754_64_little_endian(&mut r);
    assert!(ok);
    assert_eq!(f64::from_bits(bits), v);
}

#[test]
fn ieee754_decoders_fail_on_short_input() {
    let mut r = reader(&[0x3F, 0xF0, 0, 0, 0, 0, 0]);
    let (bits, ok) = acn_dec_real_ieee754_64_big_endian(&mut r);
    assert!(!ok);
    assert_eq!(bits, 0);
    let mut r = reader(&[0x3F, 0xC0, 0x00]);
    let (_, ok) = acn_dec_real_ieee754_32_little_endian(&mut r);
    assert!(!ok);
}
