use lib::ber::{
    ber_decode_bit_string, ber_decode_boolean, ber_decode_ia5_string, ber_decode_integer,
    ber_decode_length, ber_decode_null, ber_decode_octet_string, ber_decode_tag, ber_decode_two_zeroes,
    ber_encode_bit_string, ber_encode_boolean, ber_encode_ia5_string, ber_encode_integer,
    ber_encode_length_end, ber_encode_length_start, ber_encode_null, ber_encode_octet_string,
    ber_encode_tag, la_next_two_bytes_00, next_tag_matches, ber_decode_real, ber_encode_real,
};
use lib::ber_real::DecodedReal;
use lib::bytestream::ByteStream;
use lib::{Asn1SccSint, BerTag, ErrorCode};

/// BER tag of INTEGER (universal, primitive, tag 0x02).
const TAG_INTEGER: BerTag = 0x02;
/// BER tag of BOOLEAN (universal, primitive, tag 0x01).
const TAG_BOOLEAN: BerTag = 0x01;
/// BER tag of REAL (universal, primitive, tag 0x09).
const TAG_REAL: BerTag = 0x09;
/// BER tag of NULL (universal, primitive, tag 0x05).
const TAG_NULL: BerTag = 0x05;
/// BER tag of IA5String (universal, primitive, tag 0x16).
const TAG_IA5STRING: BerTag = 0x16;
/// BER tag of BIT STRING (universal, primitive, tag 0x03).
const TAG_BIT_STRING: BerTag = 0x03;
/// BER tag of OCTET STRING (universal, primitive, tag 0x04).
const TAG_OCTET_STRING: BerTag = 0x04;
/// BER tag of SEQUENCE (universal, constructed, tag 0x10).
const TAG_SEQUENCE: BerTag = 0x30;

/// The double that a decoded REAL stands for.
fn to_f64(d: DecodedReal) -> f64 {
    match d {
        DecodedReal::Zero => 0.0,
        DecodedReal::PlusInfinity => f64::INFINITY,
        DecodedReal::MinusInfinity => f64::NEG_INFINITY,
        DecodedReal::Binary { negative, mantissa, exponent } => {
            let x = (mantissa as f64) * 2f64.powi(exponent as i32);
            if negative {
                -x
            } else {
                x
            }
        }
    }
}

#[test]
fn test_ber_encode_decode_tag() {
    let buf = [0u8; 16];
    let mut strm = ByteStream::init(buf.to_vec());
    let mut err = ErrorCode::InsufficientData;

    assert!(ber_encode_tag(&mut strm, TAG_INTEGER, &mut err));
    assert_eq!(strm.current_byte, 1);
    assert_eq!(strm.buf[0], 0x02);

    // Reset for decode
    strm.current_byte = 0;
    assert!(ber_decode_tag(&mut strm, TAG_INTEGER, &mut err));
    assert_eq!(strm.current_byte, 1);
}

#[test]
fn test_ber_encode_decode_tag_multibyte() {
    let buf = [0u8; 16];
    let mut strm = ByteStream::init(buf.to_vec());
    let mut err = ErrorCode::InsufficientData;

    // A tag that requires 2 bytes
    let tag: BerTag = 0x0103;
    assert!(ber_encode_tag(&mut strm, tag, &mut err));
    assert_eq!(strm.current_byte, 2);

    strm.current_byte = 0;
    assert!(ber_decode_tag(&mut strm, tag, &mut err));
}

#[test]
fn test_ber_decode_tag_mismatch() {
    let buf = [0u8; 16];
    let mut strm = ByteStream::init(buf.to_vec());
    let mut err = ErrorCode::InsufficientData;

    ber_encode_tag(&mut strm, TAG_INTEGER, &mut err);
    strm.current_byte = 0;
    assert!(!ber_decode_tag(&mut strm, TAG_BOOLEAN, &mut err));
    assert_eq!(err, ErrorCode::InsufficientData);
}

#[test]
fn test_ber_decode_tag_constructed_vs_primitive() {
    // Tag 0x30 (SEQUENCE, constructed) should match expected 0x10 (SEQUENCE, primitive)
    // because the primitive/constructed bit (0x20) is ignored.
    let mut buf = [0u8; 16];
    buf[0] = 0x30;
    let mut strm = ByteStream::init(buf.to_vec());
    // Re-write the byte since init zeroes the buffer
    strm.buf[0] = 0x30;
    strm.current_byte = 0;
    strm.count = 16;

    let mut err = ErrorCode::InsufficientData;
    assert!(ber_decode_tag(&mut strm, 0x10, &mut err));
}

#[test]
fn test_next_tag_matches() {
    let buf = [0u8; 16];
    let mut strm = ByteStream::init(buf.to_vec());
    let mut err = ErrorCode::InsufficientData;

    ber_encode_tag(&mut strm, TAG_INTEGER, &mut err);
    strm.current_byte = 0;

    assert!(next_tag_matches(&mut strm, TAG_INTEGER));
    assert_eq!(strm.current_byte, 0); // cursor restored
    assert!(!next_tag_matches(&mut strm, TAG_BOOLEAN));
}

#[test]
fn test_ber_encode_decode_length_start_end() {
    let buf = [0u8; 16];
    let mut strm = ByteStream::init(buf.to_vec());
    let mut err = ErrorCode::InsufficientData;

    assert!(ber_encode_length_start(&mut strm, &mut err));
    assert_eq!(strm.buf[0], 0x80);
    assert!(ber_encode_length_end(&mut strm, &mut err));
    assert_eq!(strm.buf[1], 0x00);
    assert_eq!(strm.buf[2], 0x00);
}

#[test]
fn test_ber_decode_length_short() {
    let mut buf = [0u8; 16];
    buf[0] = 0x05; // short form, length = 5
    let mut strm = ByteStream::init(buf.to_vec());
    strm.buf[0] = 0x05;
    strm.current_byte = 0;
    strm.count = 16;

    let mut err = ErrorCode::InsufficientData;
    let mut value: i32 = 0;
    assert!(ber_decode_length(&mut strm, &mut value, &mut err));
    assert_eq!(value, 5);
}

#[test]
fn test_ber_decode_length_long() {
    let buf = [0u8; 16];
    let mut strm = ByteStream::init(buf.to_vec());
    let mut err = ErrorCode::InsufficientData;

    // Long form: 0x82 means 2 length bytes follow
    strm.buf[0] = 0x82;
    strm.buf[1] = 0x01;
    strm.buf[2] = 0x00; // length = 256
    strm.current_byte = 0;
    strm.count = 16;

    let mut value: i32 = 0;
    assert!(ber_decode_length(&mut strm, &mut value, &mut err));
    assert_eq!(value, 256);
}

#[test]
fn test_ber_decode_length_indefinite() {
    let buf = [0u8; 16];
    let mut strm = ByteStream::init(buf.to_vec());
    let mut err = ErrorCode::InsufficientData;

    strm.buf[0] = 0x80; // indefinite length
    strm.current_byte = 0;
    strm.count = 16;

    let mut value: i32 = 0;
    assert!(ber_decode_length(&mut strm, &mut value, &mut err));
    assert_eq!(value, -1);
}

#[test]
fn test_ber_decode_two_zeroes() {
    let buf = [0u8; 16];
    let mut strm = ByteStream::init(buf.to_vec());
    let mut err = ErrorCode::InsufficientData;

    strm.buf[0] = 0x00;
    strm.buf[1] = 0x00;
    strm.current_byte = 0;
    strm.count = 16;

    assert!(ber_decode_two_zeroes(&mut strm, &mut err));
    assert_eq!(strm.current_byte, 2);
}

#[test]
fn test_ber_decode_two_zeroes_fail() {
    let buf = [0u8; 16];
    let mut strm = ByteStream::init(buf.to_vec());
    let mut err = ErrorCode::InsufficientData;

    strm.buf[0] = 0x01;
    strm.buf[1] = 0x00;
    strm.current_byte = 0;
    strm.count = 16;

    assert!(!ber_decode_two_zeroes(&mut strm, &mut err));
    assert_eq!(err, ErrorCode::BerLengthMismatch);
}

#[test]
fn test_la_next_two_bytes_00() {
    let buf = [0u8; 16];
    let mut strm = ByteStream::init(buf.to_vec());
    strm.buf[0] = 0x00;
    strm.buf[1] = 0x00;
    strm.buf[2] = 0xFF;
    strm.current_byte = 0;
    strm.count = 16;

    assert!(la_next_two_bytes_00(&mut strm));
    assert_eq!(strm.current_byte, 0); // cursor restored

    // Non-zero should return false
    strm.buf[0] = 0x01;
    assert!(!la_next_two_bytes_00(&mut strm));
}

#[test]
fn test_ber_encode_decode_integer_positive() {
    let buf = [0u8; 64];
    let mut strm = ByteStream::init(buf.to_vec());
    let mut err = ErrorCode::InsufficientData;

    assert!(ber_encode_integer(&mut strm, TAG_INTEGER, 42, &mut err));
    // tag(1) + length(1) + content(1) = 3 bytes
    assert_eq!(strm.current_byte, 3);
    assert_eq!(strm.buf[0], TAG_INTEGER as u8);
    assert_eq!(strm.buf[1], 1); // length
    assert_eq!(strm.buf[2], 42);

    // Decode
    strm.current_byte = 0;
    let mut value: Asn1SccSint = 0;
    assert!(ber_decode_integer(&mut strm, TAG_INTEGER, &mut value, &mut err));
    assert_eq!(value, 42);
}

#[test]
fn test_ber_encode_decode_integer_negative() {
    let buf = [0u8; 64];
    let mut strm = ByteStream::init(buf.to_vec());
    let mut err = ErrorCode::InsufficientData;

    assert!(ber_encode_integer(&mut strm, TAG_INTEGER, -1, &mut err));
    // -1 in two's complement: 0xFF as a single byte
    assert_eq!(strm.buf[1], 1); // length = 1
    assert_eq!(strm.buf[2], 0xFF);

    strm.current_byte = 0;
    let mut value: Asn1SccSint = 0;
    assert!(ber_decode_integer(&mut strm, TAG_INTEGER, &mut value, &mut err));
    assert_eq!(value, -1);
}

#[test]
fn test_ber_encode_decode_integer_large() {
    let buf = [0u8; 64];
    let mut strm = ByteStream::init(buf.to_vec());
    let mut err = ErrorCode::InsufficientData;

    let val: Asn1SccSint = 300;
    assert!(ber_encode_integer(&mut strm, TAG_INTEGER, val, &mut err));
    assert_eq!(strm.buf[1], 2); // length = 2
    assert_eq!(strm.buf[2], 0x01);
    assert_eq!(strm.buf[3], 0x2C);

    strm.current_byte = 0;
    let mut value: Asn1SccSint = 0;
    assert!(ber_decode_integer(&mut strm, TAG_INTEGER, &mut value, &mut err));
    assert_eq!(value, 300);
}

#[test]
fn test_ber_encode_decode_integer_zero() {
    let buf = [0u8; 64];
    let mut strm = ByteStream::init(buf.to_vec());
    let mut err = ErrorCode::InsufficientData;

    assert!(ber_encode_integer(&mut strm, TAG_INTEGER, 0, &mut err));
    assert_eq!(strm.buf[1], 1); // length = 1
    assert_eq!(strm.buf[2], 0);

    strm.current_byte = 0;
    let mut value: Asn1SccSint = -1;
    assert!(ber_decode_integer(&mut strm, TAG_INTEGER, &mut value, &mut err));
    assert_eq!(value, 0);
}

#[test]
fn test_ber_encode_decode_boolean_true() {
    let buf = [0u8; 64];
    let mut strm = ByteStream::init(buf.to_vec());
    let mut err = ErrorCode::InsufficientData;

    assert!(ber_encode_boolean(&mut strm, TAG_BOOLEAN, true, &mut err));
    assert_eq!(strm.buf[0], TAG_BOOLEAN as u8);
    assert_eq!(strm.buf[1], 1); // length = 1
    assert_eq!(strm.buf[2], 0xFF);

    strm.current_byte = 0;
    let mut value: bool = false;
    assert!(ber_decode_boolean(&mut strm, TAG_BOOLEAN, &mut value, &mut err));
    assert!(value);
}

#[test]
fn test_ber_encode_decode_boolean_false() {
    let buf = [0u8; 64];
    let mut strm = ByteStream::init(buf.to_vec());
    let mut err = ErrorCode::InsufficientData;

    assert!(ber_encode_boolean(&mut strm, TAG_BOOLEAN, false, &mut err));
    assert_eq!(strm.buf[2], 0x00);

    strm.current_byte = 0;
    let mut value: bool = true;
    assert!(ber_decode_boolean(&mut strm, TAG_BOOLEAN, &mut value, &mut err));
    assert!(!value);
}

#[test]
fn test_ber_encode_decode_null() {
    let buf = [0u8; 64];
    let mut strm = ByteStream::init(buf.to_vec());
    let mut err = ErrorCode::InsufficientData;

    assert!(ber_encode_null(&mut strm, TAG_NULL, &mut err));
    assert_eq!(strm.buf[0], TAG_NULL as u8);
    assert_eq!(strm.buf[1], 0); // length = 0
    assert_eq!(strm.current_byte, 2);

    strm.current_byte = 0;
    assert!(ber_decode_null(&mut strm, TAG_NULL, &mut err));
}

#[test]
fn test_ber_decode_null_nonzero_length() {
    let buf = [0u8; 64];
    let mut strm = ByteStream::init(buf.to_vec());
    let mut err = ErrorCode::InsufficientData;

    strm.buf[0] = TAG_NULL as u8;
    strm.buf[1] = 1; // length = 1 (should be 0 for NULL)
    strm.current_byte = 0;
    strm.count = 64;

    assert!(!ber_decode_null(&mut strm, TAG_NULL, &mut err));
    assert_eq!(err, ErrorCode::BerLengthMismatch);
}

#[test]
fn test_ber_encode_decode_ia5_string() {
    let buf = [0u8; 64];
    let mut strm = ByteStream::init(buf.to_vec());
    let mut err = ErrorCode::InsufficientData;

    let text = b"Hello";
    assert!(ber_encode_ia5_string(&mut strm, TAG_IA5STRING, text, 5, &mut err));
    assert_eq!(strm.buf[0], TAG_IA5STRING as u8);
    assert_eq!(strm.buf[1], 5); // length = 5
    assert_eq!(&strm.buf[2..7], b"Hello");

    strm.current_byte = 0;
    let mut value = [0u8; 16];
    assert!(ber_decode_ia5_string(&mut strm, TAG_IA5STRING, &mut value, 16, &mut err));
    assert_eq!(&value[..5], b"Hello");
}

#[test]
fn test_ber_encode_decode_ia5_string_truncated() {
    let buf = [0u8; 64];
    let mut strm = ByteStream::init(buf.to_vec());
    let mut err = ErrorCode::InsufficientData;

    let text = b"Hello World";
    assert!(ber_encode_ia5_string(&mut strm, TAG_IA5STRING, text, 11, &mut err));

    // Decoding an 11-byte string into a 5-byte buffer is rejected
    // (length >= max_length) rather than silently truncated.
    strm.current_byte = 0;
    let mut value = [0u8; 5]; // max_length = 5
    assert!(!ber_decode_ia5_string(&mut strm, TAG_IA5STRING, &mut value, 5, &mut err));
    assert_eq!(err, ErrorCode::BerLengthMismatch);
}

#[test]
fn test_ber_encode_decode_bit_string() {
    let buf = [0u8; 64];
    let mut strm = ByteStream::init(buf.to_vec());
    let mut err = ErrorCode::InsufficientData;

    // 10 bits = 2 bytes, last byte has 6 unused bits
    let data = [0xAA, 0xC0]; // 10101010 11000000 (10 bits: 10101010 11)
    assert!(ber_encode_bit_string(&mut strm, TAG_BIT_STRING, &data, 10, &mut err));
    assert_eq!(strm.buf[0], TAG_BIT_STRING as u8);
    // length = 2 content bytes + 1 unused-bits byte = 3
    assert_eq!(strm.buf[1], 3);
    assert_eq!(strm.buf[2], 6); // 6 unused bits in last byte
    assert_eq!(strm.buf[3], 0xAA);
    assert_eq!(strm.buf[4], 0xC0);

    strm.current_byte = 0;
    let mut value = [0u8; 16];
    let mut bit_count: i32 = 0;
    assert!(ber_decode_bit_string(
        &mut strm,
        TAG_BIT_STRING,
        &mut value,
        &mut bit_count,
        128,
        &mut err
    ));
    assert_eq!(bit_count, 10);
    assert_eq!(value[0], 0xAA);
    assert_eq!(value[1], 0xC0);
}

#[test]
fn test_ber_encode_decode_bit_string_byte_aligned() {
    let buf = [0u8; 64];
    let mut strm = ByteStream::init(buf.to_vec());
    let mut err = ErrorCode::InsufficientData;

    // 16 bits = 2 bytes, 0 unused bits
    let data = [0xFF, 0xAA];
    assert!(ber_encode_bit_string(&mut strm, TAG_BIT_STRING, &data, 16, &mut err));
    assert_eq!(strm.buf[2], 0); // 0 unused bits

    strm.current_byte = 0;
    let mut value = [0u8; 16];
    let mut bit_count: i32 = 0;
    assert!(ber_decode_bit_string(
        &mut strm,
        TAG_BIT_STRING,
        &mut value,
        &mut bit_count,
        128,
        &mut err
    ));
    assert_eq!(bit_count, 16);
    assert_eq!(value[0], 0xFF);
    assert_eq!(value[1], 0xAA);
}

#[test]
fn test_ber_encode_decode_octet_string() {
    let buf = [0u8; 64];
    let mut strm = ByteStream::init(buf.to_vec());
    let mut err = ErrorCode::InsufficientData;

    let data = [0xDE, 0xAD, 0xBE, 0xEF];
    assert!(ber_encode_octet_string(&mut strm, TAG_OCTET_STRING, &data, 4, &mut err));
    assert_eq!(strm.buf[0], TAG_OCTET_STRING as u8);
    assert_eq!(strm.buf[1], 4); // length = 4
    assert_eq!(&strm.buf[2..6], &[0xDE, 0xAD, 0xBE, 0xEF]);

    strm.current_byte = 0;
    let mut value = [0u8; 16];
    let mut oct_count: i32 = 0;
    assert!(ber_decode_octet_string(
        &mut strm,
        TAG_OCTET_STRING,
        &mut value,
        &mut oct_count,
        16,
        &mut err
    ));
    assert_eq!(oct_count, 4);
    assert_eq!(&value[..4], &[0xDE, 0xAD, 0xBE, 0xEF]);
}

#[test]
fn test_ber_encode_decode_octet_string_long() {
    let buf = [0u8; 256];
    let mut strm = ByteStream::init(buf.to_vec());
    let mut err = ErrorCode::InsufficientData;

    // 200 bytes requires long-form length
    let data = [0x42u8; 200];
    assert!(ber_encode_octet_string(&mut strm, TAG_OCTET_STRING, &data, 200, &mut err));
    assert_eq!(strm.buf[0], TAG_OCTET_STRING as u8);
    // Long form: 0x81 means 1 length byte follows
    assert_eq!(strm.buf[1], 0x81);
    assert_eq!(strm.buf[2], 200);

    strm.current_byte = 0;
    let mut value = [0u8; 256];
    let mut oct_count: i32 = 0;
    assert!(ber_decode_octet_string(
        &mut strm,
        TAG_OCTET_STRING,
        &mut value,
        &mut oct_count,
        256,
        &mut err
    ));
    assert_eq!(oct_count, 200);
    for i in 0..200 {
        assert_eq!(value[i], 0x42);
    }
}

#[test]
fn test_ber_encode_decode_integer_roundtrip_various() {
    let values: &[Asn1SccSint] = &[0, 1, -1, 127, 128, -128, 255, 256, -256,
                                    32767, 32768, -32768, 65535, 65536,
                                    i32::MAX as i64, i32::MIN as i64,
                                    i64::MAX, i64::MIN];

    for &val in values {
        let buf = [0u8; 128];
        let mut strm = ByteStream::init(buf.to_vec());
        let mut err = ErrorCode::InsufficientData;

        assert!(ber_encode_integer(&mut strm, TAG_INTEGER, val, &mut err),
                "encode failed for {}", val);

        strm.current_byte = 0;
        let mut decoded: Asn1SccSint = 0;
        assert!(ber_decode_integer(&mut strm, TAG_INTEGER, &mut decoded, &mut err),
                "decode failed for {}", val);
        assert_eq!(decoded, val, "roundtrip mismatch for {}", val);
    }
}

#[test]
fn test_ber_encode_decode_sequence_with_indefinite_length() {
    // Simulate a constructed SEQUENCE with indefinite length
    let buf = [0u8; 128];
    let mut strm = ByteStream::init(buf.to_vec());
    let mut err = ErrorCode::InsufficientData;

    // Encode a SEQUENCE containing an INTEGER
    assert!(ber_encode_tag(&mut strm, TAG_SEQUENCE, &mut err));
    assert!(ber_encode_length_start(&mut strm, &mut err));
    assert!(ber_encode_integer(&mut strm, TAG_INTEGER, 42, &mut err));
    assert!(ber_encode_length_end(&mut strm, &mut err));

    // Now decode it back
    strm.current_byte = 0;
    assert!(ber_decode_tag(&mut strm, TAG_SEQUENCE, &mut err));

    let mut length: i32 = 0;
    assert!(ber_decode_length(&mut strm, &mut length, &mut err));
    assert_eq!(length, -1); // indefinite

    let mut value: Asn1SccSint = 0;
    assert!(ber_decode_integer(&mut strm, TAG_INTEGER, &mut value, &mut err));
    assert_eq!(value, 42);

    assert!(ber_decode_two_zeroes(&mut strm, &mut err));
}

#[test]
fn test_ber_encode_decode_real_zero() {
    let buf = [0u8; 128];
    let mut strm = ByteStream::init(buf.to_vec());
    let mut err = ErrorCode::InsufficientData;

    assert!(ber_encode_real(&mut strm, TAG_REAL, 0.0f64.to_bits(), &mut err));
    assert_eq!(strm.buf[0], TAG_REAL as u8);
    // For zero, the content is a single 0x00 byte (length 0 = zero value)
    assert_eq!(strm.buf[1], 0);

    strm.current_byte = 0;
    let mut value = DecodedReal::Binary { negative: false, mantissa: 42, exponent: 0 };
    assert_eq!(to_f64(value), 42.0);
    assert!(ber_decode_real(&mut strm, TAG_REAL, &mut value, &mut err));
    assert_eq!(to_f64(value), 0.0);
}

#[test]
fn test_ber_encode_decode_real_nonzero() {
    let buf = [0u8; 128];
    let mut strm = ByteStream::init(buf.to_vec());
    let mut err = ErrorCode::InsufficientData;

    let val: f64 = 3.14;
    assert!(ber_encode_real(&mut strm, TAG_REAL, val.to_bits(), &mut err));
    assert_eq!(strm.buf[0], TAG_REAL as u8);

    strm.current_byte = 0;
    let mut value = DecodedReal::Zero;
    assert!(ber_decode_real(&mut strm, TAG_REAL, &mut value, &mut err));
    assert!((to_f64(value) - val).abs() < 1e-10);
}

#[test]
fn test_ber_encode_decode_real_negative() {
    let buf = [0u8; 128];
    let mut strm = ByteStream::init(buf.to_vec());
    let mut err = ErrorCode::InsufficientData;

    let val: f64 = -2.5;
    assert!(ber_encode_real(&mut strm, TAG_REAL, val.to_bits(), &mut err));

    strm.current_byte = 0;
    let mut value = DecodedReal::Zero;
    assert!(ber_decode_real(&mut strm, TAG_REAL, &mut value, &mut err));
    assert!((to_f64(value) - val).abs() < 1e-10);
}

#[test]
fn ber_real_one_and_infinity_bytes() {
    let buf = [0u8; 32];
    let mut strm = ByteStream::init(buf.to_vec());
    let mut err = ErrorCode::InsufficientData;
    assert!(ber_encode_real(&mut strm, TAG_REAL, 1.0f64.to_bits(), &mut err));
    assert_eq!(&strm.buf[..11], &[0x09, 9, 0x80, 0xCC, 0x10, 0, 0, 0, 0, 0, 0]);
    assert!(ber_encode_real(&mut strm, TAG_REAL, f64::NEG_INFINITY.to_bits(), &mut err));
    assert_eq!(&strm.buf[11..14], &[0x09, 1, 0x41]);

    strm.current_byte = 0;
    let mut value = DecodedReal::Zero;
    assert!(ber_decode_real(&mut strm, TAG_REAL, &mut value, &mut err));
    assert_eq!(value, DecodedReal::Binary { negative: false, mantissa: 1 << 52, exponent: -52 });
    assert!(ber_decode_real(&mut strm, TAG_REAL, &mut value, &mut err));
    assert_eq!(value, DecodedReal::MinusInfinity);
    assert_eq!(strm.current_byte, 14);
}

#[test]
fn ber_real_encode_into_full_stream_fails() {
    let buf = [0u8; 4];
    let mut strm = ByteStream::init(buf.to_vec());
    let mut err = ErrorCode::BerLengthMismatch;
    assert!(!ber_encode_real(&mut strm, TAG_REAL, 1.5f64.to_bits(), &mut err));
    assert_eq!(err, ErrorCode::InsufficientData);
}

#[test]
fn ber_real_decode_short_content_fails() {
    let mut strm = ByteStream::attach_buffer(vec![0x09, 5, 0x80, 0x01]);
    let mut err = ErrorCode::BerLengthMismatch;
    let mut value = DecodedReal::Zero;
    assert!(!ber_decode_real(&mut strm, TAG_REAL, &mut value, &mut err));
    assert_eq!(err, ErrorCode::InsufficientData);
}

#[test]
fn octet_string_longer_than_max_is_truncated() {
    let mut strm = ByteStream::init(vec![0u8; 16]);
    let mut err = ErrorCode::InsufficientData;
    let data = [1, 2, 3, 4, 5];
    assert!(ber_encode_octet_string(&mut strm, TAG_OCTET_STRING, &data, 5, &mut err));
    strm.buf[8] = 0x77;
    strm.current_byte = 0;
    let mut value = [0xEEu8; 6];
    let mut oct_count: i32 = -7;
    assert!(ber_decode_octet_string(&mut strm, TAG_OCTET_STRING, &mut value, &mut oct_count, 3, &mut err));
    assert_eq!(oct_count, 3);
    assert_eq!(value, [1, 2, 3, 0xEE, 0xEE, 0xEE]);
    assert_eq!(strm.current_byte, 7);
}

#[test]
fn octet_string_short_content_fails_after_clearing() {
    let mut strm = ByteStream::attach_buffer(vec![TAG_OCTET_STRING as u8, 4, 0xAA, 0xBB]);
    let mut err = ErrorCode::BerLengthMismatch;
    let mut value = [0xEEu8; 6];
    let mut oct_count: i32 = -7;
    assert!(!ber_decode_octet_string(&mut strm, TAG_OCTET_STRING, &mut value, &mut oct_count, 5, &mut err));
    assert_eq!(err, ErrorCode::InsufficientData);
    assert_eq!(oct_count, 4);
    assert_eq!(value, [0xAA, 0xBB, 0, 0, 0, 0xEE]);
}

#[test]
fn ia5_string_rejected_length_leaves_cleared_buffer() {
    let mut strm = ByteStream::attach_buffer(vec![TAG_IA5STRING as u8, 3, b'a', b'b', b'c']);
    let mut err = ErrorCode::InsufficientData;
    let mut value = [0xEEu8; 4];
    assert!(!ber_decode_ia5_string(&mut strm, TAG_IA5STRING, &mut value, 3, &mut err));
    assert_eq!(err, ErrorCode::BerLengthMismatch);
    assert_eq!(value, [0, 0, 0, 0xEE]);
}

#[test]
fn bit_string_longer_than_max_is_truncated() {
    // 24 bits of content, 2 unused in the last byte: 22 bits.
    let mut strm = ByteStream::attach_buffer(vec![TAG_BIT_STRING as u8, 4, 2, 0xAB, 0xCD, 0xEC, 0x55]);
    let mut err = ErrorCode::InsufficientData;
    let mut value = [0u8; 2];
    let mut bit_count: i32 = 0;
    assert!(ber_decode_bit_string(&mut strm, TAG_BIT_STRING, &mut value, &mut bit_count, 10, &mut err));
    assert_eq!(bit_count, 10);
    assert_eq!(value, [0xAB, 0xCD]);
    assert_eq!(strm.current_byte, 6);
}

#[test]
fn bit_string_count_is_clamped_to_max() {
    let mut strm = ByteStream::attach_buffer(vec![TAG_BIT_STRING as u8, 3, 0, 0xFF, 0xAA]);
    let mut err = ErrorCode::InsufficientData;
    let mut value = [0u8; 4];
    let mut bit_count: i32 = 0;
    assert!(ber_decode_bit_string(&mut strm, TAG_BIT_STRING, &mut value, &mut bit_count, 12, &mut err));
    assert_eq!(bit_count, 12);
    assert_eq!(&value[..2], &[0xFF, 0xAA]);
}

#[test]
fn real_decodes_with_unused_buffer_tail() {
    let mut strm = ByteStream::init(vec![0u8; 16]);
    let mut err = ErrorCode::InsufficientData;
    assert!(ber_encode_real(&mut strm, TAG_REAL, 0.0f64.to_bits(), &mut err));
    assert_eq!(strm.current_byte, 2);
    strm.count = 2;
    strm.current_byte = 0;
    let mut v = DecodedReal::PlusInfinity;
    assert!(ber_decode_real(&mut strm, TAG_REAL, &mut v, &mut err));
    assert_eq!(v, DecodedReal::Zero);
    assert_eq!(strm.current_byte, 2);
}

#[test]
fn failed_encode_writes_what_fits() {
    // Room for the tag and the length only: the content is cut at the end of the data.
    let mut strm = ByteStream::init(vec![0xEEu8; 4]);
    let mut err = ErrorCode::BerLengthMismatch;
    let data = [0xDE, 0xAD, 0xBE, 0xEF];
    assert!(!ber_encode_octet_string(&mut strm, TAG_OCTET_STRING, &data, 4, &mut err));
    assert_eq!(err, ErrorCode::InsufficientData);
    assert_eq!(strm.buf, vec![TAG_OCTET_STRING as u8, 4, 0xDE, 0xAD]);
    assert_eq!(strm.current_byte, 4);
    let mut strm2 = ByteStream::init(vec![0xEEu8; 2]);
    assert!(!ber_encode_integer(&mut strm2, TAG_INTEGER, 300, &mut err));
    assert_eq!(strm2.buf, vec![TAG_INTEGER as u8, 2]);
    assert_eq!(strm2.current_byte, 2);
}

#[test]
fn failed_decode_cursor_positions() {
    let mut err = ErrorCode::InsufficientData;
    // A tag that does not match is consumed.
    let mut strm = ByteStream::attach_buffer(vec![TAG_BOOLEAN as u8, 1, 0xFF]);
    assert!(!ber_decode_tag(&mut strm, TAG_INTEGER, &mut err));
    assert_eq!(strm.current_byte, 1);
    // A long-form length stops after the byte that makes it pass i32::MAX.
    let mut strm = ByteStream::attach_buffer(vec![0x85, 0x80, 0, 0, 0, 0]);
    let mut len: i32 = 0;
    assert!(!ber_decode_length(&mut strm, &mut len, &mut err));
    assert_eq!(err, ErrorCode::BerLengthMismatch);
    assert_eq!(strm.current_byte, 5);
    // An INTEGER with too few content bytes consumes the rest of the data.
    let mut strm = ByteStream::attach_buffer(vec![TAG_INTEGER as u8, 3, 1, 2]);
    let mut v: Asn1SccSint = 0;
    assert!(!ber_decode_integer(&mut strm, TAG_INTEGER, &mut v, &mut err));
    assert_eq!(err, ErrorCode::InsufficientData);
    assert_eq!(strm.current_byte, 4);
    // A NULL with a non-zero length stops after the length.
    let mut strm = ByteStream::attach_buffer(vec![TAG_NULL as u8, 1, 0]);
    assert!(!ber_decode_null(&mut strm, TAG_NULL, &mut err));
    assert_eq!(strm.current_byte, 2);
}
