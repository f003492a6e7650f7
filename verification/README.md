# lib — verified ACN and BER encoding runtime

Encoding and decoding primitives for ASN.1 values in the ACN and BER
encodings, written in Verus. Every encoder states the exact bits or bytes
it writes, every decoder states, as a spec function of the input, the
value it returns and how far it moves the cursor or when it fails, and the
laws in `acn_laws.rs` and `ber_laws.rs` prove that each decoder reads back
what the matching encoder wrote.

Layout of `src/`:

- `bits.rs`, `octets.rs`: the mathematical model (bit sequences, big- and
  little-endian numbers, two's complement, byte counts).
- `bitstream.rs`, `bytestream.rs`: the bit- and byte-level streams and their
  basic reads and writes.
- `acn_int.rs`, `acn_decimal.rs`, `acn_typed.rs`: ACN integers (binary,
  BCD, ASCII), length determinants, MILBUS, and the decoders that narrow to
  smaller integer types.
- `acn_ieee754.rs`: IEEE 754 REAL fields, carried as bit patterns.
- `acn_scaled.rs`: the integer side of scaled REAL fields (wrapping offsets
  from the lower bound).
- `acn_pattern.rs`, `acn_string.rs`: bit patterns, booleans and strings.
- `acn_patch.rs`: determinants reserved early and patched later.
- `ber.rs`, `ber_real.rs`: BER tags, lengths and the universal types.
- `acn_laws.rs`, `ber_laws.rs`: round-trip laws.

`app/` converts between `f32`/`f64` and the bit patterns and REAL parts that
the library works on, and holds the scaled-real conversions.
