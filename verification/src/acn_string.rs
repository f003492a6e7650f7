//! ACN strings: ASCII strings (fixed size, terminated, or with a length
//! determinant) and strings written as indices into a set of characters.
//! A string value is a byte buffer holding its characters up to the first
//! NUL byte.
use vstd::prelude::*;
use crate::Asn1SccSint;
use crate::bits::{
    bits_value, lemma_bits_value_bound, lemma_nat_bits_len, lemma_octet_bits_len, nat_bits,
    num_bits, octet_bits,
};
use crate::bitstream::{
    char_index, get_char_index, lemma_wrote_concat, lemma_wrote_nothing, spec_dec_whole_number,
    BitStream,
};
use crate::octets::{clear_prefix, fill_prefix, wrap_i64};
use crate::acn_decimal::{prefix_eq, terminator_prefix};

verus! {

// ─── String values ────────────────────────────────────────────────────

/// Index of the first byte of `s`, at or after `i`, that ends the string:
/// a NUL byte, the end of the buffer, or index `max`.
pub open spec fn cstr_len_from(s: Seq<u8>, max: int, i: nat) -> nat
    decreases s.len() - i,
{
    if i >= max || i >= s.len() || s[i as int] == 0 {
        i
    } else {
        cstr_len_from(s, max, i + 1)
    }
}

/// Number of characters of the string held in `s`: those before the first
/// NUL byte, at most `max` and at most the size of the buffer.
pub open spec fn cstr_len(s: Seq<u8>, max: int) -> nat {
    cstr_len_from(s, max, 0)
}

/// The buffer holds the string that a writer limited to `max` characters
/// reads: it holds `max` bytes, or a NUL byte.
pub open spec fn cstr_readable(s: Seq<u8>, max: int) -> bool {
    max <= s.len() || cstr_len(s, max) < s.len()
}

/// The characters of the string held in `s`, at most `max` of them.
pub open spec fn cstr(s: Seq<u8>, max: int) -> Seq<u8> {
    s.subrange(0, cstr_len(s, max) as int)
}

/// Scanning for the terminator from `i` stops at the first NUL, at `max`
/// or at the end of the string, whichever comes first.
pub proof fn lemma_cstr_len_from(s: Seq<u8>, max: int, i: nat)
    ensures
        i <= cstr_len_from(s, max, i),
        i <= s.len() ==> cstr_len_from(s, max, i) <= s.len(),
        i <= max ==> cstr_len_from(s, max, i) <= max,
        forall|j: int| i <= j < cstr_len_from(s, max, i) ==> #[trigger] s[j] != 0,
        cstr_len_from(s, max, i) >= max || cstr_len_from(s, max, i) >= s.len() || s[cstr_len_from(
            s,
            max,
            i,
        ) as int] == 0,
    decreases s.len() - i,
{
    if !(i >= max || i >= s.len() || s[i as int] == 0) {
        lemma_cstr_len_from(s, max, i + 1);
    }
}

/// Facts about the length of the string held in a buffer.
pub proof fn lemma_cstr_len(s: Seq<u8>, max: int)
    ensures
        cstr_len(s, max) <= s.len(),
        max >= 0 ==> cstr_len(s, max) <= max,
        max <= 0 ==> cstr_len(s, max) == 0,
        forall|j: int| 0 <= j < cstr_len(s, max) ==> #[trigger] s[j] != 0,
        cstr_len(s, max) >= max || cstr_len(s, max) >= s.len() || s[cstr_len(s, max) as int] == 0,
{
    lemma_cstr_len_from(s, max, 0);
}

/// Index of the first NUL byte of `s`, or its length when it holds none.
pub(crate) fn nul_position(s: &[u8]) -> (r: usize)
    ensures
        r == cstr_len(s@, s@.len() as int),
{
    let mut i: usize = 0;
    while i < s.len() && s[i] != 0
        invariant
            i <= s@.len(),
            cstr_len(s@, s@.len() as int) == cstr_len_from(s@, s@.len() as int, i as nat),
        decreases s@.len() - i,
    {
        i = i + 1;
    }
    i
}

/// Appending the bits of one more byte to those of a prefix.
proof fn lemma_octet_bits_step(s: Seq<u8>, i: int)
    requires
        0 <= i < s.len(),
    ensures
        octet_bits(s.subrange(0, i + 1)) == octet_bits(s.subrange(0, i)) + nat_bits(s[i] as nat, 8),
{
    assert(s.subrange(0, i + 1).drop_last() =~= s.subrange(0, i));
}

// ─── ASCII encoders ───────────────────────────────────────────────────

/// Write the first `max` bytes of `str_val`, one byte each.
pub fn acn_enc_string_ascii_fix_size(p_bit_strm: &mut BitStream, max: Asn1SccSint, str_val: &[u8])
    requires
        old(p_bit_strm).wf(),
        max <= str_val@.len(),
        old(p_bit_strm).remaining() >= 8 * (if max > 0 { max as int } else { 0 }),
    ensures
        final(p_bit_strm).wrote(
            *old(p_bit_strm),
            octet_bits(str_val@.subrange(0, if max > 0 { max as int } else { 0 })),
        ),
{
    let len = str_val.len();
    let n: usize = if max > 0 { max as usize } else { 0 };
    assert(n as int == if max > 0 { max as int } else { 0 }) by {
        assert(max <= len);
    }
    p_bit_strm.append_octets(str_val, n);
}

/// Write the characters of the string in `str_val`, at most `max` of them;
/// returns how many were written.
fn acn_enc_string_ascii_private(p_bit_strm: &mut BitStream, max: Asn1SccSint, str_val: &[u8]) -> (r:
    Asn1SccSint)
    requires
        old(p_bit_strm).wf(),
        cstr_readable(str_val@, max as int),
        old(p_bit_strm).remaining() >= 8 * cstr_len(str_val@, max as int),
    ensures
        r == cstr_len(str_val@, max as int),
        final(p_bit_strm).wrote(*old(p_bit_strm), octet_bits(cstr(str_val@, max as int))),
{
    let ghost s0 = *p_bit_strm;
    let ghost s = str_val@;
    let mut i: Asn1SccSint = 0;
    proof {
        lemma_cstr_len(s, max as int);
        lemma_wrote_nothing(s0, *p_bit_strm);
        assert(s.subrange(0, 0) =~= Seq::<u8>::empty());
    }
    while i < max && str_val[i as usize] != 0
        invariant
            s == str_val@,
            0 <= i <= cstr_len(s, max as int),
            cstr_len(s, max as int) <= s.len(),
            cstr_readable(s, max as int),
            cstr_len(s, max as int) == cstr_len_from(s, max as int, i as nat),
            s0 == *old(p_bit_strm),
            s0.wf(),
            s0.remaining() >= 8 * cstr_len(s, max as int),
            p_bit_strm.wrote(s0, octet_bits(s.subrange(0, i as int))),
        decreases max - i,
    {
        let ghost s1 = *p_bit_strm;
        proof {
            lemma_cstr_len_from(s, max as int, i as nat);
            lemma_octet_bits_len(s.subrange(0, i as int));
        }
        p_bit_strm.append_byte(str_val[i as usize], false);
        proof {
            lemma_octet_bits_step(s, i as int);
            lemma_nat_bits_len(s[i as int] as nat, 8);
            lemma_wrote_concat(s0, s1, *p_bit_strm, octet_bits(s.subrange(0, i as int)), nat_bits(s[i as int] as nat, 8));
        }
        i = i + 1;
    }
    proof {
        lemma_cstr_len_from(s, max as int, i as nat);
    }
    i
}

/// Write the characters of the string in `str_val` (at most `max`), then
/// the byte `null_character`.
pub fn acn_enc_string_ascii_null_terminated(
    p_bit_strm: &mut BitStream,
    max: Asn1SccSint,
    null_character: u8,
    str_val: &[u8],
)
    requires
        old(p_bit_strm).wf(),
        cstr_readable(str_val@, max as int),
        old(p_bit_strm).remaining() >= 8 * cstr_len(str_val@, max as int) + 8,
    ensures
        final(p_bit_strm).wrote(
            *old(p_bit_strm),
            octet_bits(cstr(str_val@, max as int)) + nat_bits(null_character as nat, 8),
        ),
{
    let ghost s0 = *p_bit_strm;
    proof {
        lemma_cstr_len(str_val@, max as int);
        lemma_octet_bits_len(cstr(str_val@, max as int));
        lemma_nat_bits_len(null_character as nat, 8);
    }
    acn_enc_string_ascii_private(p_bit_strm, max, str_val);
    let ghost s1 = *p_bit_strm;
    p_bit_strm.append_byte(null_character, false);
    proof {
        lemma_wrote_concat(
            s0,
            s1,
            *p_bit_strm,
            octet_bits(cstr(str_val@, max as int)),
            nat_bits(null_character as nat, 8),
        );
    }
}

/// Write the characters of the string in `str_val` (at most `max`), then
/// the bytes of `null_character`.
pub fn acn_enc_string_ascii_null_terminated_mult(
    p_bit_strm: &mut BitStream,
    max: Asn1SccSint,
    null_character: &[u8],
    str_val: &[u8],
)
    requires
        old(p_bit_strm).wf(),
        cstr_readable(str_val@, max as int),
        old(p_bit_strm).remaining() >= 8 * cstr_len(str_val@, max as int) + 8 * null_character@.len(),
    ensures
        final(p_bit_strm).wrote(
            *old(p_bit_strm),
            octet_bits(cstr(str_val@, max as int)) + octet_bits(null_character@),
        ),
{
    let ghost s0 = *p_bit_strm;
    proof {
        lemma_cstr_len(str_val@, max as int);
        lemma_octet_bits_len(cstr(str_val@, max as int));
        lemma_octet_bits_len(null_character@);
    }
    acn_enc_string_ascii_private(p_bit_strm, max, str_val);
    let ghost s1 = *p_bit_strm;
    p_bit_strm.append_octets(null_character, null_character.len());
    proof {
        assert(null_character@.subrange(0, null_character@.len() as int) =~= null_character@);
        lemma_wrote_concat(
            s0,
            s1,
            *p_bit_strm,
            octet_bits(cstr(str_val@, max as int)),
            octet_bits(null_character@),
        );
    }
}

/// Write the characters of the string in `str_val`, at most `max` of them;
/// their number is written elsewhere.
pub fn acn_enc_string_ascii_external_field_determinant(
    p_bit_strm: &mut BitStream,
    max: Asn1SccSint,
    str_val: &[u8],
)
    requires
        old(p_bit_strm).wf(),
        cstr_readable(str_val@, max as int),
        old(p_bit_strm).remaining() >= 8 * cstr_len(str_val@, max as int),
    ensures
        final(p_bit_strm).wrote(*old(p_bit_strm), octet_bits(cstr(str_val@, max as int))),
{
    acn_enc_string_ascii_private(p_bit_strm, max, str_val);
}

/// The length that a string with an internal length determinant announces:
/// the length of the string in the whole buffer, capped at `max`.
pub open spec fn length_to_encode(s: Seq<u8>, max: int) -> int {
    let l = cstr_len(s, s.len() as int) as int;
    if l <= max {
        l
    } else {
        max
    }
}

/// Write the length of the string in `str_val` (capped at `max`) as a
/// number between `min` and `max`, then its characters.
pub fn acn_enc_string_ascii_internal_field_determinant(
    p_bit_strm: &mut BitStream,
    max: Asn1SccSint,
    min: Asn1SccSint,
    str_val: &[u8],
)
    requires
        old(p_bit_strm).wf(),
        cstr_readable(str_val@, max as int),
        min <= length_to_encode(str_val@, max as int),
        old(p_bit_strm).remaining() >= num_bits((max - min) as nat) + 8 * cstr_len(str_val@, max as int),
    ensures
        final(p_bit_strm).wrote(
            *old(p_bit_strm),
            nat_bits(
                (length_to_encode(str_val@, max as int) - min) as nat,
                num_bits((max - min) as nat),
            ) + octet_bits(cstr(str_val@, max as int)),
        ),
{
    let ghost s0 = *p_bit_strm;
    let str_len: usize = nul_position(str_val);
    let len_to_encode: Asn1SccSint = if (str_len as i128) <= (max as i128) { str_len as Asn1SccSint } else { max };
    proof {
        lemma_cstr_len(str_val@, max as int);
        lemma_nat_bits_len((len_to_encode - min) as nat, num_bits((max - min) as nat));
        lemma_octet_bits_len(cstr(str_val@, max as int));
    }
    p_bit_strm.encode_constraint_whole_number(len_to_encode, min, max);
    let ghost s1 = *p_bit_strm;
    acn_enc_string_ascii_private(p_bit_strm, max, str_val);
    proof {
        let a = nat_bits((len_to_encode - min) as nat, num_bits((max - min) as nat));
        lemma_wrote_concat(s0, s1, *p_bit_strm, a, octet_bits(cstr(str_val@, max as int)));
    }
}

// ─── Character-index encoders ─────────────────────────────────────────

/// Number of bits of one character index into `set`.
pub open spec fn index_width(set: Seq<u8>) -> nat {
    num_bits((set.len() - 1) as nat)
}

/// The characters of `s`, each written as its index in `set` in
/// `index_width(set)` bits.
pub open spec fn char_index_bits(set: Seq<u8>, s: Seq<u8>) -> Seq<bool>
    decreases s.len(),
{
    if s.len() == 0 {
        Seq::empty()
    } else {
        char_index_bits(set, s.drop_last()) + nat_bits(char_index(set, s.last()), index_width(set))
    }
}

/// Each character takes the width of an index into the set.
pub proof fn lemma_char_index_bits_len(set: Seq<u8>, s: Seq<u8>)
    ensures
        char_index_bits(set, s).len() == s.len() * index_width(set),
    decreases s.len(),
{
    if s.len() > 0 {
        lemma_char_index_bits_len(set, s.drop_last());
        lemma_nat_bits_len(char_index(set, s.last()), index_width(set));
        assert((s.len() - 1) * index_width(set) + index_width(set) == s.len() * index_width(set))
            by (nonlinear_arith);
    }
}

/// Write character `i` of `str_val` as its index in `allowed_char_set`.
fn enc_char_index(p_bit_strm: &mut BitStream, allowed_char_set: &[u8], str_val: &[u8], i: usize)
    requires
        old(p_bit_strm).wf(),
        1 <= allowed_char_set@.len() <= 0x7FFF_FFFF_FFFF_FFFF,
        i < str_val@.len(),
        old(p_bit_strm).remaining() >= index_width(allowed_char_set@),
    ensures
        final(p_bit_strm).wrote(
            *old(p_bit_strm),
            nat_bits(char_index(allowed_char_set@, str_val@[i as int]), index_width(allowed_char_set@)),
        ),
{
    let char_set_size = allowed_char_set.len() as Asn1SccSint;
    let char_index = get_char_index(str_val[i], allowed_char_set);
    p_bit_strm.encode_constraint_whole_number(char_index as Asn1SccSint, 0, char_set_size - 1);
}

/// Write the first `max` characters of `str_val`, each as its index in
/// `allowed_char_set` (0 for a character outside it).
pub fn acn_enc_string_char_index_fix_size(
    p_bit_strm: &mut BitStream,
    max: Asn1SccSint,
    allowed_char_set: &[u8],
    str_val: &[u8],
)
    requires
        old(p_bit_strm).wf(),
        1 <= allowed_char_set@.len() <= 0x7FFF_FFFF_FFFF_FFFF,
        max <= str_val@.len(),
        old(p_bit_strm).remaining() >= (if max > 0 { max as int } else { 0 }) * index_width(allowed_char_set@),
    ensures
        final(p_bit_strm).wrote(
            *old(p_bit_strm),
            char_index_bits(allowed_char_set@, str_val@.subrange(0, if max > 0 { max as int } else { 0 })),
        ),
{
    let ghost s0 = *p_bit_strm;
    let ghost s = str_val@;
    let ghost set = allowed_char_set@;
    let ghost w = index_width(set);
    let len = str_val.len();
    let mut i: Asn1SccSint = 0;
    proof {
        lemma_wrote_nothing(s0, *p_bit_strm);
        assert(s.subrange(0, 0) =~= Seq::<u8>::empty());
    }
    while i < max
        invariant
            s == str_val@,
            len == s.len(),
            set == allowed_char_set@,
            w == index_width(set),
            1 <= set.len() <= 0x7FFF_FFFF_FFFF_FFFF,
            max <= s.len(),
            0 <= i,
            max > 0 ==> i <= max,
            max <= 0 ==> i == 0,
            s0 == *old(p_bit_strm),
            s0.wf(),
            s0.remaining() >= (if max > 0 { max as int } else { 0 }) * w,
            p_bit_strm.wrote(s0, char_index_bits(set, s.subrange(0, i as int))),
        decreases max - i,
    {
        let ghost s1 = *p_bit_strm;
        proof {
            lemma_char_index_bits_len(set, s.subrange(0, i as int));
            assert(i * w + w <= max * w) by (nonlinear_arith)
                requires
                    i < max,
            ;
        }
        enc_char_index(p_bit_strm, allowed_char_set, str_val, i as usize);
        proof {
            let c = nat_bits(char_index(set, s[i as int]), w);
            lemma_nat_bits_len(char_index(set, s[i as int]), w);
            assert(s.subrange(0, i + 1).drop_last() =~= s.subrange(0, i as int));
            lemma_wrote_concat(s0, s1, *p_bit_strm, char_index_bits(set, s.subrange(0, i as int)), c);
        }
        i = i + 1;
    }
}

/// Write the characters of the string in `str_val`, at most `max` of them,
/// each as its index in `allowed_char_set`; returns how many were written.
fn acn_enc_string_char_index_private(
    p_bit_strm: &mut BitStream,
    max: Asn1SccSint,
    allowed_char_set: &[u8],
    str_val: &[u8],
) -> (r: Asn1SccSint)
    requires
        old(p_bit_strm).wf(),
        1 <= allowed_char_set@.len() <= 0x7FFF_FFFF_FFFF_FFFF,
        cstr_readable(str_val@, max as int),
        old(p_bit_strm).remaining() >= cstr_len(str_val@, max as int) * index_width(allowed_char_set@),
    ensures
        r == cstr_len(str_val@, max as int),
        final(p_bit_strm).wrote(*old(p_bit_strm), char_index_bits(allowed_char_set@, cstr(str_val@, max as int))),
{
    let ghost s0 = *p_bit_strm;
    let ghost s = str_val@;
    let ghost set = allowed_char_set@;
    let ghost w = index_width(set);
    let mut i: Asn1SccSint = 0;
    proof {
        lemma_cstr_len(s, max as int);
        lemma_wrote_nothing(s0, *p_bit_strm);
        assert(s.subrange(0, 0) =~= Seq::<u8>::empty());
    }
    while i < max && str_val[i as usize] != 0
        invariant
            s == str_val@,
            set == allowed_char_set@,
            w == index_width(set),
            1 <= set.len() <= 0x7FFF_FFFF_FFFF_FFFF,
            0 <= i <= cstr_len(s, max as int),
            cstr_len(s, max as int) <= s.len(),
            cstr_readable(s, max as int),
            cstr_len(s, max as int) == cstr_len_from(s, max as int, i as nat),
            s0 == *old(p_bit_strm),
            s0.wf(),
            s0.remaining() >= cstr_len(s, max as int) * w,
            p_bit_strm.wrote(s0, char_index_bits(set, s.subrange(0, i as int))),
        decreases max - i,
    {
        let ghost s1 = *p_bit_strm;
        proof {
            lemma_cstr_len_from(s, max as int, i as nat);
            lemma_char_index_bits_len(set, s.subrange(0, i as int));
            let l = cstr_len(s, max as int);
            assert(i * w + w <= l * w) by (nonlinear_arith)
                requires
                    i < l,
            ;
        }
        enc_char_index(p_bit_strm, allowed_char_set, str_val, i as usize);
        proof {
            let c = nat_bits(char_index(set, s[i as int]), w);
            lemma_nat_bits_len(char_index(set, s[i as int]), w);
            assert(s.subrange(0, i + 1).drop_last() =~= s.subrange(0, i as int));
            lemma_wrote_concat(s0, s1, *p_bit_strm, char_index_bits(set, s.subrange(0, i as int)), c);
        }
        i = i + 1;
    }
    proof {
        lemma_cstr_len_from(s, max as int, i as nat);
    }
    i
}

/// Write the characters of the string in `str_val` (at most `max`) as
/// indices in `allowed_char_set`; their number is written elsewhere.
pub fn acn_enc_string_char_index_external_field_determinant(
    p_bit_strm: &mut BitStream,
    max: Asn1SccSint,
    allowed_char_set: &[u8],
    str_val: &[u8],
)
    requires
        old(p_bit_strm).wf(),
        1 <= allowed_char_set@.len() <= 0x7FFF_FFFF_FFFF_FFFF,
        cstr_readable(str_val@, max as int),
        old(p_bit_strm).remaining() >= cstr_len(str_val@, max as int) * index_width(allowed_char_set@),
    ensures
        final(p_bit_strm).wrote(*old(p_bit_strm), char_index_bits(allowed_char_set@, cstr(str_val@, max as int))),
{
    acn_enc_string_char_index_private(p_bit_strm, max, allowed_char_set, str_val);
}

/// Write the length of the string in `str_val` (capped at `max`) as a
/// number between `min` and `max`, then its characters as indices in
/// `allowed_char_set`.
pub fn acn_enc_string_char_index_internal_field_determinant(
    p_bit_strm: &mut BitStream,
    max: Asn1SccSint,
    allowed_char_set: &[u8],
    min: Asn1SccSint,
    str_val: &[u8],
)
    requires
        old(p_bit_strm).wf(),
        1 <= allowed_char_set@.len() <= 0x7FFF_FFFF_FFFF_FFFF,
        cstr_readable(str_val@, max as int),
        min <= length_to_encode(str_val@, max as int),
        old(p_bit_strm).remaining() >= num_bits((max - min) as nat) + cstr_len(str_val@, max as int)
            * index_width(allowed_char_set@),
    ensures
        final(p_bit_strm).wrote(
            *old(p_bit_strm),
            nat_bits(
                (length_to_encode(str_val@, max as int) - min) as nat,
                num_bits((max - min) as nat),
            ) + char_index_bits(allowed_char_set@, cstr(str_val@, max as int)),
        ),
{
    let ghost s0 = *p_bit_strm;
    let str_len: usize = nul_position(str_val);
    let len_to_encode: Asn1SccSint = if (str_len as i128) <= (max as i128) { str_len as Asn1SccSint } else { max };
    proof {
        lemma_cstr_len(str_val@, max as int);
        lemma_nat_bits_len((len_to_encode - min) as nat, num_bits((max - min) as nat));
        lemma_char_index_bits_len(allowed_char_set@, cstr(str_val@, max as int));
    }
    p_bit_strm.encode_constraint_whole_number(len_to_encode, min, max);
    let ghost s1 = *p_bit_strm;
    acn_enc_string_char_index_private(p_bit_strm, max, allowed_char_set, str_val);
    proof {
        let a = nat_bits((len_to_encode - min) as nat, num_bits((max - min) as nat));
        lemma_wrote_concat(s0, s1, *p_bit_strm, a, char_index_bits(allowed_char_set@, cstr(str_val@, max as int)));
    }
}

/// The IA5 characters: the bytes 0 to 127, each at its own index.
pub open spec fn ia5_char_set() -> Seq<u8> {
    Seq::new(128, |i: int| i as u8)
}

/// The IA5 characters as a buffer.
fn ia5_chars() -> (r: Vec<u8>)
    ensures
        r@ == ia5_char_set(),
{
    let mut v: Vec<u8> = Vec::new();
    let mut c: u8 = 0;
    while c < 128
        invariant
            c <= 128,
            v@.len() == c,
            forall|j: int| 0 <= j < c ==> #[trigger] v@[j] == j as u8,
        decreases 128 - c,
    {
        v.push(c);
        c = c + 1;
    }
    assert(v@ =~= ia5_char_set());
    v
}

/// Write the characters of the string in `str_val` (at most `max`) as
/// their IA5 indices; their number is written elsewhere.
pub fn acn_enc_ia5string_char_index_external_field_determinant(
    p_bit_strm: &mut BitStream,
    max: Asn1SccSint,
    str_val: &[u8],
)
    requires
        old(p_bit_strm).wf(),
        cstr_readable(str_val@, max as int),
        old(p_bit_strm).remaining() >= cstr_len(str_val@, max as int) * 7,
    ensures
        final(p_bit_strm).wrote(*old(p_bit_strm), char_index_bits(ia5_char_set(), cstr(str_val@, max as int))),
{
    let set = ia5_chars();
    proof {
        lemma_ia5_index_width();
    }
    acn_enc_string_char_index_private(p_bit_strm, max, set.as_slice(), str_val);
}

/// Write the length of the string in `str_val` (capped at `max`) as a
/// number between `min` and `max`, then its characters as IA5 indices.
pub fn acn_enc_ia5string_char_index_internal_field_determinant(
    p_bit_strm: &mut BitStream,
    max: Asn1SccSint,
    min: Asn1SccSint,
    str_val: &[u8],
)
    requires
        old(p_bit_strm).wf(),
        cstr_readable(str_val@, max as int),
        min <= length_to_encode(str_val@, max as int),
        old(p_bit_strm).remaining() >= num_bits((max - min) as nat) + cstr_len(str_val@, max as int) * 7,
    ensures
        final(p_bit_strm).wrote(
            *old(p_bit_strm),
            nat_bits(
                (length_to_encode(str_val@, max as int) - min) as nat,
                num_bits((max - min) as nat),
            ) + char_index_bits(ia5_char_set(), cstr(str_val@, max as int)),
        ),
{
    let set = ia5_chars();
    proof {
        lemma_ia5_index_width();
    }
    acn_enc_string_char_index_internal_field_determinant(p_bit_strm, max, set.as_slice(), min, str_val);
}

/// An IA5 index takes 7 bits.
pub proof fn lemma_ia5_index_width()
    ensures
        index_width(ia5_char_set()) == 7,
{
    reveal_with_fuel(num_bits, 8);
}

// ─── ASCII decoders ───────────────────────────────────────────────────

/// The whole bytes between bit position `p` and the end of `b`.
pub open spec fn octets_at(b: Seq<bool>, p: int) -> Seq<u8> {
    Seq::new(
        if b.len() - p >= 0 { ((b.len() - p) / 8) as nat } else { 0 },
        |j: int| bits_value(b.subrange(p + 8 * j, p + 8 * j + 8)) as u8,
    )
}

/// Number of bytes that a decoder clears first in a buffer of `len` bytes
/// for a string of at most `max` characters: one more than `max`, as far
/// as the buffer goes.
pub open spec fn fill_count(max: int, len: int) -> int {
    if max < 0 {
        len
    } else if max + 1 < len {
        max + 1
    } else {
        len
    }
}

/// Clear the bytes of `str_val` that a decoder for at most `max`
/// characters clears first.
fn clear_for_max(str_val: &mut [u8], max: Asn1SccSint)
    requires
        max != -1,
    ensures
        final(str_val)@ == fill_prefix(old(str_val)@, Seq::empty(), fill_count(max as int, old(str_val)@.len() as int)),
{
    let len = str_val.len();
    let fill_len: usize = if max < 0 {
        len
    } else if (max as i128) + 1 < (len as i128) {
        ((max as i128) + 1) as usize
    } else {
        len
    };
    clear_prefix(str_val, fill_len);
}

/// Reading the byte at the cursor of a stream that has moved `8 * i` bits
/// gives byte `i` of what followed the original cursor.
pub proof fn lemma_read_octet(s0: BitStream, s1: BitStream, i: int, c: u8)
    requires
        s0.wf(),
        0 <= i,
        s1.advanced(s0, 8 * i),
        s1.remaining() >= 8,
        c as nat == bits_value(s1.next_bits(8)),
    ensures
        i < octets_at(s0.bits(), s0.pos()).len(),
        octets_at(s0.bits(), s0.pos())[i] == c,
{
    let b = s0.bits();
    let p = s0.pos();
    assert(s1.next_bits(8) =~= b.subrange(p + 8 * i, p + 8 * i + 8));
    assert(b.len() - p >= 8 * i + 8);
    assert((b.len() - p) / 8 >= i + 1);
}

/// A failed read after `8 * i` bits: the stream held exactly `i` whole bytes.
pub proof fn lemma_no_octet(s0: BitStream, s1: BitStream, i: int)
    requires
        s0.wf(),
        0 <= i,
        s1.advanced(s0, 8 * i),
        s1.remaining() < 8,
        i <= octets_at(s0.bits(), s0.pos()).len(),
    ensures
        octets_at(s0.bits(), s0.pos()).len() == i,
{
    let b = s0.bits();
    let p = s0.pos();
    if b.len() - p >= 0 {
        assert(b.len() - p - 8 * i < 8);
        assert((b.len() - p) / 8 <= i);
    }
}

/// Number of bytes that a decoder of `n` characters reads before it
/// succeeds or runs out of stream.
pub open spec fn ascii_read_count(b: Seq<bool>, p: int, n: int) -> int {
    let avail = octets_at(b, p).len() as int;
    if n <= 0 {
        0
    } else if n <= avail {
        n
    } else {
        avail
    }
}

/// Clear the buffer, then read `characters_to_decode` bytes into it.
fn acn_dec_string_ascii_private(
    p_bit_strm: &mut BitStream,
    max: Asn1SccSint,
    characters_to_decode: Asn1SccSint,
    str_val: &mut [u8],
) -> (r: bool)
    requires
        old(p_bit_strm).wf(),
        max != -1,
        characters_to_decode <= old(str_val)@.len(),
    ensures
        r == (characters_to_decode <= 0 || characters_to_decode <= octets_at(
            old(p_bit_strm).bits(),
            old(p_bit_strm).pos(),
        ).len()),
        final(p_bit_strm).advanced(
            *old(p_bit_strm),
            8 * ascii_read_count(old(p_bit_strm).bits(), old(p_bit_strm).pos(), characters_to_decode as int),
        ),
        final(str_val)@ == fill_prefix(
            old(str_val)@,
            octets_at(old(p_bit_strm).bits(), old(p_bit_strm).pos()).subrange(
                0,
                ascii_read_count(old(p_bit_strm).bits(), old(p_bit_strm).pos(), characters_to_decode as int),
            ),
            fill_count(max as int, old(str_val)@.len() as int),
        ),
{
    let ghost s0 = *p_bit_strm;
    let ghost a = octets_at(s0.bits(), s0.pos());
    let ghost v0 = str_val@;
    let ghost fill = fill_count(max as int, v0.len() as int);
    clear_for_max(str_val, max);
    let mut i: Asn1SccSint = 0;
    proof {
        assert(a.subrange(0, 0) =~= Seq::<u8>::empty());
    }
    while i < characters_to_decode
        invariant
            s0 == *old(p_bit_strm),
            s0.wf(),
            a == octets_at(s0.bits(), s0.pos()),
            v0 == old(str_val)@,
            fill == fill_count(max as int, v0.len() as int),
            characters_to_decode <= v0.len(),
            0 <= i,
            characters_to_decode > 0 ==> i <= characters_to_decode,
            characters_to_decode <= 0 ==> i == 0,
            i <= a.len(),
            p_bit_strm.advanced(s0, 8 * i),
            str_val@ == fill_prefix(v0, a.subrange(0, i as int), fill),
        decreases characters_to_decode - i,
    {
        let ghost s1 = *p_bit_strm;
        let (decoded_char, ok) = p_bit_strm.read_byte();
        if !ok {
            proof {
                lemma_no_octet(s0, s1, i as int);
            }
            return false;
        }
        proof {
            lemma_read_octet(s0, s1, i as int, decoded_char);
        }
        str_val[i as usize] = decoded_char;
        proof {
            assert(str_val@ =~= fill_prefix(v0, a.subrange(0, i + 1), fill));
        }
        i = i + 1;
    }
    true
}

/// Read a string of exactly `max` characters into `str_val`.
pub fn acn_dec_string_ascii_fix_size(p_bit_strm: &mut BitStream, max: Asn1SccSint, str_val: &mut [u8]) -> (r: bool)
    requires
        old(p_bit_strm).wf(),
        max != -1,
        max <= old(str_val)@.len(),
    ensures
        r == (max <= 0 || max <= octets_at(old(p_bit_strm).bits(), old(p_bit_strm).pos()).len()),
        final(p_bit_strm).advanced(
            *old(p_bit_strm),
            8 * ascii_read_count(old(p_bit_strm).bits(), old(p_bit_strm).pos(), max as int),
        ),
        final(str_val)@ == fill_prefix(
            old(str_val)@,
            octets_at(old(p_bit_strm).bits(), old(p_bit_strm).pos()).subrange(
                0,
                ascii_read_count(old(p_bit_strm).bits(), old(p_bit_strm).pos(), max as int),
            ),
            fill_count(max as int, old(str_val)@.len() as int),
        ),
{
    acn_dec_string_ascii_private(p_bit_strm, max, max, str_val)
}

/// Read a string of `ext_size_determinant_fld` characters, a count found
/// elsewhere that must not exceed `max`.
pub fn acn_dec_string_ascii_external_field_determinant(
    p_bit_strm: &mut BitStream,
    max: Asn1SccSint,
    ext_size_determinant_fld: Asn1SccSint,
    str_val: &mut [u8],
) -> (r: bool)
    requires
        old(p_bit_strm).wf(),
        ext_size_determinant_fld <= max ==> max != -1 && ext_size_determinant_fld <= old(str_val)@.len(),
    ensures
        ext_size_determinant_fld > max ==> !r && *final(p_bit_strm) == *old(p_bit_strm) && final(str_val)@
            == old(str_val)@,
        ext_size_determinant_fld <= max ==> {
            &&& r == (ext_size_determinant_fld <= 0 || ext_size_determinant_fld <= octets_at(
                old(p_bit_strm).bits(),
                old(p_bit_strm).pos(),
            ).len())
            &&& final(p_bit_strm).advanced(
                *old(p_bit_strm),
                8 * ascii_read_count(old(p_bit_strm).bits(), old(p_bit_strm).pos(), ext_size_determinant_fld as int),
            )
            &&& final(str_val)@ == fill_prefix(
                old(str_val)@,
                octets_at(old(p_bit_strm).bits(), old(p_bit_strm).pos()).subrange(
                    0,
                    ascii_read_count(old(p_bit_strm).bits(), old(p_bit_strm).pos(), ext_size_determinant_fld as int),
                ),
                fill_count(max as int, old(str_val)@.len() as int),
            )
        },
{
    if ext_size_determinant_fld > max {
        return false;
    }
    let chars = ext_size_determinant_fld;
    acn_dec_string_ascii_private(p_bit_strm, max, chars, str_val)
}

/// The character count that a string with an internal length determinant
/// announces, capped at `max`, when the determinant can be read.
pub open spec fn announced_count(b: Seq<bool>, p: int, min: int, max: int) -> Option<(int, int)> {
    match spec_dec_whole_number(b, p, min, max) {
        Some((n, k)) => Some((if n <= max { n } else { max }, k)),
        None => None,
    }
}

/// Read a character count between `min` and `max`, then that many characters.
pub fn acn_dec_string_ascii_internal_field_determinant(
    p_bit_strm: &mut BitStream,
    max: Asn1SccSint,
    min: Asn1SccSint,
    str_val: &mut [u8],
) -> (r: bool)
    requires
        old(p_bit_strm).wf(),
        min <= max,
        max != -1,
        match announced_count(old(p_bit_strm).bits(), old(p_bit_strm).pos(), min as int, max as int) {
            Some((n, k)) => n <= old(str_val)@.len(),
            None => true,
        },
    ensures
        match announced_count(old(p_bit_strm).bits(), old(p_bit_strm).pos(), min as int, max as int) {
            None => !r && final(p_bit_strm).same_buffer(*old(p_bit_strm)) && final(str_val)@ == old(str_val)@,
            Some((n, k)) => {
                &&& r == (n <= 0 || n <= octets_at(old(p_bit_strm).bits(), old(p_bit_strm).pos() + k).len())
                &&& final(p_bit_strm).advanced(
                    *old(p_bit_strm),
                    k + 8 * ascii_read_count(old(p_bit_strm).bits(), old(p_bit_strm).pos() + k, n),
                )
                &&& final(str_val)@ == fill_prefix(
                    old(str_val)@,
                    octets_at(old(p_bit_strm).bits(), old(p_bit_strm).pos() + k).subrange(
                        0,
                        ascii_read_count(old(p_bit_strm).bits(), old(p_bit_strm).pos() + k, n),
                    ),
                    fill_count(max as int, old(str_val)@.len() as int),
                )
            },
        },
{
    let (n_count, ok) = p_bit_strm.decode_constraint_whole_number(min, max);
    if !ok {
        return false;
    }
    let chars = if n_count <= max { n_count } else { max };
    acn_dec_string_ascii_private(p_bit_strm, max, chars, str_val)
}

// ─── Terminated ASCII decoders ────────────────────────────────────────

/// Scan of a string terminated by the byte `nc`, from byte `i` of `a`, into
/// a buffer of `len` bytes with room for at most `max` characters: whether
/// the terminator was found, and the number of characters before the scan
/// stopped.
pub open spec fn null_scan(a: Seq<u8>, nc: u8, max: int, len: int, i: nat) -> (bool, nat)
    decreases a.len() - i,
{
    if i > max {
        (false, i)
    } else if i >= a.len() {
        (false, i)
    } else if a[i as int] == nc {
        (true, i)
    } else if i >= len {
        (false, i)
    } else {
        null_scan(a, nc, max, len, i + 1)
    }
}

proof fn lemma_null_scan(a: Seq<u8>, nc: u8, max: int, len: int, i: nat)
    ensures
        i <= null_scan(a, nc, max, len, i).1,
        null_scan(a, nc, max, len, i).0 ==> null_scan(a, nc, max, len, i).1 <= max
            && null_scan(a, nc, max, len, i).1 < a.len(),
    decreases a.len() - i,
{
    if !(i > max || i >= a.len() || a[i as int] == nc || i >= len) {
        lemma_null_scan(a, nc, max, len, i + 1);
    }
}

/// Read characters up to the byte `null_character`, at most `max` of them.
pub fn acn_dec_string_ascii_null_terminated(
    p_bit_strm: &mut BitStream,
    max: Asn1SccSint,
    null_character: u8,
    str_val: &mut [u8],
) -> (r: bool)
    requires
        old(p_bit_strm).wf(),
        max != -1,
    ensures
        ({
            let a = octets_at(old(p_bit_strm).bits(), old(p_bit_strm).pos());
            let scan = null_scan(a, null_character, max as int, old(str_val)@.len() as int, 0);
            &&& r == scan.0
            &&& final(str_val)@ == fill_prefix(
                old(str_val)@,
                a.subrange(0, scan.1 as int),
                fill_count(max as int, old(str_val)@.len() as int),
            )
            &&& r ==> final(p_bit_strm).advanced(*old(p_bit_strm), (8 * (scan.1 + 1)) as int)
            &&& !r ==> final(p_bit_strm).same_buffer(*old(p_bit_strm))
        }),
{
    let ghost s0 = *p_bit_strm;
    let ghost a = octets_at(s0.bits(), s0.pos());
    let ghost v0 = str_val@;
    let ghost fill = fill_count(max as int, v0.len() as int);
    clear_for_max(str_val, max);
    let mut i: Asn1SccSint = 0;
    proof {
        assert(a.subrange(0, 0) =~= Seq::<u8>::empty());
    }
    while i <= max
        invariant
            s0 == *old(p_bit_strm),
            s0.wf(),
            a == octets_at(s0.bits(), s0.pos()),
            v0 == old(str_val)@,
            str_val@.len() == v0.len(),
            fill == fill_count(max as int, v0.len() as int),
            0 <= i <= a.len(),
            a.len() <= 0x100_0000_0000,
            i <= v0.len(),
            null_scan(a, null_character, max as int, v0.len() as int, 0) == null_scan(
                a,
                null_character,
                max as int,
                v0.len() as int,
                i as nat,
            ),
            p_bit_strm.advanced(s0, 8 * i),
            str_val@ == fill_prefix(v0, a.subrange(0, i as int), fill),
        decreases max + 1 - i,
    {
        let ghost s1 = *p_bit_strm;
        let (decoded_char, ok) = p_bit_strm.read_byte();
        if !ok {
            proof {
                lemma_no_octet(s0, s1, i as int);
            }
            return false;
        }
        proof {
            lemma_read_octet(s0, s1, i as int, decoded_char);
        }
        if decoded_char != null_character {
            if (i as usize) >= str_val.len() {
                return false;
            }
            str_val[i as usize] = decoded_char;
            proof {
                assert(str_val@ =~= fill_prefix(v0, a.subrange(0, i + 1), fill));
            }
            i = i + 1;
        } else {
            if (i as usize) < str_val.len() {
                str_val[i as usize] = 0;
                proof {
                    assert(str_val@ =~= fill_prefix(v0, a.subrange(0, i as int), fill));
                }
            }
            return true;
        }
    }
    false
}

/// Scan of a string terminated by the bytes `z`, from byte `i` of `a`,
/// into a buffer of `len` bytes with room for at most `max` characters:
/// whether the terminator was found, and the number of characters before
/// the scan stopped.
pub open spec fn mult_scan(a: Seq<u8>, z: Seq<u8>, max: int, len: int, i: nat) -> (bool, nat)
    decreases a.len() - i,
{
    if z.len() == 0 {
        (true, i)
    } else if i + z.len() > a.len() {
        (false, i)
    } else if a.subrange(i as int, (i + z.len()) as int) == z {
        (true, i)
    } else if i >= max {
        (false, i)
    } else if i >= len {
        (false, i)
    } else {
        mult_scan(a, z, max, len, i + 1)
    }
}

proof fn lemma_mult_scan(a: Seq<u8>, z: Seq<u8>, max: int, len: int, i: nat)
    requires
        i <= a.len(),
    ensures
        i <= mult_scan(a, z, max, len, i).1,
        mult_scan(a, z, max, len, i).1 <= if i <= max { max } else { i as int },
        mult_scan(a, z, max, len, i).0 ==> mult_scan(a, z, max, len, i).1 + z.len() <= a.len(),
    decreases a.len() - i,
{
    if !(z.len() == 0 || i + z.len() > a.len() || a.subrange(i as int, (i + z.len()) as int) == z || i >= max
        || i >= len) {
        lemma_mult_scan(a, z, max, len, i + 1);
    }
}

/// Read characters up to the bytes `null_character` (of which the first
/// 10 count), at most `max` of them.
pub fn acn_dec_string_ascii_null_terminated_mult(
    p_bit_strm: &mut BitStream,
    max: Asn1SccSint,
    null_character: &[u8],
    str_val: &mut [u8],
) -> (r: bool)
    requires
        old(p_bit_strm).wf(),
    ensures
        max < 0 ==> !r && *final(p_bit_strm) == *old(p_bit_strm) && final(str_val)@ == old(str_val)@,
        max >= 0 ==> ({
            let a = octets_at(old(p_bit_strm).bits(), old(p_bit_strm).pos());
            let z = terminator_prefix(null_character@);
            let scan = mult_scan(a, z, max as int, old(str_val)@.len() as int, 0);
            &&& r == scan.0
            &&& final(str_val)@ == fill_prefix(
                old(str_val)@,
                a.subrange(0, scan.1 as int),
                fill_count(max as int, old(str_val)@.len() as int),
            )
            &&& r ==> final(p_bit_strm).advanced(*old(p_bit_strm), (8 * (scan.1 + z.len())) as int)
            &&& !r ==> final(p_bit_strm).same_buffer(*old(p_bit_strm))
        }),
{
    if max < 0 {
        return false;
    }
    let ghost s0 = *p_bit_strm;
    let ghost a = octets_at(s0.bits(), s0.pos());
    let ghost v0 = str_val@;
    let ghost z = terminator_prefix(null_character@);
    let ghost lenv = v0.len() as int;
    let ghost fill = fill_count(max as int, lenv);
    let sz: usize = if null_character.len() < 10 { null_character.len() } else { 10 };
    let mut tmp: Vec<u8> = vec![0u8; 10];
    clear_for_max(str_val, max);
    let mut j: usize = 0;
    proof {
        assert(z.len() == sz);
    }
    while j < sz
        invariant
            j <= sz <= 10,
            tmp@.len() == 10,
            s0 == *old(p_bit_strm),
            s0.wf(),
            a == octets_at(s0.bits(), s0.pos()),
            z == terminator_prefix(null_character@),
            z.len() == sz,
            j <= a.len(),
            p_bit_strm.advanced(s0, 8 * j),
            forall|k: int| 0 <= k < j ==> #[trigger] tmp@[k] == a[k],
            0 <= max,
            v0 == old(str_val)@,
            lenv == v0.len(),
            fill == fill_count(max as int, lenv),
            str_val@ == fill_prefix(v0, Seq::empty(), fill),
        decreases sz - j,
    {
        let ghost s1 = *p_bit_strm;
        let (b, ok) = p_bit_strm.read_byte();
        if !ok {
            proof {
                lemma_no_octet(s0, s1, j as int);
                assert(a.subrange(0, 0) =~= Seq::<u8>::empty());
            }
            return false;
        }
        proof {
            lemma_read_octet(s0, s1, j as int, b);
        }
        tmp.set(j, b);
        j = j + 1;
    }
    let mut i: Asn1SccSint = 0;
    proof {
        assert(a.subrange(0, 0) =~= Seq::<u8>::empty());
    }
    loop
        invariant
            sz <= 10,
            sz == z.len(),
            z == terminator_prefix(null_character@),
            forall|k: int| 0 <= k < sz ==> #[trigger] z[k] == null_character@[k],
            sz <= null_character@.len(),
            tmp@.len() == 10,
            s0 == *old(p_bit_strm),
            s0.wf(),
            a == octets_at(s0.bits(), s0.pos()),
            a.len() <= 0x100_0000_0000,
            v0 == old(str_val)@,
            lenv == v0.len(),
            str_val@.len() == v0.len(),
            fill == fill_count(max as int, lenv),
            0 <= max,
            0 <= i <= max,
            i <= lenv,
            i + sz <= a.len(),
            p_bit_strm.advanced(s0, 8 * (i + sz)),
            forall|k: int| 0 <= k < sz ==> #[trigger] tmp@[k] == a[i + k],
            mult_scan(a, z, max as int, lenv, 0) == mult_scan(a, z, max as int, lenv, i as nat),
            str_val@ == fill_prefix(v0, a.subrange(0, i as int), fill),
        decreases max - i,
    {
        let eq = prefix_eq(null_character, &tmp, sz);
        proof {
            assert(eq == (a.subrange(i as int, i + sz) == z)) by {
                if eq {
                    assert(a.subrange(i as int, i + sz) =~= z);
                } else {
                    if a.subrange(i as int, i + sz) == z {
                        assert forall|k: int| 0 <= k < sz implies null_character@[k] == tmp@[k] by {
                            assert(a.subrange(i as int, i + sz)[k] == z[k]);
                        }
                    }
                }
            }
        }
        if i >= max || eq {
            proof {
                if sz == 0 {
                    assert(mult_scan(a, z, max as int, lenv, i as nat) == (true, i as nat));
                }
            }
            if (i as usize) < str_val.len() {
                str_val[i as usize] = 0;
                proof {
                    assert(str_val@ =~= fill_prefix(v0, a.subrange(0, i as int), fill));
                }
            }
            return eq;
        }
        if (i as usize) >= str_val.len() {
            return false;
        }
        str_val[i as usize] = tmp[0];
        proof {
            assert(tmp@[0] == a[i + 0]);
            assert(str_val@ =~= fill_prefix(v0, a.subrange(0, i + 1), fill));
        }
        let mut k: usize = 0;
        while k + 1 < sz
            invariant
                0 < sz <= 10,
                tmp@.len() == 10,
                k < sz,
                forall|m: int| 0 <= m < k ==> #[trigger] tmp@[m] == a[i + 1 + m],
                forall|m: int| k <= m < sz ==> #[trigger] tmp@[m] == a[i + m],
            decreases sz - k,
        {
            let next = tmp[k + 1];
            tmp.set(k, next);
            proof {
                assert(tmp@[k as int] == a[i + (k + 1)]);
            }
            k = k + 1;
        }
        let ghost s1 = *p_bit_strm;
        let (b, ok) = p_bit_strm.read_byte();
        if !ok {
            proof {
                lemma_no_octet(s0, s1, i + sz);
                assert(mult_scan(a, z, max as int, lenv, (i + 1) as nat) == (false, (i + 1) as nat));
            }
            return false;
        }
        proof {
            lemma_read_octet(s0, s1, i + sz, b);
        }
        tmp.set(sz - 1, b);
        i = i + 1;
    }
}

// ─── Character-index decoders ─────────────────────────────────────────

/// Index number `j` among the indices of `w` bits that follow bit position
/// `p`, read as an `i64` (always 0 when `w` is 0).
pub open spec fn index_at(b: Seq<bool>, p: int, w: int, j: int) -> int {
    if w == 0 {
        0
    } else {
        wrap_i64(bits_value(b.subrange(p + w * j, p + w * j + w)) + 0int)
    }
}

/// The `n` indices into `set` that follow bit position `p` are there and
/// each names a character of `set`.
pub open spec fn char_indices_ok(b: Seq<bool>, p: int, set: Seq<u8>, n: int) -> bool {
    let w = index_width(set) as int;
    &&& (w == 0 || n <= 0 || b.len() - p >= w * n)
    &&& forall|j: int| 0 <= j < n ==> 0 <= #[trigger] index_at(b, p, w, j) < set.len()
}

/// The characters of `set` named by the `n` indices that follow bit position `p`.
pub open spec fn index_chars(b: Seq<bool>, p: int, set: Seq<u8>, n: int) -> Seq<u8> {
    Seq::new(n as nat, |j: int| set[index_at(b, p, index_width(set) as int, j)])
}

/// Clear the buffer, then read `characters_to_decode` characters written as
/// indices in `allowed_char_set`.
fn acn_dec_string_char_index_private(
    p_bit_strm: &mut BitStream,
    max: Asn1SccSint,
    characters_to_decode: Asn1SccSint,
    allowed_char_set: &[u8],
    str_val: &mut [u8],
) -> (r: bool)
    requires
        old(p_bit_strm).wf(),
        allowed_char_set@.len() <= 0x7FFF_FFFF_FFFF_FFFF,
        characters_to_decode <= old(str_val)@.len(),
    ensures
        max < 0 || characters_to_decode > max || allowed_char_set@.len() < 1 ==> !r && *final(p_bit_strm)
            == *old(p_bit_strm) && final(str_val)@ == old(str_val)@,
        !(max < 0 || characters_to_decode > max || allowed_char_set@.len() < 1) ==> ({
            let b = old(p_bit_strm).bits();
            let p = old(p_bit_strm).pos();
            let n = if characters_to_decode > 0 { characters_to_decode as int } else { 0 };
            &&& r == char_indices_ok(b, p, allowed_char_set@, n)
            &&& final(str_val)@.len() == old(str_val)@.len()
            &&& r ==> final(p_bit_strm).advanced(*old(p_bit_strm), index_width(allowed_char_set@) * n)
                && final(str_val)@ == fill_prefix(
                old(str_val)@,
                index_chars(b, p, allowed_char_set@, n),
                fill_count(max as int, old(str_val)@.len() as int),
            )
            &&& !r ==> final(p_bit_strm).same_buffer(*old(p_bit_strm))
        }),
{
    let char_set_size = allowed_char_set.len() as Asn1SccSint;
    if max < 0 || characters_to_decode > max || char_set_size < 1 {
        return false;
    }
    let ghost s0 = *p_bit_strm;
    let ghost b = s0.bits();
    let ghost p = s0.pos();
    let ghost set = allowed_char_set@;
    let ghost w = index_width(set) as int;
    let ghost v0 = str_val@;
    let ghost fill = fill_count(max as int, v0.len() as int);
    clear_for_max(str_val, max);
    let mut i: Asn1SccSint = 0;
    proof {
        assert(index_chars(b, p, set, 0) =~= Seq::<u8>::empty());
        assert(w * 0 == 0);
    }
    while i < characters_to_decode
        invariant
            s0 == *old(p_bit_strm),
            s0.wf(),
            b == s0.bits(),
            p == s0.pos(),
            set == allowed_char_set@,
            char_set_size == set.len(),
            1 <= set.len() <= 0x7FFF_FFFF_FFFF_FFFF,
            w == index_width(set) as int,
            v0 == old(str_val)@,
            str_val@.len() == v0.len(),
            fill == fill_count(max as int, v0.len() as int),
            0 <= i,
            characters_to_decode > 0 ==> i <= characters_to_decode,
            characters_to_decode <= 0 ==> i == 0,
            characters_to_decode <= v0.len(),
            0 <= max,
            characters_to_decode <= max,
            p_bit_strm.advanced(s0, w * i),
            w > 0 && i > 0 ==> b.len() - p >= w * i,
            forall|j: int| 0 <= j < i ==> 0 <= #[trigger] index_at(b, p, w, j) < set.len(),
            str_val@ == fill_prefix(v0, index_chars(b, p, set, i as int), fill),
        decreases characters_to_decode - i,
    {
        let ghost s1 = *p_bit_strm;
        let (char_index, ok) = p_bit_strm.decode_constraint_whole_number(0, char_set_size - 1);
        proof {
            assert(w * i + w == w * (i + 1)) by (nonlinear_arith);
            assert(w * (i + 1) <= w * characters_to_decode) by (nonlinear_arith)
                requires
                    i < characters_to_decode,
                    w >= 0,
            ;
        }
        if !ok {
            proof {
                assert(w > 0);
                assert(!char_indices_ok(b, p, set, characters_to_decode as int));
            }
            return false;
        }
        proof {
            if w > 0 {
                assert(s1.bits().subrange(s1.pos(), s1.pos() + w) =~= b.subrange(p + w * i, p + w * i + w));
            }
            assert(char_index == index_at(b, p, w, i as int));
        }
        if char_index < 0 || char_index >= char_set_size {
            proof {
                assert(!char_indices_ok(b, p, set, characters_to_decode as int));
            }
            return false;
        }
        str_val[i as usize] = allowed_char_set[char_index as usize];
        proof {
            assert(str_val@ =~= fill_prefix(v0, index_chars(b, p, set, i + 1), fill));
        }
        i = i + 1;
    }
    proof {
        let n = if characters_to_decode > 0 { characters_to_decode as int } else { 0 };
        assert(i == n);
    }
    true
}

/// Read exactly `max` characters written as indices in `allowed_char_set`.
pub fn acn_dec_string_char_index_fix_size(
    p_bit_strm: &mut BitStream,
    max: Asn1SccSint,
    allowed_char_set: &[u8],
    str_val: &mut [u8],
) -> (r: bool)
    requires
        old(p_bit_strm).wf(),
        allowed_char_set@.len() <= 0x7FFF_FFFF_FFFF_FFFF,
        max <= old(str_val)@.len(),
    ensures
        max < 0 || allowed_char_set@.len() < 1 ==> !r && *final(p_bit_strm) == *old(p_bit_strm)
            && final(str_val)@ == old(str_val)@,
        !(max < 0 || allowed_char_set@.len() < 1) ==> ({
            let b = old(p_bit_strm).bits();
            let p = old(p_bit_strm).pos();
            &&& r == char_indices_ok(b, p, allowed_char_set@, max as int)
            &&& final(str_val)@.len() == old(str_val)@.len()
            &&& r ==> final(p_bit_strm).advanced(*old(p_bit_strm), index_width(allowed_char_set@) * max)
                && final(str_val)@ == fill_prefix(
                old(str_val)@,
                index_chars(b, p, allowed_char_set@, max as int),
                fill_count(max as int, old(str_val)@.len() as int),
            )
            &&& !r ==> final(p_bit_strm).same_buffer(*old(p_bit_strm))
        }),
{
    acn_dec_string_char_index_private(p_bit_strm, max, max, allowed_char_set, str_val)
}

/// Read `ext_size_determinant_fld` characters written as indices in
/// `allowed_char_set`, a count found elsewhere that must not exceed `max`.
pub fn acn_dec_string_char_index_external_field_determinant(
    p_bit_strm: &mut BitStream,
    max: Asn1SccSint,
    allowed_char_set: &[u8],
    ext_size_determinant_fld: Asn1SccSint,
    str_val: &mut [u8],
) -> (r: bool)
    requires
        old(p_bit_strm).wf(),
        allowed_char_set@.len() <= 0x7FFF_FFFF_FFFF_FFFF,
        ext_size_determinant_fld <= old(str_val)@.len(),
    ensures
        max < 0 || ext_size_determinant_fld > max || allowed_char_set@.len() < 1 ==> !r
            && *final(p_bit_strm) == *old(p_bit_strm) && final(str_val)@ == old(str_val)@,
        !(max < 0 || ext_size_determinant_fld > max || allowed_char_set@.len() < 1) ==> ({
            let b = old(p_bit_strm).bits();
            let p = old(p_bit_strm).pos();
            let n = if ext_size_determinant_fld > 0 { ext_size_determinant_fld as int } else { 0 };
            &&& r == char_indices_ok(b, p, allowed_char_set@, n)
            &&& final(str_val)@.len() == old(str_val)@.len()
            &&& r ==> final(p_bit_strm).advanced(*old(p_bit_strm), index_width(allowed_char_set@) * n)
                && final(str_val)@ == fill_prefix(
                old(str_val)@,
                index_chars(b, p, allowed_char_set@, n),
                fill_count(max as int, old(str_val)@.len() as int),
            )
            &&& !r ==> final(p_bit_strm).same_buffer(*old(p_bit_strm))
        }),
{
    if ext_size_determinant_fld > max {
        return false;
    }
    let chars = ext_size_determinant_fld;
    acn_dec_string_char_index_private(p_bit_strm, max, chars, allowed_char_set, str_val)
}

/// Read a character count between `min` and `max`, then that many
/// characters written as indices in `allowed_char_set`.
pub fn acn_dec_string_char_index_internal_field_determinant(
    p_bit_strm: &mut BitStream,
    max: Asn1SccSint,
    allowed_char_set: &[u8],
    min: Asn1SccSint,
    str_val: &mut [u8],
) -> (r: bool)
    requires
        old(p_bit_strm).wf(),
        min <= max,
        allowed_char_set@.len() <= 0x7FFF_FFFF_FFFF_FFFF,
        match announced_count(old(p_bit_strm).bits(), old(p_bit_strm).pos(), min as int, max as int) {
            Some((n, k)) => n <= old(str_val)@.len(),
            None => true,
        },
    ensures
        match announced_count(old(p_bit_strm).bits(), old(p_bit_strm).pos(), min as int, max as int) {
            None => !r && final(p_bit_strm).same_buffer(*old(p_bit_strm)) && final(str_val)@ == old(str_val)@,
            Some((n, k)) => if max < 0 || allowed_char_set@.len() < 1 {
                !r && final(p_bit_strm).advanced(*old(p_bit_strm), k) && final(str_val)@ == old(str_val)@
            } else {
                let b = old(p_bit_strm).bits();
                let p = old(p_bit_strm).pos() + k;
                let c = if n > 0 { n } else { 0 };
                &&& r == char_indices_ok(b, p, allowed_char_set@, c)
                &&& final(str_val)@.len() == old(str_val)@.len()
                &&& r ==> final(p_bit_strm).advanced(*old(p_bit_strm), k + index_width(allowed_char_set@) * c)
                    && final(str_val)@ == fill_prefix(
                    old(str_val)@,
                    index_chars(b, p, allowed_char_set@, c),
                    fill_count(max as int, old(str_val)@.len() as int),
                )
                &&& !r ==> final(p_bit_strm).same_buffer(*old(p_bit_strm))
            },
        },
{
    let (n_count, ok) = p_bit_strm.decode_constraint_whole_number(min, max);
    if !ok {
        return false;
    }
    let chars = if n_count <= max { n_count } else { max };
    acn_dec_string_char_index_private(p_bit_strm, max, chars, allowed_char_set, str_val)
}

/// Read `ext_size_determinant_fld` characters written as IA5 indices, a
/// count found elsewhere that must not exceed `max`.
pub fn acn_dec_ia5string_char_index_external_field_determinant(
    p_bit_strm: &mut BitStream,
    max: Asn1SccSint,
    ext_size_determinant_fld: Asn1SccSint,
    str_val: &mut [u8],
) -> (r: bool)
    requires
        old(p_bit_strm).wf(),
        ext_size_determinant_fld <= old(str_val)@.len(),
    ensures
        max < 0 || ext_size_determinant_fld > max ==> !r && *final(p_bit_strm) == *old(p_bit_strm)
            && final(str_val)@ == old(str_val)@,
        !(max < 0 || ext_size_determinant_fld > max) ==> ({
            let b = old(p_bit_strm).bits();
            let p = old(p_bit_strm).pos();
            let n = if ext_size_determinant_fld > 0 { ext_size_determinant_fld as int } else { 0 };
            &&& r == char_indices_ok(b, p, ia5_char_set(), n)
            &&& final(str_val)@.len() == old(str_val)@.len()
            &&& r ==> final(p_bit_strm).advanced(*old(p_bit_strm), 7 * n) && final(str_val)@ == fill_prefix(
                old(str_val)@,
                index_chars(b, p, ia5_char_set(), n),
                fill_count(max as int, old(str_val)@.len() as int),
            )
            &&& !r ==> final(p_bit_strm).same_buffer(*old(p_bit_strm))
        }),
{
    let set = ia5_chars();
    proof {
        lemma_ia5_index_width();
    }
    acn_dec_string_char_index_external_field_determinant(p_bit_strm, max, set.as_slice(), ext_size_determinant_fld, str_val)
}

/// Read a character count between `min` and `max`, then that many
/// characters written as IA5 indices.
pub fn acn_dec_ia5string_char_index_internal_field_determinant(
    p_bit_strm: &mut BitStream,
    max: Asn1SccSint,
    min: Asn1SccSint,
    str_val: &mut [u8],
) -> (r: bool)
    requires
        old(p_bit_strm).wf(),
        min <= max,
        match announced_count(old(p_bit_strm).bits(), old(p_bit_strm).pos(), min as int, max as int) {
            Some((n, k)) => n <= old(str_val)@.len(),
            None => true,
        },
    ensures
        match announced_count(old(p_bit_strm).bits(), old(p_bit_strm).pos(), min as int, max as int) {
            None => !r && final(p_bit_strm).same_buffer(*old(p_bit_strm)) && final(str_val)@ == old(str_val)@,
            Some((n, k)) => if max < 0 {
                !r && final(p_bit_strm).advanced(*old(p_bit_strm), k) && final(str_val)@ == old(str_val)@
            } else {
                let b = old(p_bit_strm).bits();
                let p = old(p_bit_strm).pos() + k;
                let c = if n > 0 { n } else { 0 };
                &&& r == char_indices_ok(b, p, ia5_char_set(), c)
                &&& final(str_val)@.len() == old(str_val)@.len()
                &&& r ==> final(p_bit_strm).advanced(*old(p_bit_strm), k + 7 * c) && final(str_val)@
                    == fill_prefix(
                    old(str_val)@,
                    index_chars(b, p, ia5_char_set(), c),
                    fill_count(max as int, old(str_val)@.len() as int),
                )
                &&& !r ==> final(p_bit_strm).same_buffer(*old(p_bit_strm))
            },
        },
{
    let set = ia5_chars();
    proof {
        lemma_ia5_index_width();
    }
    acn_dec_string_char_index_internal_field_determinant(p_bit_strm, max, set.as_slice(), min, str_val)
}

} // verus!
