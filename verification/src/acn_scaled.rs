//! The integer side of scaled REAL fields. A signed scaled field stores the
//! offset of its value from the lower bound `int_min` as an unsigned
//! number, in 64-bit wrapping arithmetic; scaling the offset to and from a
//! real value is left to the caller.
use vstd::prelude::*;
use crate::octets::{wrap_i64, wrap_u64};

verus! {

/// The number of steps between `int_min` and `int_max`, in 64-bit
/// wrapping arithmetic: the largest offset a scaled field can hold.
pub fn acn_scaled_sint_range(int_min: i64, int_max: i64) -> (r: u64)
    ensures
        r == wrap_u64(int_max - int_min),
{
    let d: i128 = int_max as i128 - int_min as i128;
    if d < 0 {
        (d + 0x1_0000_0000_0000_0000i128) as u64
    } else {
        d as u64
    }
}

/// The offset of `int_val` from `int_min`, in 64-bit wrapping arithmetic.
pub fn acn_scaled_sint_offset(int_val: i64, int_min: i64) -> (r: u64)
    ensures
        r == wrap_u64(int_val - int_min),
{
    acn_scaled_sint_range(int_min, int_val)
}

/// The signed value `delta` steps above `int_min`, in 64-bit wrapping
/// arithmetic.
pub fn acn_scaled_sint_from_offset(int_min: i64, delta: u64) -> (r: i64)
    ensures
        r == wrap_i64(int_min + delta),
{
    let w: i128 = int_min as i128 + delta as i128;
    if w > 0x7FFF_FFFF_FFFF_FFFFi128 {
        (w - 0x1_0000_0000_0000_0000i128) as i64
    } else {
        w as i64
    }
}

/// A value turned into its offset from `int_min` and back is itself.
pub proof fn law_scaled_sint_offset_roundtrip(int_val: i64, int_min: i64)
    ensures
        wrap_i64(int_min + wrap_u64(int_val - int_min)) == int_val,
{
}

} // verus!
