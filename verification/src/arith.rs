use vstd::prelude::*;

verus! {

/// `x` clamped into the range of `i32`.
pub open spec fn clamp_i32(x: int) -> i32 {
    if x > i32::MAX {
        i32::MAX
    } else if x < i32::MIN {
        i32::MIN
    } else {
        x as i32
    }
}

/// Addition that saturates at the bounds of `i32`.
pub fn sat_add(a: i32, b: i32) -> (r: i32)
    ensures
        r == clamp_i32(a + b),
{
    let s: i64 = a as i64 + b as i64;
    if s > i32::MAX as i64 {
        i32::MAX
    } else if s < i32::MIN as i64 {
        i32::MIN
    } else {
        s as i32
    }
}

/// Subtraction that saturates at the bounds of `i32`.
pub fn sat_sub(a: i32, b: i32) -> (r: i32)
    ensures
        r == clamp_i32(a - b),
{
    let s: i64 = a as i64 - b as i64;
    if s > i32::MAX as i64 {
        i32::MAX
    } else if s < i32::MIN as i64 {
        i32::MIN
    } else {
        s as i32
    }
}

/// Multiplication that saturates at the bounds of `i32`.
pub fn sat_mul(a: i32, b: i32) -> (r: i32)
    ensures
        r == clamp_i32(a * b),
{
    assert(-0x8000_0000 * 0x8000_0000 <= a * b <= 0x8000_0000 * 0x8000_0000) by (nonlinear_arith)
        requires
            -0x8000_0000 <= a <= 0x7fff_ffff,
            -0x8000_0000 <= b <= 0x7fff_ffff,
    ;
    let s: i64 = a as i64 * b as i64;
    if s > i32::MAX as i64 {
        i32::MAX
    } else if s < i32::MIN as i64 {
        i32::MIN
    } else {
        s as i32
    }
}

/// The larger of two integers.
pub fn max_i32(a: i32, b: i32) -> (r: i32)
    ensures
        r == if a >= b { a } else { b },
{
    if a >= b { a } else { b }
}

} // verus!
