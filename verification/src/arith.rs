//! Saturating signed arithmetic.

use vstd::prelude::*;

verus! {

/// The closest value that a signed 32-bit integer can hold.
pub open spec fn sat_i32(value: int) -> i32 {
    if value > i32::MAX {
        i32::MAX
    } else if value < i32::MIN {
        i32::MIN
    } else {
        value as i32
    }
}

pub open spec fn min_int(a: int, b: int) -> int {
    if a <= b {
        a
    } else {
        b
    }
}

pub open spec fn max_int(a: int, b: int) -> int {
    if a >= b {
        a
    } else {
        b
    }
}

pub fn saturating_sum(a: i32, b: i32) -> (r: i32)
    ensures
        r == sat_i32(a + b),
{
    let wide: i64 = a as i64 + b as i64;
    if wide > i32::MAX as i64 {
        i32::MAX
    } else if wide < i32::MIN as i64 {
        i32::MIN
    } else {
        wide as i32
    }
}

pub fn saturating_difference(a: i32, b: i32) -> (r: i32)
    ensures
        r == sat_i32(a - b),
{
    let wide: i64 = a as i64 - b as i64;
    if wide > i32::MAX as i64 {
        i32::MAX
    } else if wide < i32::MIN as i64 {
        i32::MIN
    } else {
        wide as i32
    }
}

pub fn min_i32(a: i32, b: i32) -> (r: i32)
    ensures
        r == min_int(a as int, b as int),
{
    if a <= b {
        a
    } else {
        b
    }
}

pub fn max_i32(a: i32, b: i32) -> (r: i32)
    ensures
        r == max_int(a as int, b as int),
{
    if a >= b {
        a
    } else {
        b
    }
}

pub fn min_u32(a: u32, b: u32) -> (r: u32)
    ensures
        r == min_int(a as int, b as int),
{
    if a <= b {
        a
    } else {
        b
    }
}

pub fn max_u32(a: u32, b: u32) -> (r: u32)
    ensures
        r == max_int(a as int, b as int),
{
    if a >= b {
        a
    } else {
        b
    }
}

} // verus!
