//! Numbers keep their value in every type that holds it.

use crate::as_num::AsNum;
use vstd::prelude::*;

verus! {

/// A number of `u8` that another type holds is the same number there.
pub proof fn law_u8_keeps_value(x: u8)
    ensures
        AsNum::<u8>::converted(x) == x,
        i8::MIN <= x <= i8::MAX ==> AsNum::<i8>::converted(x) == x,
        u16::MIN <= x <= u16::MAX ==> AsNum::<u16>::converted(x) == x,
        i16::MIN <= x <= i16::MAX ==> AsNum::<i16>::converted(x) == x,
        u32::MIN <= x <= u32::MAX ==> AsNum::<u32>::converted(x) == x,
        i32::MIN <= x <= i32::MAX ==> AsNum::<i32>::converted(x) == x,
        u64::MIN <= x <= u64::MAX ==> AsNum::<u64>::converted(x) == x,
        i64::MIN <= x <= i64::MAX ==> AsNum::<i64>::converted(x) == x,
        u128::MIN <= x <= u128::MAX ==> AsNum::<u128>::converted(x) == x,
        i128::MIN <= x <= i128::MAX ==> AsNum::<i128>::converted(x) == x,
{
}

/// A number of `i8` that another type holds is the same number there.
pub proof fn law_i8_keeps_value(x: i8)
    ensures
        u8::MIN <= x <= u8::MAX ==> AsNum::<u8>::converted(x) == x,
        AsNum::<i8>::converted(x) == x,
        u16::MIN <= x <= u16::MAX ==> AsNum::<u16>::converted(x) == x,
        i16::MIN <= x <= i16::MAX ==> AsNum::<i16>::converted(x) == x,
        u32::MIN <= x <= u32::MAX ==> AsNum::<u32>::converted(x) == x,
        i32::MIN <= x <= i32::MAX ==> AsNum::<i32>::converted(x) == x,
        u64::MIN <= x <= u64::MAX ==> AsNum::<u64>::converted(x) == x,
        i64::MIN <= x <= i64::MAX ==> AsNum::<i64>::converted(x) == x,
        u128::MIN <= x <= u128::MAX ==> AsNum::<u128>::converted(x) == x,
        i128::MIN <= x <= i128::MAX ==> AsNum::<i128>::converted(x) == x,
{
}

/// A number of `u16` that another type holds is the same number there.
pub proof fn law_u16_keeps_value(x: u16)
    ensures
        u8::MIN <= x <= u8::MAX ==> AsNum::<u8>::converted(x) == x,
        i8::MIN <= x <= i8::MAX ==> AsNum::<i8>::converted(x) == x,
        AsNum::<u16>::converted(x) == x,
        i16::MIN <= x <= i16::MAX ==> AsNum::<i16>::converted(x) == x,
        u32::MIN <= x <= u32::MAX ==> AsNum::<u32>::converted(x) == x,
        i32::MIN <= x <= i32::MAX ==> AsNum::<i32>::converted(x) == x,
        u64::MIN <= x <= u64::MAX ==> AsNum::<u64>::converted(x) == x,
        i64::MIN <= x <= i64::MAX ==> AsNum::<i64>::converted(x) == x,
        u128::MIN <= x <= u128::MAX ==> AsNum::<u128>::converted(x) == x,
        i128::MIN <= x <= i128::MAX ==> AsNum::<i128>::converted(x) == x,
{
}

/// A number of `i16` that another type holds is the same number there.
pub proof fn law_i16_keeps_value(x: i16)
    ensures
        u8::MIN <= x <= u8::MAX ==> AsNum::<u8>::converted(x) == x,
        i8::MIN <= x <= i8::MAX ==> AsNum::<i8>::converted(x) == x,
        u16::MIN <= x <= u16::MAX ==> AsNum::<u16>::converted(x) == x,
        AsNum::<i16>::converted(x) == x,
        u32::MIN <= x <= u32::MAX ==> AsNum::<u32>::converted(x) == x,
        i32::MIN <= x <= i32::MAX ==> AsNum::<i32>::converted(x) == x,
        u64::MIN <= x <= u64::MAX ==> AsNum::<u64>::converted(x) == x,
        i64::MIN <= x <= i64::MAX ==> AsNum::<i64>::converted(x) == x,
        u128::MIN <= x <= u128::MAX ==> AsNum::<u128>::converted(x) == x,
        i128::MIN <= x <= i128::MAX ==> AsNum::<i128>::converted(x) == x,
{
}

/// A number of `u32` that another type holds is the same number there.
pub proof fn law_u32_keeps_value(x: u32)
    ensures
        u8::MIN <= x <= u8::MAX ==> AsNum::<u8>::converted(x) == x,
        i8::MIN <= x <= i8::MAX ==> AsNum::<i8>::converted(x) == x,
        u16::MIN <= x <= u16::MAX ==> AsNum::<u16>::converted(x) == x,
        i16::MIN <= x <= i16::MAX ==> AsNum::<i16>::converted(x) == x,
        AsNum::<u32>::converted(x) == x,
        i32::MIN <= x <= i32::MAX ==> AsNum::<i32>::converted(x) == x,
        u64::MIN <= x <= u64::MAX ==> AsNum::<u64>::converted(x) == x,
        i64::MIN <= x <= i64::MAX ==> AsNum::<i64>::converted(x) == x,
        u128::MIN <= x <= u128::MAX ==> AsNum::<u128>::converted(x) == x,
        i128::MIN <= x <= i128::MAX ==> AsNum::<i128>::converted(x) == x,
{
}

/// A number of `i32` that another type holds is the same number there.
pub proof fn law_i32_keeps_value(x: i32)
    ensures
        u8::MIN <= x <= u8::MAX ==> AsNum::<u8>::converted(x) == x,
        i8::MIN <= x <= i8::MAX ==> AsNum::<i8>::converted(x) == x,
        u16::MIN <= x <= u16::MAX ==> AsNum::<u16>::converted(x) == x,
        i16::MIN <= x <= i16::MAX ==> AsNum::<i16>::converted(x) == x,
        u32::MIN <= x <= u32::MAX ==> AsNum::<u32>::converted(x) == x,
        AsNum::<i32>::converted(x) == x,
        u64::MIN <= x <= u64::MAX ==> AsNum::<u64>::converted(x) == x,
        i64::MIN <= x <= i64::MAX ==> AsNum::<i64>::converted(x) == x,
        u128::MIN <= x <= u128::MAX ==> AsNum::<u128>::converted(x) == x,
        i128::MIN <= x <= i128::MAX ==> AsNum::<i128>::converted(x) == x,
{
}

/// A number of `u64` that another type holds is the same number there.
pub proof fn law_u64_keeps_value(x: u64)
    ensures
        u8::MIN <= x <= u8::MAX ==> AsNum::<u8>::converted(x) == x,
        i8::MIN <= x <= i8::MAX ==> AsNum::<i8>::converted(x) == x,
        u16::MIN <= x <= u16::MAX ==> AsNum::<u16>::converted(x) == x,
        i16::MIN <= x <= i16::MAX ==> AsNum::<i16>::converted(x) == x,
        u32::MIN <= x <= u32::MAX ==> AsNum::<u32>::converted(x) == x,
        i32::MIN <= x <= i32::MAX ==> AsNum::<i32>::converted(x) == x,
        AsNum::<u64>::converted(x) == x,
        i64::MIN <= x <= i64::MAX ==> AsNum::<i64>::converted(x) == x,
        u128::MIN <= x <= u128::MAX ==> AsNum::<u128>::converted(x) == x,
        i128::MIN <= x <= i128::MAX ==> AsNum::<i128>::converted(x) == x,
{
}

/// A number of `i64` that another type holds is the same number there.
pub proof fn law_i64_keeps_value(x: i64)
    ensures
        u8::MIN <= x <= u8::MAX ==> AsNum::<u8>::converted(x) == x,
        i8::MIN <= x <= i8::MAX ==> AsNum::<i8>::converted(x) == x,
        u16::MIN <= x <= u16::MAX ==> AsNum::<u16>::converted(x) == x,
        i16::MIN <= x <= i16::MAX ==> AsNum::<i16>::converted(x) == x,
        u32::MIN <= x <= u32::MAX ==> AsNum::<u32>::converted(x) == x,
        i32::MIN <= x <= i32::MAX ==> AsNum::<i32>::converted(x) == x,
        u64::MIN <= x <= u64::MAX ==> AsNum::<u64>::converted(x) == x,
        AsNum::<i64>::converted(x) == x,
        u128::MIN <= x <= u128::MAX ==> AsNum::<u128>::converted(x) == x,
        i128::MIN <= x <= i128::MAX ==> AsNum::<i128>::converted(x) == x,
{
}

/// A number of `u128` that another type holds is the same number there.
pub proof fn law_u128_keeps_value(x: u128)
    ensures
        u8::MIN <= x <= u8::MAX ==> AsNum::<u8>::converted(x) == x,
        i8::MIN <= x <= i8::MAX ==> AsNum::<i8>::converted(x) == x,
        u16::MIN <= x <= u16::MAX ==> AsNum::<u16>::converted(x) == x,
        i16::MIN <= x <= i16::MAX ==> AsNum::<i16>::converted(x) == x,
        u32::MIN <= x <= u32::MAX ==> AsNum::<u32>::converted(x) == x,
        i32::MIN <= x <= i32::MAX ==> AsNum::<i32>::converted(x) == x,
        u64::MIN <= x <= u64::MAX ==> AsNum::<u64>::converted(x) == x,
        i64::MIN <= x <= i64::MAX ==> AsNum::<i64>::converted(x) == x,
        AsNum::<u128>::converted(x) == x,
        i128::MIN <= x <= i128::MAX ==> AsNum::<i128>::converted(x) == x,
{
}

/// A number of `i128` that another type holds is the same number there.
pub proof fn law_i128_keeps_value(x: i128)
    ensures
        u8::MIN <= x <= u8::MAX ==> AsNum::<u8>::converted(x) == x,
        i8::MIN <= x <= i8::MAX ==> AsNum::<i8>::converted(x) == x,
        u16::MIN <= x <= u16::MAX ==> AsNum::<u16>::converted(x) == x,
        i16::MIN <= x <= i16::MAX ==> AsNum::<i16>::converted(x) == x,
        u32::MIN <= x <= u32::MAX ==> AsNum::<u32>::converted(x) == x,
        i32::MIN <= x <= i32::MAX ==> AsNum::<i32>::converted(x) == x,
        u64::MIN <= x <= u64::MAX ==> AsNum::<u64>::converted(x) == x,
        i64::MIN <= x <= i64::MAX ==> AsNum::<i64>::converted(x) == x,
        u128::MIN <= x <= u128::MAX ==> AsNum::<u128>::converted(x) == x,
        AsNum::<i128>::converted(x) == x,
{
}

} // verus!
