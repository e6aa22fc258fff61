//! Conversions between the integer types.

use vstd::prelude::*;

verus! {

/// A number that can be converted to another type. Where it does not fit, its lowest bits are
/// kept.
pub trait AsNum<Converted>: Sized {
    spec fn converted(self) -> Converted;

    fn as_num(self) -> (r: Converted)
        ensures
            r == self.converted(),
    ;
}

impl AsNum<u8> for u8 {
    open spec fn converted(self) -> u8 {
        self as u8
    }

    fn as_num(self) -> (r: u8) {
        self as u8
    }
}

impl AsNum<i8> for u8 {
    open spec fn converted(self) -> i8 {
        self as i8
    }

    fn as_num(self) -> (r: i8) {
        self as i8
    }
}

impl AsNum<u16> for u8 {
    open spec fn converted(self) -> u16 {
        self as u16
    }

    fn as_num(self) -> (r: u16) {
        self as u16
    }
}

impl AsNum<i16> for u8 {
    open spec fn converted(self) -> i16 {
        self as i16
    }

    fn as_num(self) -> (r: i16) {
        self as i16
    }
}

impl AsNum<u32> for u8 {
    open spec fn converted(self) -> u32 {
        self as u32
    }

    fn as_num(self) -> (r: u32) {
        self as u32
    }
}

impl AsNum<i32> for u8 {
    open spec fn converted(self) -> i32 {
        self as i32
    }

    fn as_num(self) -> (r: i32) {
        self as i32
    }
}

impl AsNum<u64> for u8 {
    open spec fn converted(self) -> u64 {
        self as u64
    }

    fn as_num(self) -> (r: u64) {
        self as u64
    }
}

impl AsNum<i64> for u8 {
    open spec fn converted(self) -> i64 {
        self as i64
    }

    fn as_num(self) -> (r: i64) {
        self as i64
    }
}

impl AsNum<u128> for u8 {
    open spec fn converted(self) -> u128 {
        self as u128
    }

    fn as_num(self) -> (r: u128) {
        self as u128
    }
}

impl AsNum<i128> for u8 {
    open spec fn converted(self) -> i128 {
        self as i128
    }

    fn as_num(self) -> (r: i128) {
        self as i128
    }
}

impl AsNum<u8> for i8 {
    open spec fn converted(self) -> u8 {
        self as u8
    }

    fn as_num(self) -> (r: u8) {
        self as u8
    }
}

impl AsNum<i8> for i8 {
    open spec fn converted(self) -> i8 {
        self as i8
    }

    fn as_num(self) -> (r: i8) {
        self as i8
    }
}

impl AsNum<u16> for i8 {
    open spec fn converted(self) -> u16 {
        self as u16
    }

    fn as_num(self) -> (r: u16) {
        self as u16
    }
}

impl AsNum<i16> for i8 {
    open spec fn converted(self) -> i16 {
        self as i16
    }

    fn as_num(self) -> (r: i16) {
        self as i16
    }
}

impl AsNum<u32> for i8 {
    open spec fn converted(self) -> u32 {
        self as u32
    }

    fn as_num(self) -> (r: u32) {
        self as u32
    }
}

impl AsNum<i32> for i8 {
    open spec fn converted(self) -> i32 {
        self as i32
    }

    fn as_num(self) -> (r: i32) {
        self as i32
    }
}

impl AsNum<u64> for i8 {
    open spec fn converted(self) -> u64 {
        self as u64
    }

    fn as_num(self) -> (r: u64) {
        self as u64
    }
}

impl AsNum<i64> for i8 {
    open spec fn converted(self) -> i64 {
        self as i64
    }

    fn as_num(self) -> (r: i64) {
        self as i64
    }
}

impl AsNum<u128> for i8 {
    open spec fn converted(self) -> u128 {
        self as u128
    }

    fn as_num(self) -> (r: u128) {
        self as u128
    }
}

impl AsNum<i128> for i8 {
    open spec fn converted(self) -> i128 {
        self as i128
    }

    fn as_num(self) -> (r: i128) {
        self as i128
    }
}

impl AsNum<u8> for u16 {
    open spec fn converted(self) -> u8 {
        self as u8
    }

    fn as_num(self) -> (r: u8) {
        self as u8
    }
}

impl AsNum<i8> for u16 {
    open spec fn converted(self) -> i8 {
        self as i8
    }

    fn as_num(self) -> (r: i8) {
        self as i8
    }
}

impl AsNum<u16> for u16 {
    open spec fn converted(self) -> u16 {
        self as u16
    }

    fn as_num(self) -> (r: u16) {
        self as u16
    }
}

impl AsNum<i16> for u16 {
    open spec fn converted(self) -> i16 {
        self as i16
    }

    fn as_num(self) -> (r: i16) {
        self as i16
    }
}

impl AsNum<u32> for u16 {
    open spec fn converted(self) -> u32 {
        self as u32
    }

    fn as_num(self) -> (r: u32) {
        self as u32
    }
}

impl AsNum<i32> for u16 {
    open spec fn converted(self) -> i32 {
        self as i32
    }

    fn as_num(self) -> (r: i32) {
        self as i32
    }
}

impl AsNum<u64> for u16 {
    open spec fn converted(self) -> u64 {
        self as u64
    }

    fn as_num(self) -> (r: u64) {
        self as u64
    }
}

impl AsNum<i64> for u16 {
    open spec fn converted(self) -> i64 {
        self as i64
    }

    fn as_num(self) -> (r: i64) {
        self as i64
    }
}

impl AsNum<u128> for u16 {
    open spec fn converted(self) -> u128 {
        self as u128
    }

    fn as_num(self) -> (r: u128) {
        self as u128
    }
}

impl AsNum<i128> for u16 {
    open spec fn converted(self) -> i128 {
        self as i128
    }

    fn as_num(self) -> (r: i128) {
        self as i128
    }
}

impl AsNum<u8> for i16 {
    open spec fn converted(self) -> u8 {
        self as u8
    }

    fn as_num(self) -> (r: u8) {
        self as u8
    }
}

impl AsNum<i8> for i16 {
    open spec fn converted(self) -> i8 {
        self as i8
    }

    fn as_num(self) -> (r: i8) {
        self as i8
    }
}

impl AsNum<u16> for i16 {
    open spec fn converted(self) -> u16 {
        self as u16
    }

    fn as_num(self) -> (r: u16) {
        self as u16
    }
}

impl AsNum<i16> for i16 {
    open spec fn converted(self) -> i16 {
        self as i16
    }

    fn as_num(self) -> (r: i16) {
        self as i16
    }
}

impl AsNum<u32> for i16 {
    open spec fn converted(self) -> u32 {
        self as u32
    }

    fn as_num(self) -> (r: u32) {
        self as u32
    }
}

impl AsNum<i32> for i16 {
    open spec fn converted(self) -> i32 {
        self as i32
    }

    fn as_num(self) -> (r: i32) {
        self as i32
    }
}

impl AsNum<u64> for i16 {
    open spec fn converted(self) -> u64 {
        self as u64
    }

    fn as_num(self) -> (r: u64) {
        self as u64
    }
}

impl AsNum<i64> for i16 {
    open spec fn converted(self) -> i64 {
        self as i64
    }

    fn as_num(self) -> (r: i64) {
        self as i64
    }
}

impl AsNum<u128> for i16 {
    open spec fn converted(self) -> u128 {
        self as u128
    }

    fn as_num(self) -> (r: u128) {
        self as u128
    }
}

impl AsNum<i128> for i16 {
    open spec fn converted(self) -> i128 {
        self as i128
    }

    fn as_num(self) -> (r: i128) {
        self as i128
    }
}

impl AsNum<u8> for u32 {
    open spec fn converted(self) -> u8 {
        self as u8
    }

    fn as_num(self) -> (r: u8) {
        self as u8
    }
}

impl AsNum<i8> for u32 {
    open spec fn converted(self) -> i8 {
        self as i8
    }

    fn as_num(self) -> (r: i8) {
        self as i8
    }
}

impl AsNum<u16> for u32 {
    open spec fn converted(self) -> u16 {
        self as u16
    }

    fn as_num(self) -> (r: u16) {
        self as u16
    }
}

impl AsNum<i16> for u32 {
    open spec fn converted(self) -> i16 {
        self as i16
    }

    fn as_num(self) -> (r: i16) {
        self as i16
    }
}

impl AsNum<u32> for u32 {
    open spec fn converted(self) -> u32 {
        self as u32
    }

    fn as_num(self) -> (r: u32) {
        self as u32
    }
}

impl AsNum<i32> for u32 {
    open spec fn converted(self) -> i32 {
        self as i32
    }

    fn as_num(self) -> (r: i32) {
        self as i32
    }
}

impl AsNum<u64> for u32 {
    open spec fn converted(self) -> u64 {
        self as u64
    }

    fn as_num(self) -> (r: u64) {
        self as u64
    }
}

impl AsNum<i64> for u32 {
    open spec fn converted(self) -> i64 {
        self as i64
    }

    fn as_num(self) -> (r: i64) {
        self as i64
    }
}

impl AsNum<u128> for u32 {
    open spec fn converted(self) -> u128 {
        self as u128
    }

    fn as_num(self) -> (r: u128) {
        self as u128
    }
}

impl AsNum<i128> for u32 {
    open spec fn converted(self) -> i128 {
        self as i128
    }

    fn as_num(self) -> (r: i128) {
        self as i128
    }
}

impl AsNum<u8> for i32 {
    open spec fn converted(self) -> u8 {
        self as u8
    }

    fn as_num(self) -> (r: u8) {
        self as u8
    }
}

impl AsNum<i8> for i32 {
    open spec fn converted(self) -> i8 {
        self as i8
    }

    fn as_num(self) -> (r: i8) {
        self as i8
    }
}

impl AsNum<u16> for i32 {
    open spec fn converted(self) -> u16 {
        self as u16
    }

    fn as_num(self) -> (r: u16) {
        self as u16
    }
}

impl AsNum<i16> for i32 {
    open spec fn converted(self) -> i16 {
        self as i16
    }

    fn as_num(self) -> (r: i16) {
        self as i16
    }
}

impl AsNum<u32> for i32 {
    open spec fn converted(self) -> u32 {
        self as u32
    }

    fn as_num(self) -> (r: u32) {
        self as u32
    }
}

impl AsNum<i32> for i32 {
    open spec fn converted(self) -> i32 {
        self as i32
    }

    fn as_num(self) -> (r: i32) {
        self as i32
    }
}

impl AsNum<u64> for i32 {
    open spec fn converted(self) -> u64 {
        self as u64
    }

    fn as_num(self) -> (r: u64) {
        self as u64
    }
}

impl AsNum<i64> for i32 {
    open spec fn converted(self) -> i64 {
        self as i64
    }

    fn as_num(self) -> (r: i64) {
        self as i64
    }
}

impl AsNum<u128> for i32 {
    open spec fn converted(self) -> u128 {
        self as u128
    }

    fn as_num(self) -> (r: u128) {
        self as u128
    }
}

impl AsNum<i128> for i32 {
    open spec fn converted(self) -> i128 {
        self as i128
    }

    fn as_num(self) -> (r: i128) {
        self as i128
    }
}

impl AsNum<u8> for u64 {
    open spec fn converted(self) -> u8 {
        self as u8
    }

    fn as_num(self) -> (r: u8) {
        self as u8
    }
}

impl AsNum<i8> for u64 {
    open spec fn converted(self) -> i8 {
        self as i8
    }

    fn as_num(self) -> (r: i8) {
        self as i8
    }
}

impl AsNum<u16> for u64 {
    open spec fn converted(self) -> u16 {
        self as u16
    }

    fn as_num(self) -> (r: u16) {
        self as u16
    }
}

impl AsNum<i16> for u64 {
    open spec fn converted(self) -> i16 {
        self as i16
    }

    fn as_num(self) -> (r: i16) {
        self as i16
    }
}

impl AsNum<u32> for u64 {
    open spec fn converted(self) -> u32 {
        self as u32
    }

    fn as_num(self) -> (r: u32) {
        self as u32
    }
}

impl AsNum<i32> for u64 {
    open spec fn converted(self) -> i32 {
        self as i32
    }

    fn as_num(self) -> (r: i32) {
        self as i32
    }
}

impl AsNum<u64> for u64 {
    open spec fn converted(self) -> u64 {
        self as u64
    }

    fn as_num(self) -> (r: u64) {
        self as u64
    }
}

impl AsNum<i64> for u64 {
    open spec fn converted(self) -> i64 {
        self as i64
    }

    fn as_num(self) -> (r: i64) {
        self as i64
    }
}

impl AsNum<u128> for u64 {
    open spec fn converted(self) -> u128 {
        self as u128
    }

    fn as_num(self) -> (r: u128) {
        self as u128
    }
}

impl AsNum<i128> for u64 {
    open spec fn converted(self) -> i128 {
        self as i128
    }

    fn as_num(self) -> (r: i128) {
        self as i128
    }
}

impl AsNum<u8> for i64 {
    open spec fn converted(self) -> u8 {
        self as u8
    }

    fn as_num(self) -> (r: u8) {
        self as u8
    }
}

impl AsNum<i8> for i64 {
    open spec fn converted(self) -> i8 {
        self as i8
    }

    fn as_num(self) -> (r: i8) {
        self as i8
    }
}

impl AsNum<u16> for i64 {
    open spec fn converted(self) -> u16 {
        self as u16
    }

    fn as_num(self) -> (r: u16) {
        self as u16
    }
}

impl AsNum<i16> for i64 {
    open spec fn converted(self) -> i16 {
        self as i16
    }

    fn as_num(self) -> (r: i16) {
        self as i16
    }
}

impl AsNum<u32> for i64 {
    open spec fn converted(self) -> u32 {
        self as u32
    }

    fn as_num(self) -> (r: u32) {
        self as u32
    }
}

impl AsNum<i32> for i64 {
    open spec fn converted(self) -> i32 {
        self as i32
    }

    fn as_num(self) -> (r: i32) {
        self as i32
    }
}

impl AsNum<u64> for i64 {
    open spec fn converted(self) -> u64 {
        self as u64
    }

    fn as_num(self) -> (r: u64) {
        self as u64
    }
}

impl AsNum<i64> for i64 {
    open spec fn converted(self) -> i64 {
        self as i64
    }

    fn as_num(self) -> (r: i64) {
        self as i64
    }
}

impl AsNum<u128> for i64 {
    open spec fn converted(self) -> u128 {
        self as u128
    }

    fn as_num(self) -> (r: u128) {
        self as u128
    }
}

impl AsNum<i128> for i64 {
    open spec fn converted(self) -> i128 {
        self as i128
    }

    fn as_num(self) -> (r: i128) {
        self as i128
    }
}

impl AsNum<u8> for u128 {
    open spec fn converted(self) -> u8 {
        self as u8
    }

    fn as_num(self) -> (r: u8) {
        self as u8
    }
}

impl AsNum<i8> for u128 {
    open spec fn converted(self) -> i8 {
        self as i8
    }

    fn as_num(self) -> (r: i8) {
        self as i8
    }
}

impl AsNum<u16> for u128 {
    open spec fn converted(self) -> u16 {
        self as u16
    }

    fn as_num(self) -> (r: u16) {
        self as u16
    }
}

impl AsNum<i16> for u128 {
    open spec fn converted(self) -> i16 {
        self as i16
    }

    fn as_num(self) -> (r: i16) {
        self as i16
    }
}

impl AsNum<u32> for u128 {
    open spec fn converted(self) -> u32 {
        self as u32
    }

    fn as_num(self) -> (r: u32) {
        self as u32
    }
}

impl AsNum<i32> for u128 {
    open spec fn converted(self) -> i32 {
        self as i32
    }

    fn as_num(self) -> (r: i32) {
        self as i32
    }
}

impl AsNum<u64> for u128 {
    open spec fn converted(self) -> u64 {
        self as u64
    }

    fn as_num(self) -> (r: u64) {
        self as u64
    }
}

impl AsNum<i64> for u128 {
    open spec fn converted(self) -> i64 {
        self as i64
    }

    fn as_num(self) -> (r: i64) {
        self as i64
    }
}

impl AsNum<u128> for u128 {
    open spec fn converted(self) -> u128 {
        self as u128
    }

    fn as_num(self) -> (r: u128) {
        self as u128
    }
}

impl AsNum<i128> for u128 {
    open spec fn converted(self) -> i128 {
        self as i128
    }

    fn as_num(self) -> (r: i128) {
        self as i128
    }
}

impl AsNum<u8> for i128 {
    open spec fn converted(self) -> u8 {
        self as u8
    }

    fn as_num(self) -> (r: u8) {
        self as u8
    }
}

impl AsNum<i8> for i128 {
    open spec fn converted(self) -> i8 {
        self as i8
    }

    fn as_num(self) -> (r: i8) {
        self as i8
    }
}

impl AsNum<u16> for i128 {
    open spec fn converted(self) -> u16 {
        self as u16
    }

    fn as_num(self) -> (r: u16) {
        self as u16
    }
}

impl AsNum<i16> for i128 {
    open spec fn converted(self) -> i16 {
        self as i16
    }

    fn as_num(self) -> (r: i16) {
        self as i16
    }
}

impl AsNum<u32> for i128 {
    open spec fn converted(self) -> u32 {
        self as u32
    }

    fn as_num(self) -> (r: u32) {
        self as u32
    }
}

impl AsNum<i32> for i128 {
    open spec fn converted(self) -> i32 {
        self as i32
    }

    fn as_num(self) -> (r: i32) {
        self as i32
    }
}

impl AsNum<u64> for i128 {
    open spec fn converted(self) -> u64 {
        self as u64
    }

    fn as_num(self) -> (r: u64) {
        self as u64
    }
}

impl AsNum<i64> for i128 {
    open spec fn converted(self) -> i64 {
        self as i64
    }

    fn as_num(self) -> (r: i64) {
        self as i64
    }
}

impl AsNum<u128> for i128 {
    open spec fn converted(self) -> u128 {
        self as u128
    }

    fn as_num(self) -> (r: u128) {
        self as u128
    }
}

impl AsNum<i128> for i128 {
    open spec fn converted(self) -> i128 {
        self as i128
    }

    fn as_num(self) -> (r: i128) {
        self as i128
    }
}

/// A signed number that is kept as an unsigned one of the same width comes back as it was.
pub proof fn law_signed_comes_back(a: i8, b: i16, c: i32, d: i64)
    ensures
        AsNum::<i8>::converted(AsNum::<u8>::converted(a)) == a,
        AsNum::<i16>::converted(AsNum::<u16>::converted(b)) == b,
        AsNum::<i32>::converted(AsNum::<u32>::converted(c)) == c,
        AsNum::<i64>::converted(AsNum::<u64>::converted(d)) == d,
{
    assert((a as u8) as i8 == a) by (bit_vector);
    assert((b as u16) as i16 == b) by (bit_vector);
    assert((c as u32) as i32 == c) by (bit_vector);
    assert((d as u64) as i64 == d) by (bit_vector);
}

} // verus!
