//! Numbers in source text.

use crate::as_num::AsNum;
pub use crate::preprocessor::token::IntParseError;
use crate::preprocessor::token;
use crate::text;
use std::num::IntErrorKind;
use vstd::prelude::*;
use vstd::string::*;

verus! {

// ---------------------------------------------------------------------------------------------
// The outside parser

/// What `parse_int::parse::<i8>` makes of a text.
pub uninterp spec fn parse_int_i8(text: Seq<u8>) -> Result<i8, IntParseError>;

/// What `parse_int::parse::<i16>` makes of a text.
pub uninterp spec fn parse_int_i16(text: Seq<u8>) -> Result<i16, IntParseError>;

/// What `parse_int::parse::<i32>` makes of a text.
pub uninterp spec fn parse_int_i32(text: Seq<u8>) -> Result<i32, IntParseError>;

/// What `parse_int::parse::<i64>` makes of a text.
pub uninterp spec fn parse_int_i64(text: Seq<u8>) -> Result<i64, IntParseError>;

/// What `parse_int::parse::<u8>` makes of a text.
pub uninterp spec fn parse_int_u8(text: Seq<u8>) -> Result<u8, IntParseError>;

/// What `parse_int::parse::<u16>` makes of a text.
pub uninterp spec fn parse_int_u16(text: Seq<u8>) -> Result<u16, IntParseError>;

/// What `parse_int::parse::<u32>` makes of a text.
pub uninterp spec fn parse_int_u32(text: Seq<u8>) -> Result<u32, IntParseError>;

/// What `parse_int::parse::<u64>` makes of a text.
pub uninterp spec fn parse_int_u64(text: Seq<u8>) -> Result<u64, IntParseError>;

/// The value of the digits `i..j`, where underscores do not count; `None` where another byte
/// stands among them.
pub open spec fn grouped_value(b: Seq<u8>, i: int, j: int, radix: int) -> Option<int>
    decreases j - i,
{
    if i >= j {
        Some(0)
    } else {
        match grouped_value(b, i, j - 1, radix) {
            None => None,
            Some(v) => if b[j - 1] == 0x5f {
                Some(v)
            } else if token::digit_value(b[j - 1]) < radix {
                Some(v * radix + token::digit_value(b[j - 1]))
            } else {
                None
            },
        }
    }
}

/// Where the digits of the number in `i..j` start, and their base: a prefix tells it, and it is
/// ten without one.
pub open spec fn prefix_at(b: Seq<u8>, i: int, j: int) -> (int, int) {
    if j - i < 2 || b[i] != 0x30 {
        (i, 10)
    } else if b[i + 1] == 0x78 || b[i + 1] == 0x58 {
        (i + 2, 16)
    } else if b[i + 1] == 0x62 || b[i + 1] == 0x42 {
        (i + 2, 2)
    } else if b[i + 1] == 0x6f || b[i + 1] == 0x4f {
        (i + 2, 8)
    } else {
        (i, 10)
    }
}

pub open spec fn prefix_of(b: Seq<u8>) -> (int, int) {
    prefix_at(b, 0, b.len() as int)
}

/// The first of the bytes `i..j` that is no underscore, or `j`.
pub open spec fn skip_underscores(b: Seq<u8>, i: int, j: int) -> int
    decreases j - i,
{
    if i < j && b[i] == 0x5f {
        skip_underscores(b, i + 1, j)
    } else {
        i
    }
}

/// The value of a text that is a number without a sign and without white space: a prefix or none,
/// and at least one digit, with underscores anywhere but at the start. `None` for other texts.
pub open spec fn plain_value(b: Seq<u8>) -> Option<int> {
    let (i, radix) = prefix_of(b);
    if b.len() > 0 && b[0] != 0x5f && exists|k: int| i <= k < b.len() && #[trigger] b[k] != 0x5f {
        grouped_value(b, i, b.len() as int, radix)
    } else {
        None
    }
}

/// The absolute value of a text that is a minus sign and a plain number; `None` for other texts.
pub open spec fn negated_value(b: Seq<u8>) -> Option<int> {
    if b.len() > 0 && b[0] == 0x2d {
        plain_value(b.subrange(1, b.len() as int))
    } else {
        None
    }
}

/// Where a second minus sign can stand in `i..j`, behind the first one: at its start, or behind a
/// prefix and underscores.
pub open spec fn inner_sign(b: Seq<u8>, i: int, j: int) -> int {
    let (p, _) = prefix_at(b, i, j);
    if p > i {
        skip_underscores(b, p, j)
    } else {
        p
    }
}

/// The text is a minus sign, a prefix or none, another minus sign and the digits of `limit`: the
/// least number of a type, negated, where `limit` is its absolute value. The outside parser
/// cannot represent it.
pub open spec fn negates_least(b: Seq<u8>, limit: int) -> bool {
    let (i, j) = text::trimmed(b, 0, b.len() as int);
    let m = inner_sign(b, i + 1, j);
    &&& i < j
    &&& b[i] == 0x2d
    &&& m < j
    &&& b[m] == 0x2d
    &&& grouped_value(b, m + 1, j, prefix_at(b, i + 1, j).1) == Some(limit)
}

/// The text is a number with a minus sign in front.
pub open spec fn has_minus(b: Seq<u8>) -> bool {
    let (i, j) = text::trimmed(b, 0, b.len() as int);
    i < j && b[i] == 0x2d
}

/// `parse_int::parse::<i8>`: its result is a function of the text, the error taken by its kind. A
/// plain number gives its value, or a positive overflow where it is too large for the type; with a
/// minus sign before it, it gives the negated value, or the same overflow.
/// It overflows where the least number is negated.
#[verifier::external_body]
fn outside_i8(text: &str) -> (r: Result<i8, IntParseError>)
    requires
        !negates_least(text.spec_bytes(), 0x80),
    ensures
        r == parse_int_i8(text.spec_bytes()),
        plain_value(text.spec_bytes()) matches Some(v) ==> r == (if v <= i8::MAX {
            Ok::<i8, IntParseError>(v as i8)
        } else {
            Err(IntParseError::PosOverflow)
        }),
        negated_value(text.spec_bytes()) matches Some(v) ==> r == (if v <= i8::MAX {
            Ok::<i8, IntParseError>((-v) as i8)
        } else {
            Err(IntParseError::PosOverflow)
        }),
{
    match parse_int::parse::<i8>(text) {
        Ok(v) => Ok(v),
        Err(e) => Err(match e.kind() {
            IntErrorKind::Empty => IntParseError::Empty,
            IntErrorKind::PosOverflow => IntParseError::PosOverflow,
            IntErrorKind::NegOverflow => IntParseError::NegOverflow,
            _ => IntParseError::InvalidDigit,
        }),
    }
}

/// `parse_int::parse::<i16>`: its result is a function of the text, the error taken by its kind. A
/// plain number gives its value, or a positive overflow where it is too large for the type; with a
/// minus sign before it, it gives the negated value, or the same overflow.
/// It overflows where the least number is negated.
#[verifier::external_body]
fn outside_i16(text: &str) -> (r: Result<i16, IntParseError>)
    requires
        !negates_least(text.spec_bytes(), 0x8000),
    ensures
        r == parse_int_i16(text.spec_bytes()),
        plain_value(text.spec_bytes()) matches Some(v) ==> r == (if v <= i16::MAX {
            Ok::<i16, IntParseError>(v as i16)
        } else {
            Err(IntParseError::PosOverflow)
        }),
        negated_value(text.spec_bytes()) matches Some(v) ==> r == (if v <= i16::MAX {
            Ok::<i16, IntParseError>((-v) as i16)
        } else {
            Err(IntParseError::PosOverflow)
        }),
{
    match parse_int::parse::<i16>(text) {
        Ok(v) => Ok(v),
        Err(e) => Err(match e.kind() {
            IntErrorKind::Empty => IntParseError::Empty,
            IntErrorKind::PosOverflow => IntParseError::PosOverflow,
            IntErrorKind::NegOverflow => IntParseError::NegOverflow,
            _ => IntParseError::InvalidDigit,
        }),
    }
}

/// `parse_int::parse::<i32>`: its result is a function of the text, the error taken by its kind. A
/// plain number gives its value, or a positive overflow where it is too large for the type; with a
/// minus sign before it, it gives the negated value, or the same overflow.
/// It overflows where the least number is negated.
#[verifier::external_body]
fn outside_i32(text: &str) -> (r: Result<i32, IntParseError>)
    requires
        !negates_least(text.spec_bytes(), 0x8000_0000),
    ensures
        r == parse_int_i32(text.spec_bytes()),
        plain_value(text.spec_bytes()) matches Some(v) ==> r == (if v <= i32::MAX {
            Ok::<i32, IntParseError>(v as i32)
        } else {
            Err(IntParseError::PosOverflow)
        }),
        negated_value(text.spec_bytes()) matches Some(v) ==> r == (if v <= i32::MAX {
            Ok::<i32, IntParseError>((-v) as i32)
        } else {
            Err(IntParseError::PosOverflow)
        }),
{
    match parse_int::parse::<i32>(text) {
        Ok(v) => Ok(v),
        Err(e) => Err(match e.kind() {
            IntErrorKind::Empty => IntParseError::Empty,
            IntErrorKind::PosOverflow => IntParseError::PosOverflow,
            IntErrorKind::NegOverflow => IntParseError::NegOverflow,
            _ => IntParseError::InvalidDigit,
        }),
    }
}

/// `parse_int::parse::<i64>`: its result is a function of the text, the error taken by its kind. A
/// plain number gives its value, or a positive overflow where it is too large for the type; with a
/// minus sign before it, it gives the negated value, or the same overflow.
/// It overflows where the least number is negated.
#[verifier::external_body]
fn outside_i64(text: &str) -> (r: Result<i64, IntParseError>)
    requires
        !negates_least(text.spec_bytes(), 0x8000_0000_0000_0000),
    ensures
        r == parse_int_i64(text.spec_bytes()),
        plain_value(text.spec_bytes()) matches Some(v) ==> r == (if v <= i64::MAX {
            Ok::<i64, IntParseError>(v as i64)
        } else {
            Err(IntParseError::PosOverflow)
        }),
        negated_value(text.spec_bytes()) matches Some(v) ==> r == (if v <= i64::MAX {
            Ok::<i64, IntParseError>((-v) as i64)
        } else {
            Err(IntParseError::PosOverflow)
        }),
{
    match parse_int::parse::<i64>(text) {
        Ok(v) => Ok(v),
        Err(e) => Err(match e.kind() {
            IntErrorKind::Empty => IntParseError::Empty,
            IntErrorKind::PosOverflow => IntParseError::PosOverflow,
            IntErrorKind::NegOverflow => IntParseError::NegOverflow,
            _ => IntParseError::InvalidDigit,
        }),
    }
}

/// `parse_int::parse::<u8>`: its result is a function of the text, the error taken by its kind. A
/// plain number gives its value, or a positive overflow where it is too large for the type.
/// It overflows on a number with a minus sign.
#[verifier::external_body]
fn outside_u8(text: &str) -> (r: Result<u8, IntParseError>)
    requires
        !has_minus(text.spec_bytes()),
    ensures
        r == parse_int_u8(text.spec_bytes()),
        plain_value(text.spec_bytes()) matches Some(v) ==> r == (if v <= u8::MAX {
            Ok::<u8, IntParseError>(v as u8)
        } else {
            Err(IntParseError::PosOverflow)
        }),
{
    match parse_int::parse::<u8>(text) {
        Ok(v) => Ok(v),
        Err(e) => Err(match e.kind() {
            IntErrorKind::Empty => IntParseError::Empty,
            IntErrorKind::PosOverflow => IntParseError::PosOverflow,
            IntErrorKind::NegOverflow => IntParseError::NegOverflow,
            _ => IntParseError::InvalidDigit,
        }),
    }
}

/// `parse_int::parse::<u16>`: its result is a function of the text, the error taken by its kind. A
/// plain number gives its value, or a positive overflow where it is too large for the type.
/// It overflows on a number with a minus sign.
#[verifier::external_body]
fn outside_u16(text: &str) -> (r: Result<u16, IntParseError>)
    requires
        !has_minus(text.spec_bytes()),
    ensures
        r == parse_int_u16(text.spec_bytes()),
        plain_value(text.spec_bytes()) matches Some(v) ==> r == (if v <= u16::MAX {
            Ok::<u16, IntParseError>(v as u16)
        } else {
            Err(IntParseError::PosOverflow)
        }),
{
    match parse_int::parse::<u16>(text) {
        Ok(v) => Ok(v),
        Err(e) => Err(match e.kind() {
            IntErrorKind::Empty => IntParseError::Empty,
            IntErrorKind::PosOverflow => IntParseError::PosOverflow,
            IntErrorKind::NegOverflow => IntParseError::NegOverflow,
            _ => IntParseError::InvalidDigit,
        }),
    }
}

/// `parse_int::parse::<u32>`: its result is a function of the text, the error taken by its kind. A
/// plain number gives its value, or a positive overflow where it is too large for the type.
/// It overflows on a number with a minus sign.
#[verifier::external_body]
fn outside_u32(text: &str) -> (r: Result<u32, IntParseError>)
    requires
        !has_minus(text.spec_bytes()),
    ensures
        r == parse_int_u32(text.spec_bytes()),
        plain_value(text.spec_bytes()) matches Some(v) ==> r == (if v <= u32::MAX {
            Ok::<u32, IntParseError>(v as u32)
        } else {
            Err(IntParseError::PosOverflow)
        }),
{
    match parse_int::parse::<u32>(text) {
        Ok(v) => Ok(v),
        Err(e) => Err(match e.kind() {
            IntErrorKind::Empty => IntParseError::Empty,
            IntErrorKind::PosOverflow => IntParseError::PosOverflow,
            IntErrorKind::NegOverflow => IntParseError::NegOverflow,
            _ => IntParseError::InvalidDigit,
        }),
    }
}

/// `parse_int::parse::<u64>`: its result is a function of the text, the error taken by its kind. A
/// plain number gives its value, or a positive overflow where it is too large for the type.
/// It overflows on a number with a minus sign.
#[verifier::external_body]
fn outside_u64(text: &str) -> (r: Result<u64, IntParseError>)
    requires
        !has_minus(text.spec_bytes()),
    ensures
        r == parse_int_u64(text.spec_bytes()),
        plain_value(text.spec_bytes()) matches Some(v) ==> r == (if v <= u64::MAX {
            Ok::<u64, IntParseError>(v as u64)
        } else {
            Err(IntParseError::PosOverflow)
        }),
{
    match parse_int::parse::<u64>(text) {
        Ok(v) => Ok(v),
        Err(e) => Err(match e.kind() {
            IntErrorKind::Empty => IntParseError::Empty,
            IntErrorKind::PosOverflow => IntParseError::PosOverflow,
            IntErrorKind::NegOverflow => IntParseError::NegOverflow,
            _ => IntParseError::InvalidDigit,
        }),
    }
}

// ---------------------------------------------------------------------------------------------
// Unsigned numbers

/// What stands behind the minus sign of an unsigned number.
#[derive(Clone, Copy, Debug, PartialEq, Eq, Structural)]
pub enum Minus {
    /// There is no minus sign.
    Absent,
    /// What follows the minus sign, in this range, cannot be a number.
    BeforeSign,
    /// A minus sign stands in front of this range.
    Before(usize, usize),
}

/// Where the minus sign of a text stands, if it has one.
pub open spec fn minus_of(b: Seq<u8>) -> Minus {
    let (i, j) = text::trimmed(b, 0, b.len() as int);
    if !has_minus(b) {
        Minus::Absent
    } else if i + 1 < j && (b[i + 1] == 0x2d || text::space_width(b, i + 1, j) > 0) {
        Minus::BeforeSign
    } else {
        Minus::Before((i + 1) as usize, j as usize)
    }
}

/// The unsigned number of 32 bits in a text; `None` for a number with a minus sign, which an
/// unsigned type does not have. A plain number is its value; what else a text stands for is told by
/// the outside parser.
#[verifier::opaque]
pub open spec fn unsigned_u32(b: Seq<u8>) -> Option<Result<u32, IntParseError>> {
    match (plain_value(b), negated_value(b)) {
        (Some(v), _) => Some(
            if v <= u32::MAX {
                Ok(v as u32)
            } else {
                Err(IntParseError::PosOverflow)
            },
        ),
        (None, Some(v)) => if v <= u32::MAX {
            None
        } else {
            Some(Err(IntParseError::PosOverflow))
        },
        (None, None) => match minus_of(b) {
            Minus::Absent => Some(parse_int_u32(b)),
            Minus::BeforeSign => Some(Err(IntParseError::InvalidDigit)),
            Minus::Before(i, j) => match parse_int_u32(b.subrange(i as int, j as int)) {
                Ok(_) => None,
                Err(e) => Some(Err(e)),
            },
        },
    }
}

/// As `unsigned_u32`, for 8 bits.
#[verifier::opaque]
pub open spec fn unsigned_u8(b: Seq<u8>) -> Option<Result<u8, IntParseError>> {
    match (plain_value(b), negated_value(b)) {
        (Some(v), _) => Some(
            if v <= u8::MAX {
                Ok(v as u8)
            } else {
                Err(IntParseError::PosOverflow)
            },
        ),
        (None, Some(v)) => if v <= u8::MAX {
            None
        } else {
            Some(Err(IntParseError::PosOverflow))
        },
        (None, None) => match minus_of(b) {
            Minus::Absent => Some(parse_int_u8(b)),
            Minus::BeforeSign => Some(Err(IntParseError::InvalidDigit)),
            Minus::Before(i, j) => match parse_int_u8(b.subrange(i as int, j as int)) {
                Ok(_) => None,
                Err(e) => Some(Err(e)),
            },
        },
    }
}

/// As `unsigned_u32`, for 16 bits.
#[verifier::opaque]
pub open spec fn unsigned_u16(b: Seq<u8>) -> Option<Result<u16, IntParseError>> {
    match (plain_value(b), negated_value(b)) {
        (Some(v), _) => Some(
            if v <= u16::MAX {
                Ok(v as u16)
            } else {
                Err(IntParseError::PosOverflow)
            },
        ),
        (None, Some(v)) => if v <= u16::MAX {
            None
        } else {
            Some(Err(IntParseError::PosOverflow))
        },
        (None, None) => match minus_of(b) {
            Minus::Absent => Some(parse_int_u16(b)),
            Minus::BeforeSign => Some(Err(IntParseError::InvalidDigit)),
            Minus::Before(i, j) => match parse_int_u16(b.subrange(i as int, j as int)) {
                Ok(_) => None,
                Err(e) => Some(Err(e)),
            },
        },
    }
}

/// As `unsigned_u32`, for 64 bits.
#[verifier::opaque]
pub open spec fn unsigned_u64(b: Seq<u8>) -> Option<Result<u64, IntParseError>> {
    match (plain_value(b), negated_value(b)) {
        (Some(v), _) => Some(
            if v <= u64::MAX {
                Ok(v as u64)
            } else {
                Err(IntParseError::PosOverflow)
            },
        ),
        (None, Some(v)) => if v <= u64::MAX {
            None
        } else {
            Some(Err(IntParseError::PosOverflow))
        },
        (None, None) => match minus_of(b) {
            Minus::Absent => Some(parse_int_u64(b)),
            Minus::BeforeSign => Some(Err(IntParseError::InvalidDigit)),
            Minus::Before(i, j) => match parse_int_u64(b.subrange(i as int, j as int)) {
                Ok(_) => None,
                Err(e) => Some(Err(e)),
            },
        },
    }
}

/// The signed number of 32 bits in a text. A plain number, maybe with a minus sign, is its value;
/// what else a text stands for is told by the outside parser.
#[verifier::opaque]
pub open spec fn signed_i32(b: Seq<u8>) -> Result<i32, IntParseError> {
    match (plain_value(b), negated_value(b)) {
        (Some(v), _) => if v <= i32::MAX {
            Ok(v as i32)
        } else {
            Err(IntParseError::PosOverflow)
        },
        (None, Some(v)) => if v <= i32::MAX {
            Ok((-v) as i32)
        } else {
            Err(IntParseError::PosOverflow)
        },
        (None, None) => parse_int_i32(b),
    }
}

/// As `signed_i32`, for 8 bits.
#[verifier::opaque]
pub open spec fn signed_i8(b: Seq<u8>) -> Result<i8, IntParseError> {
    match (plain_value(b), negated_value(b)) {
        (Some(v), _) => if v <= i8::MAX {
            Ok(v as i8)
        } else {
            Err(IntParseError::PosOverflow)
        },
        (None, Some(v)) => if v <= i8::MAX {
            Ok((-v) as i8)
        } else {
            Err(IntParseError::PosOverflow)
        },
        (None, None) => parse_int_i8(b),
    }
}

/// As `signed_i32`, for 16 bits.
#[verifier::opaque]
pub open spec fn signed_i16(b: Seq<u8>) -> Result<i16, IntParseError> {
    match (plain_value(b), negated_value(b)) {
        (Some(v), _) => if v <= i16::MAX {
            Ok(v as i16)
        } else {
            Err(IntParseError::PosOverflow)
        },
        (None, Some(v)) => if v <= i16::MAX {
            Ok((-v) as i16)
        } else {
            Err(IntParseError::PosOverflow)
        },
        (None, None) => parse_int_i16(b),
    }
}

/// As `signed_i32`, for 64 bits.
#[verifier::opaque]
pub open spec fn signed_i64(b: Seq<u8>) -> Result<i64, IntParseError> {
    match (plain_value(b), negated_value(b)) {
        (Some(v), _) => if v <= i64::MAX {
            Ok(v as i64)
        } else {
            Err(IntParseError::PosOverflow)
        },
        (None, Some(v)) => if v <= i64::MAX {
            Ok((-v) as i64)
        } else {
            Err(IntParseError::PosOverflow)
        },
        (None, None) => parse_int_i64(b),
    }
}

/// A text that has no white space and no minus sign at its start has no minus sign.
proof fn lemma_no_minus(b: Seq<u8>, i: int, j: int)
    requires
        0 <= i <= j <= b.len(),
        i < j ==> b[i] != 0x2d && text::space_width(b, i, j) == 0,
    ensures
        !has_minus(b.subrange(i, j)),
{
    let s = b.subrange(i, j);
    if i < j {
        assert(text::space_width(s, 0, s.len() as int) == text::space_width(b, i, j)) by {
            assert(s[0] == b[i]);
            if s.len() > 1 {
                assert(s[1] == b[i + 1]);
            }
            if s.len() > 2 {
                assert(s[2] == b[i + 2]);
            }
        }
        assert(text::skip_space(s, 0, s.len() as int) == 0);
        assert(s[0] == b[i]);
    }
}

/// A plain number starts with a digit.
proof fn lemma_plain(b: Seq<u8>)
    requires
        plain_value(b) is Some,
    ensures
        !has_minus(b),
        forall|limit: int| !negates_least(b, limit),
        plain_value(b)->0 >= 0,
{
    let (i, radix) = prefix_of(b);
    lemma_grouped_first(b, i, b.len() as int, radix);
    assert(text::space_width(b, 0, b.len() as int) == 0);
    assert(text::skip_space(b, 0, b.len() as int) == 0);
}

proof fn lemma_grouped_first(b: Seq<u8>, i: int, j: int, radix: int)
    requires
        0 < radix <= 16,
        grouped_value(b, i, j, radix) is Some,
    ensures
        i < j ==> b[i] == 0x5f || token::digit_value(b[i]) < radix,
        grouped_value(b, i, j, radix)->0 >= 0,
    decreases j - i,
{
    if i < j {
        lemma_grouped_first(b, i, j - 1, radix);
        let v = grouped_value(b, i, j - 1, radix)->0;
        assert(v * radix >= 0) by (nonlinear_arith)
            requires
                v >= 0,
                radix > 0,
        ;
    }
}

proof fn lemma_grouped_last(b: Seq<u8>, i: int, j: int, radix: int)
    requires
        0 <= i < j,
        0 < radix <= 16,
        grouped_value(b, i, j, radix) is Some,
    ensures
        b[j - 1] == 0x5f || token::digit_value(b[j - 1]) < 16,
{
}

/// The number behind the minus sign is found just there.
proof fn lemma_negated(b: Seq<u8>)
    requires
        negated_value(b) is Some,
    ensures
        minus_of(b) == Minus::Before(1, b.len() as usize),
        plain_value(b) is None,
{
    let len = b.len() as int;
    let rest = b.subrange(1, len);
    let (i, radix) = prefix_of(rest);
    lemma_plain(rest);
    lemma_grouped_first(rest, i, rest.len() as int, radix);
    lemma_grouped_last(rest, i, rest.len() as int, radix);
    assert(rest[0] == b[1]);
    assert(rest[rest.len() - 1] == b[len - 1]);
    assert(text::space_width(b, 0, len) == 0);
    assert(text::skip_space(b, 0, len) == 0);
    assert(text::space_width_before(b, 0, len) == 0);
    assert(text::drop_space(b, 0, len) == len);
    assert(text::space_width(b, 1, len) == 0);
    if plain_value(b) is Some {
        lemma_plain(b);
    }
}

fn find_minus(s: &str) -> (r: Minus)
    ensures
        r == minus_of(s.spec_bytes()),
        s.spec_bytes().len() <= usize::MAX,
        r matches Minus::Before(i, j) ==> {
            &&& i <= j <= s.spec_bytes().len()
            &&& text::cut_point(s.spec_bytes(), i as int)
            &&& text::cut_point(s.spec_bytes(), j as int)
            &&& !has_minus(s.spec_bytes().subrange(i as int, j as int))
        },
{
    let b = s.as_bytes();
    proof {
        text::lemma_str_valid(s@);
        text::lemma_trimmed(b@, 0, b@.len() as int);
    }
    let (i, j) = text::trim(b, 0, b.len());
    if i >= j || b[i] != 0x2d {
        return Minus::Absent;
    }
    proof {
        text::lemma_ascii_boundary(b@, i as int);
    }
    if j - i > 1 && (b[i + 1] == 0x2d || text::space_width_at(b, i + 1, j) > 0) {
        return Minus::BeforeSign;
    }
    proof {
        assert(text::space_width(b@, i + 1, j as int) >= 0);
        lemma_no_minus(b@, i + 1, j as int);
    }
    Minus::Before(i + 1, j)
}

/// Reads an unsigned number of 32 bits; `None` for a number with a minus sign.
pub(crate) fn read_u32(s: &str) -> (r: Option<Result<u32, IntParseError>>)
    ensures
        r == unsigned_u32(s.spec_bytes()),
{
    let minus = find_minus(s);
    proof {
        reveal(unsigned_u32);
        if plain_value(s.spec_bytes()) is Some {
            lemma_plain(s.spec_bytes());
        }
        if negated_value(s.spec_bytes()) is Some {
            lemma_negated(s.spec_bytes());
        }
    }
    match minus {
        Minus::Absent => Some(outside_u32(s)),
        Minus::BeforeSign => Some(Err(IntParseError::InvalidDigit)),
        Minus::Before(i, j) => match outside_u32(text::slice(s, i, j)) {
            Ok(_) => None,
            Err(e) => Some(Err(e)),
        },
    }
}

fn read_u8(s: &str) -> (r: Option<Result<u8, IntParseError>>)
    ensures
        r == unsigned_u8(s.spec_bytes()),
{
    let minus = find_minus(s);
    proof {
        reveal(unsigned_u8);
        if plain_value(s.spec_bytes()) is Some {
            lemma_plain(s.spec_bytes());
        }
        if negated_value(s.spec_bytes()) is Some {
            lemma_negated(s.spec_bytes());
        }
    }
    match minus {
        Minus::Absent => Some(outside_u8(s)),
        Minus::BeforeSign => Some(Err(IntParseError::InvalidDigit)),
        Minus::Before(i, j) => match outside_u8(text::slice(s, i, j)) {
            Ok(_) => None,
            Err(e) => Some(Err(e)),
        },
    }
}

fn read_u16(s: &str) -> (r: Option<Result<u16, IntParseError>>)
    ensures
        r == unsigned_u16(s.spec_bytes()),
{
    let minus = find_minus(s);
    proof {
        reveal(unsigned_u16);
        if plain_value(s.spec_bytes()) is Some {
            lemma_plain(s.spec_bytes());
        }
        if negated_value(s.spec_bytes()) is Some {
            lemma_negated(s.spec_bytes());
        }
    }
    match minus {
        Minus::Absent => Some(outside_u16(s)),
        Minus::BeforeSign => Some(Err(IntParseError::InvalidDigit)),
        Minus::Before(i, j) => match outside_u16(text::slice(s, i, j)) {
            Ok(_) => None,
            Err(e) => Some(Err(e)),
        },
    }
}

fn read_u64(s: &str) -> (r: Option<Result<u64, IntParseError>>)
    ensures
        r == unsigned_u64(s.spec_bytes()),
{
    let minus = find_minus(s);
    proof {
        reveal(unsigned_u64);
        if plain_value(s.spec_bytes()) is Some {
            lemma_plain(s.spec_bytes());
        }
        if negated_value(s.spec_bytes()) is Some {
            lemma_negated(s.spec_bytes());
        }
    }
    match minus {
        Minus::Absent => Some(outside_u64(s)),
        Minus::BeforeSign => Some(Err(IntParseError::InvalidDigit)),
        Minus::Before(i, j) => match outside_u64(text::slice(s, i, j)) {
            Ok(_) => None,
            Err(e) => Some(Err(e)),
        },
    }
}

proof fn lemma_grouped_grows(b: Seq<u8>, i: int, j: int, end: int, radix: int)
    requires
        i <= j <= end,
        radix == 2 || radix == 8 || radix == 10 || radix == 16,
        grouped_value(b, i, end, radix) is Some,
    ensures
        grouped_value(b, i, j, radix) is Some,
        0 <= grouped_value(b, i, j, radix)->0 <= grouped_value(b, i, end, radix)->0,
    decreases end - i,
{
    if end > j {
        lemma_grouped_grows(b, i, j, end - 1, radix);
        lemma_times(grouped_value(b, i, end - 1, radix)->0, radix);
    } else if i < j {
        lemma_grouped_grows(b, i, j - 1, j - 1, radix);
        lemma_times(grouped_value(b, i, j - 1, radix)->0, radix);
    }
}

proof fn lemma_times(v: int, radix: int)
    requires
        v >= 0,
        radix >= 1,
    ensures
        v * radix >= v,
{
    assert(v * radix >= v) by (nonlinear_arith)
        requires
            v >= 0,
            radix >= 1,
    ;
}

fn find_prefix(b: &[u8], i: usize, j: usize) -> (r: (usize, u8))
    requires
        i <= j <= b@.len(),
    ensures
        (r.0 as int, r.1 as int) == prefix_at(b@, i as int, j as int),
        i <= r.0 <= j,
        r.1 == 2 || r.1 == 8 || r.1 == 10 || r.1 == 16,
{
    if j - i < 2 || b[i] != 0x30 {
        return (i, 10);
    }
    let x: u8 = b[i + 1];
    if x == 0x78 || x == 0x58 {
        (i + 2, 16)
    } else if x == 0x62 || x == 0x42 {
        (i + 2, 2)
    } else if x == 0x6f || x == 0x4f {
        (i + 2, 8)
    } else {
        (i, 10)
    }
}

/// Whether the digits `i..j` stand for `limit`, where underscores do not count.
fn digits_are(b: &[u8], i: usize, j: usize, radix: u8, limit: u64) -> (r: bool)
    requires
        i <= j <= b@.len(),
        radix == 2 || radix == 8 || radix == 10 || radix == 16,
    ensures
        r == (grouped_value(b@, i as int, j as int, radix as int) == Some(limit as int)),
{
    let mut k: usize = i;
    let mut value: u128 = 0;
    while k < j
        invariant
            i <= k <= j <= b@.len(),
            radix == 2 || radix == 8 || radix == 10 || radix == 16,
            grouped_value(b@, i as int, k as int, radix as int) == Some(value as int),
            value <= limit,
        decreases j - k,
    {
        let x: u8 = b[k];
        proof {
            if grouped_value(b@, i as int, j as int, radix as int) is Some {
                lemma_grouped_grows(b@, i as int, k + 1, j as int, radix as int);
            }
        }
        if x != 0x5f {
            let d = token::digit(x);
            if d >= radix {
                return false;
            }
            assert(0 <= value * radix <= limit * 16) by (nonlinear_arith)
                requires
                    0 <= value <= limit,
                    2 <= radix <= 16,
            ;
            value = value * radix as u128 + d as u128;
            if value > limit as u128 {
                return false;
            }
        }
        k += 1;
    }
    value == limit as u128
}

/// Whether the text is the least number of a type, whose absolute value is `limit`, negated.
pub(crate) fn is_negated_least(s: &str, limit: u64) -> (r: bool)
    ensures
        r == negates_least(s.spec_bytes(), limit as int),
{
    let b = s.as_bytes();
    let (i, j) = text::trim(b, 0, b.len());
    if i >= j || b[i] != 0x2d {
        return false;
    }
    let (p, radix) = find_prefix(b, i + 1, j);
    let mut m: usize = p;
    if p > i + 1 {
        while m < j && b[m] == 0x5f
            invariant
                p <= m <= j <= b@.len(),
                skip_underscores(b@, p as int, j as int) == skip_underscores(
                    b@,
                    m as int,
                    j as int,
                ),
            decreases j - m,
        {
            m += 1;
        }
    }
    m < j && b[m] == 0x2d && digits_are(b, m + 1, j, radix, limit)
}

// ---------------------------------------------------------------------------------------------
// Numbers that may be signed

/// The number in a text for an unsigned type of 8 bits: a signed one of the same size, taken by
/// its bits, or else an unsigned one; `None` where negating it overflows.
pub open spec fn maybe_signed_u8(b: Seq<u8>) -> Option<Result<u8, IntParseError>> {
    if negates_least(b, 0x80) {
        None
    } else {
        match signed_i8(b) {
            Ok(v) => Some(Ok(v as u8)),
            Err(IntParseError::PosOverflow) => unsigned_u8(b),
            Err(e) => Some(Err(e)),
        }
    }
}

/// As `maybe_signed_u8`, for 16 bits.
pub open spec fn maybe_signed_u16(b: Seq<u8>) -> Option<Result<u16, IntParseError>> {
    if negates_least(b, 0x8000) {
        None
    } else {
        match signed_i16(b) {
            Ok(v) => Some(Ok(v as u16)),
            Err(IntParseError::PosOverflow) => unsigned_u16(b),
            Err(e) => Some(Err(e)),
        }
    }
}

/// As `maybe_signed_u8`, for 32 bits.
pub open spec fn maybe_signed_u32(b: Seq<u8>) -> Option<Result<u32, IntParseError>> {
    if negates_least(b, 0x8000_0000) {
        None
    } else {
        match signed_i32(b) {
            Ok(v) => Some(Ok(v as u32)),
            Err(IntParseError::PosOverflow) => unsigned_u32(b),
            Err(e) => Some(Err(e)),
        }
    }
}

/// As `maybe_signed_u8`, for 64 bits.
pub open spec fn maybe_signed_u64(b: Seq<u8>) -> Option<Result<u64, IntParseError>> {
    if negates_least(b, 0x8000_0000_0000_0000) {
        None
    } else {
        match signed_i64(b) {
            Ok(v) => Some(Ok(v as u64)),
            Err(IntParseError::PosOverflow) => unsigned_u64(b),
            Err(e) => Some(Err(e)),
        }
    }
}

/// The number in a text for an unsigned type of 8 bits.
pub fn parse_maybe_signed_u8(input: &str) -> (r: Option<Result<u8, IntParseError>>)
    ensures
        r == maybe_signed_u8(input.spec_bytes()),
{
    reveal(signed_i8);
    if is_negated_least(input, 0x80) {
        return None;
    }
    match outside_i8(input) {
        Ok(v) => Some(Ok(v.as_num())),
        Err(IntParseError::PosOverflow) => read_u8(input),
        Err(e) => Some(Err(e)),
    }
}

/// The number in a text for an unsigned type of 16 bits.
pub fn parse_maybe_signed_u16(input: &str) -> (r: Option<Result<u16, IntParseError>>)
    ensures
        r == maybe_signed_u16(input.spec_bytes()),
{
    reveal(signed_i16);
    if is_negated_least(input, 0x8000) {
        return None;
    }
    match outside_i16(input) {
        Ok(v) => Some(Ok(v.as_num())),
        Err(IntParseError::PosOverflow) => read_u16(input),
        Err(e) => Some(Err(e)),
    }
}

/// The number in a text for an unsigned type of 32 bits.
pub fn parse_maybe_signed_u32(input: &str) -> (r: Option<Result<u32, IntParseError>>)
    ensures
        r == maybe_signed_u32(input.spec_bytes()),
{
    reveal(signed_i32);
    if is_negated_least(input, 0x8000_0000) {
        return None;
    }
    match outside_i32(input) {
        Ok(v) => Some(Ok(v.as_num())),
        Err(IntParseError::PosOverflow) => read_u32(input),
        Err(e) => Some(Err(e)),
    }
}

/// The number in a text for an unsigned type of 64 bits.
pub fn parse_maybe_signed_u64(input: &str) -> (r: Option<Result<u64, IntParseError>>)
    ensures
        r == maybe_signed_u64(input.spec_bytes()),
{
    reveal(signed_i64);
    if is_negated_least(input, 0x8000_0000_0000_0000) {
        return None;
    }
    match outside_i64(input) {
        Ok(v) => Some(Ok(v.as_num())),
        Err(IntParseError::PosOverflow) => read_u64(input),
        Err(e) => Some(Err(e)),
    }
}

/// Reads a signed number of 32 bits.
pub(crate) fn read_i32(s: &str) -> (r: Result<i32, IntParseError>)
    requires
        !negates_least(s.spec_bytes(), 0x8000_0000),
    ensures
        r == signed_i32(s.spec_bytes()),
{
    reveal(signed_i32);
    outside_i32(s)
}

proof fn lemma_grouped_all(b: Seq<u8>, i: int, j: int, radix: int)
    requires
        0 <= i <= j,
        0 < radix <= 16,
        grouped_value(b, i, j, radix) is Some,
    ensures
        forall|k: int| i <= k < j ==> #[trigger] b[k] != 0x2d,
    decreases j - i,
{
    if i < j {
        lemma_grouped_all(b, i, j - 1, radix);
        assert(b[j - 1] != 0x2d);
    }
}

/// No second minus sign stands in a plain number with a minus sign before it.
proof fn lemma_one_minus(b: Seq<u8>, limit: int)
    requires
        negated_value(b) is Some,
    ensures
        !negates_least(b, limit),
{
    let len = b.len() as int;
    let rest = b.subrange(1, len);
    let (i, radix) = prefix_of(rest);
    lemma_negated(b);
    lemma_grouped_all(rest, i, rest.len() as int, radix);
    lemma_grouped_first(rest, i, rest.len() as int, radix);
    assert forall|k: int| 1 <= k < len implies #[trigger] b[k] == rest[k - 1] by {}
    assert(text::trimmed(b, 0, len) == (0int, len)) by {
        lemma_grouped_last(rest, i, rest.len() as int, radix);
        assert(text::space_width(b, 0, len) == 0);
        assert(text::skip_space(b, 0, len) == 0);
        assert(text::space_width_before(b, 0, len) == 0);
        assert(text::drop_space(b, 0, len) == len);
    }
    assert(prefix_at(b, 1, len).0 == i + 1) by {
        assert(rest[0] == b[1]);
        if len > 2 {
            assert(rest[1] == b[2]);
        }
    }
    let m = inner_sign(b, 1, len);
    lemma_skip_underscores(b, i + 1, len);
    if m < len {
        assert(b[m] == rest[m - 1]);
    }
}

proof fn lemma_skip_underscores(b: Seq<u8>, i: int, j: int)
    ensures
        i <= skip_underscores(b, i, j),
    decreases j - i,
{
    if i < j && b[i] == 0x5f {
        lemma_skip_underscores(b, i + 1, j);
    }
}

/// A plain number is read as its value by every type that can hold it, and draws a positive
/// overflow from every other.
pub proof fn law_plain_number_is_read(b: Seq<u8>)
    requires
        plain_value(b) is Some,
    ensures
        plain_value(b)->0 >= 0,
        maybe_signed_u8(b) == Some(
            if plain_value(b)->0 <= u8::MAX {
                Ok::<u8, IntParseError>(plain_value(b)->0 as u8)
            } else {
                Err(IntParseError::PosOverflow)
            },
        ),
        unsigned_u8(b) == maybe_signed_u8(b),
        maybe_signed_u16(b) == Some(
            if plain_value(b)->0 <= u16::MAX {
                Ok::<u16, IntParseError>(plain_value(b)->0 as u16)
            } else {
                Err(IntParseError::PosOverflow)
            },
        ),
        unsigned_u16(b) == maybe_signed_u16(b),
        maybe_signed_u32(b) == Some(
            if plain_value(b)->0 <= u32::MAX {
                Ok::<u32, IntParseError>(plain_value(b)->0 as u32)
            } else {
                Err(IntParseError::PosOverflow)
            },
        ),
        unsigned_u32(b) == maybe_signed_u32(b),
        maybe_signed_u64(b) == Some(
            if plain_value(b)->0 <= u64::MAX {
                Ok::<u64, IntParseError>(plain_value(b)->0 as u64)
            } else {
                Err(IntParseError::PosOverflow)
            },
        ),
        unsigned_u64(b) == maybe_signed_u64(b),
        signed_i32(b) == (if plain_value(b)->0 <= i32::MAX {
            Ok::<i32, IntParseError>(plain_value(b)->0 as i32)
        } else {
            Err(IntParseError::PosOverflow)
        }),
{
    reveal(signed_i8);
    reveal(unsigned_u8);
    reveal(signed_i16);
    reveal(unsigned_u16);
    reveal(signed_i32);
    reveal(unsigned_u32);
    reveal(signed_i64);
    reveal(unsigned_u64);
    lemma_plain(b);
}

/// A plain number with a minus sign before it is read as the bits of the negated value where the
/// signed type of the same size holds the number itself. Where only the unsigned type does, there
/// is no value; beyond that there is a positive overflow.
pub proof fn law_negated_number_is_read(b: Seq<u8>)
    requires
        negated_value(b) is Some,
    ensures
        negated_value(b)->0 >= 0,
        maybe_signed_u8(b) == (if negated_value(b)->0 <= i8::MAX {
            Some(Ok::<u8, IntParseError>((-negated_value(b)->0) as i8 as u8))
        } else if negated_value(b)->0 <= u8::MAX {
            None
        } else {
            Some(Err(IntParseError::PosOverflow))
        }),
        maybe_signed_u16(b) == (if negated_value(b)->0 <= i16::MAX {
            Some(Ok::<u16, IntParseError>((-negated_value(b)->0) as i16 as u16))
        } else if negated_value(b)->0 <= u16::MAX {
            None
        } else {
            Some(Err(IntParseError::PosOverflow))
        }),
        maybe_signed_u32(b) == (if negated_value(b)->0 <= i32::MAX {
            Some(Ok::<u32, IntParseError>((-negated_value(b)->0) as i32 as u32))
        } else if negated_value(b)->0 <= u32::MAX {
            None
        } else {
            Some(Err(IntParseError::PosOverflow))
        }),
        maybe_signed_u64(b) == (if negated_value(b)->0 <= i64::MAX {
            Some(Ok::<u64, IntParseError>((-negated_value(b)->0) as i64 as u64))
        } else if negated_value(b)->0 <= u64::MAX {
            None
        } else {
            Some(Err(IntParseError::PosOverflow))
        }),
        signed_i32(b) == (if negated_value(b)->0 <= i32::MAX {
            Ok::<i32, IntParseError>((-negated_value(b)->0) as i32)
        } else {
            Err(IntParseError::PosOverflow)
        }),
{
    reveal(signed_i8);
    reveal(unsigned_u8);
    reveal(signed_i16);
    reveal(unsigned_u16);
    reveal(signed_i32);
    reveal(unsigned_u32);
    reveal(signed_i64);
    reveal(unsigned_u64);
    lemma_negated(b);
    lemma_plain(b.subrange(1, b.len() as int));
    lemma_one_minus(b, 0x80);
    lemma_one_minus(b, 0x8000);
    lemma_one_minus(b, 0x8000_0000);
    lemma_one_minus(b, 0x8000_0000_0000_0000);
}

} // verus!
