//! The tokens of `#if` expressions.

use crate::text;
use vstd::prelude::*;

verus! {

/// The value of an `#if` expression.
pub type ExprValue = i64;

/// Why digits are not a number of the wanted type.
#[derive(Clone, Copy, Debug, PartialEq, Eq, Hash, Structural)]
pub enum IntParseError {
    /// There are no digits.
    Empty,
    /// A character is no digit.
    InvalidDigit,
    /// The number is too large.
    PosOverflow,
    /// The number is too small.
    NegOverflow,
}

impl IntParseError {
    pub open spec fn spec_message(self) -> &'static str {
        match self {
            IntParseError::Empty => "cannot parse integer from empty string",
            IntParseError::InvalidDigit => "invalid digit found in string",
            IntParseError::PosOverflow => "number too large to fit in target type",
            IntParseError::NegOverflow => "number too small to fit in target type",
        }
    }

    /// The message shown for the error.
    pub fn message(&self) -> (r: &'static str)
        ensures
            r == self.spec_message(),
    {
        match self {
            IntParseError::Empty => "cannot parse integer from empty string",
            IntParseError::InvalidDigit => "invalid digit found in string",
            IntParseError::PosOverflow => "number too large to fit in target type",
            IntParseError::NegOverflow => "number too small to fit in target type",
        }
    }
}

#[derive(Clone, Copy, Debug, PartialEq, Eq, Structural)]
pub enum Token {
    Multiply,
    Divide,
    Remainder,
    Add,
    Subtract,
    ShiftLeft,
    ShiftRight,
    LessThan,
    GreaterThan,
    LessThanOrEqual,
    GreaterThanOrEqual,
    Equal,
    NotEqual,
    BitAnd,
    BitOr,
    BitXor,
    BitNot,
    LogicalNot,
    LogicalAnd,
    LogicalOr,
    LeftParenthesis,
    RightParenthesis,
    Number(ExprValue),
    /// The text of the identifier is the one that the token spans.
    Identifier,
}

/// What stands at a place of an expression where no token can be read.
#[derive(Clone, Copy, Debug, PartialEq, Eq, Structural)]
pub enum TokenError {
    InvalidNumber(IntParseError),
    Unknown,
}

/// A token, or what stands in its place, and the bytes that it spans.
#[derive(Clone, Copy, Debug, PartialEq, Eq)]
pub struct Lexeme {
    pub token: Result<Token, TokenError>,
    pub start: usize,
    pub end: usize,
}

impl Token {
    pub open spec fn spec_name(self) -> &'static str {
        match self {
            Token::Multiply => "Multiply",
            Token::Divide => "Divide",
            Token::Remainder => "Remainder",
            Token::Add => "Add",
            Token::Subtract => "Subtract",
            Token::ShiftLeft => "ShiftLeft",
            Token::ShiftRight => "ShiftRight",
            Token::LessThan => "LessThan",
            Token::GreaterThan => "GreaterThan",
            Token::LessThanOrEqual => "LessThanOrEqual",
            Token::GreaterThanOrEqual => "GreaterThanOrEqual",
            Token::Equal => "Equal",
            Token::NotEqual => "NotEqual",
            Token::BitAnd => "BitAnd",
            Token::BitOr => "BitOr",
            Token::BitXor => "BitXor",
            Token::BitNot => "BitNot",
            Token::LogicalNot => "LogicalNot",
            Token::LogicalAnd => "LogicalAnd",
            Token::LogicalOr => "LogicalOr",
            Token::LeftParenthesis => "LeftParenthesis",
            Token::RightParenthesis => "RightParenthesis",
            Token::Number(_) => "Number",
            Token::Identifier => "Identifier",
        }
    }

    /// The name of the kind of token.
    pub fn name(self) -> (r: &'static str)
        ensures
            r == self.spec_name(),
    {
        match self {
            Token::Multiply => "Multiply",
            Token::Divide => "Divide",
            Token::Remainder => "Remainder",
            Token::Add => "Add",
            Token::Subtract => "Subtract",
            Token::ShiftLeft => "ShiftLeft",
            Token::ShiftRight => "ShiftRight",
            Token::LessThan => "LessThan",
            Token::GreaterThan => "GreaterThan",
            Token::LessThanOrEqual => "LessThanOrEqual",
            Token::GreaterThanOrEqual => "GreaterThanOrEqual",
            Token::Equal => "Equal",
            Token::NotEqual => "NotEqual",
            Token::BitAnd => "BitAnd",
            Token::BitOr => "BitOr",
            Token::BitXor => "BitXor",
            Token::BitNot => "BitNot",
            Token::LogicalNot => "LogicalNot",
            Token::LogicalAnd => "LogicalAnd",
            Token::LogicalOr => "LogicalOr",
            Token::LeftParenthesis => "LeftParenthesis",
            Token::RightParenthesis => "RightParenthesis",
            Token::Number(_) => "Number",
            Token::Identifier => "Identifier",
        }
    }
}

// ---------------------------------------------------------------------------------------------
// Model

/// The value of a digit; 99 for what is no hexadecimal digit.
pub open spec fn digit_value(x: u8) -> int {
    if 0x30 <= x <= 0x39 {
        x - 0x30
    } else if 0x61 <= x <= 0x66 {
        x - 0x61 + 10
    } else if 0x41 <= x <= 0x46 {
        x - 0x41 + 10
    } else {
        99
    }
}

/// The end of the run of digits of a base that starts at `i`.
pub open spec fn digits_end(b: Seq<u8>, i: int, radix: int) -> int
    decreases b.len() - i,
{
    if i < b.len() && digit_value(b[i]) < radix {
        digits_end(b, i + 1, radix)
    } else {
        i
    }
}

/// The number that the digits `i..j` stand for.
pub open spec fn digits_value(b: Seq<u8>, i: int, j: int, radix: int) -> int
    decreases j - i,
{
    if i >= j {
        0
    } else {
        digits_value(b, i, j - 1, radix) * radix + digit_value(b[j - 1])
    }
}

/// The `n` bytes from `i` on are zero digits.
pub open spec fn zeros(b: Seq<u8>, i: int, n: int) -> bool {
    i + n <= b.len() && forall|k: int| i <= k < i + n ==> #[trigger] b[k] == 0x30
}

/// `-9223372036854775808`.
pub open spec fn least_decimal() -> Seq<u8> {
    seq![
        0x2du8, 0x39, 0x32, 0x32, 0x33, 0x33, 0x37, 0x32, 0x30, 0x33, 0x36, 0x38, 0x35, 0x34,
        0x37, 0x37, 0x35, 0x38, 0x30, 0x38,
    ]
}

/// The length of the least value, written with its sign at `i`; 0 when it does not stand there.
pub open spec fn least_len(b: Seq<u8>, i: int) -> int {
    if text::has_at(b, i, least_decimal()) {
        20
    } else if i + 3 >= b.len() || b[i] != 0x2d || b[i + 1] != 0x30 {
        0
    } else if (b[i + 2] == 0x78 || b[i + 2] == 0x58) && b[i + 3] == 0x38 && zeros(b, i + 4, 15) {
        19
    } else if (b[i + 2] == 0x62 || b[i + 2] == 0x42) && b[i + 3] == 0x31 && zeros(b, i + 4, 63) {
        67
    } else if b[i + 2] == 0x31 && zeros(b, i + 3, 21) {
        24
    } else {
        0
    }
}

/// Where the digits of the number at `i` start, and their base.
pub open spec fn number_form(b: Seq<u8>, i: int) -> (int, int) {
    if b[i] != 0x30 {
        (i, 10)
    } else if i + 2 < b.len() && (b[i + 1] == 0x78 || b[i + 1] == 0x58) && digit_value(b[i + 2])
        < 16 {
        (i + 2, 16)
    } else if i + 2 < b.len() && (b[i + 1] == 0x62 || b[i + 1] == 0x42) && digit_value(b[i + 2])
        < 2 {
        (i + 2, 2)
    } else if i + 1 < b.len() && digit_value(b[i + 1]) < 8 {
        (i + 1, 8)
    } else {
        // A zero that no other digit can follow.
        (i, 1)
    }
}

/// The number at `i`, where a digit stands: one decimal, or one with the prefix of another base.
pub open spec fn number_at(b: Seq<u8>, i: int) -> Lexeme {
    let (first, radix) = number_form(b, i);
    let end = digits_end(b, first, radix);
    let end = if radix == 1 {
        i + 1
    } else {
        end
    };
    let value = if radix == 1 {
        0
    } else {
        digits_value(b, first, end, radix)
    };
    Lexeme {
        token: if value <= i64::MAX {
            Ok(Token::Number(value as i64))
        } else {
            Err(TokenError::InvalidNumber(IntParseError::PosOverflow))
        },
        start: i as usize,
        end: end as usize,
    }
}

/// The token of two characters at `i`.
pub open spec fn pair_at(b: Seq<u8>, i: int) -> Option<Token> {
    if i + 1 >= b.len() {
        None
    } else if b[i] == 0x3c && b[i + 1] == 0x3c {
        Some(Token::ShiftLeft)
    } else if b[i] == 0x3e && b[i + 1] == 0x3e {
        Some(Token::ShiftRight)
    } else if b[i] == 0x3c && b[i + 1] == 0x3d {
        Some(Token::LessThanOrEqual)
    } else if b[i] == 0x3e && b[i + 1] == 0x3d {
        Some(Token::GreaterThanOrEqual)
    } else if b[i] == 0x3d && b[i + 1] == 0x3d {
        Some(Token::Equal)
    } else if b[i] == 0x21 && b[i + 1] == 0x3d {
        Some(Token::NotEqual)
    } else if b[i] == 0x26 && b[i + 1] == 0x26 {
        Some(Token::LogicalAnd)
    } else if b[i] == 0x7c && b[i + 1] == 0x7c {
        Some(Token::LogicalOr)
    } else {
        None
    }
}

/// The token that one character is.
pub open spec fn single(x: u8) -> Option<Token> {
    if x == 0x2a {
        Some(Token::Multiply)
    } else if x == 0x2f {
        Some(Token::Divide)
    } else if x == 0x25 {
        Some(Token::Remainder)
    } else if x == 0x2b {
        Some(Token::Add)
    } else if x == 0x2d {
        Some(Token::Subtract)
    } else if x == 0x3c {
        Some(Token::LessThan)
    } else if x == 0x3e {
        Some(Token::GreaterThan)
    } else if x == 0x26 {
        Some(Token::BitAnd)
    } else if x == 0x7c {
        Some(Token::BitOr)
    } else if x == 0x5e {
        Some(Token::BitXor)
    } else if x == 0x7e {
        Some(Token::BitNot)
    } else if x == 0x21 {
        Some(Token::LogicalNot)
    } else if x == 0x28 {
        Some(Token::LeftParenthesis)
    } else if x == 0x29 {
        Some(Token::RightParenthesis)
    } else {
        None
    }
}

/// The longest token at `i`, where no white space stands.
pub open spec fn lexeme_at(b: Seq<u8>, i: int) -> Lexeme {
    if text::is_digit(b[i]) {
        number_at(b, i)
    } else if text::is_name_start(b[i]) {
        Lexeme {
            token: Ok(Token::Identifier),
            start: i as usize,
            end: text::skip_name(b, i, b.len() as int) as usize,
        }
    } else if least_len(b, i) > 0 {
        Lexeme {
            token: Ok(Token::Number(i64::MIN)),
            start: i as usize,
            end: (i + least_len(b, i)) as usize,
        }
    } else if pair_at(b, i) is Some {
        Lexeme { token: Ok(pair_at(b, i)->0), start: i as usize, end: (i + 2) as usize }
    } else if single(b[i]) is Some {
        Lexeme { token: Ok(single(b[i])->0), start: i as usize, end: (i + 1) as usize }
    } else {
        Lexeme {
            token: Err(TokenError::Unknown),
            start: i as usize,
            end: text::char_end(b, i) as usize,
        }
    }
}

/// The tokens from `i` on.
pub open spec fn lexemes(b: Seq<u8>, i: int) -> Seq<Lexeme>
    decreases b.len() - i,
{
    let k = text::skip_space(b, i, b.len() as int);
    if k < i || k >= b.len() {
        Seq::empty()
    } else {
        let t = lexeme_at(b, k);
        if t.end <= k || t.end > b.len() {
            Seq::empty()
        } else {
            seq![t] + lexemes(b, t.end as int)
        }
    }
}

// ---------------------------------------------------------------------------------------------
// Lexer

pub(crate) fn digit(x: u8) -> (r: u8)
    ensures
        r == digit_value(x),
{
    if 0x30 <= x && x <= 0x39 {
        x - 0x30
    } else if 0x61 <= x && x <= 0x66 {
        x - 0x61 + 10
    } else if 0x41 <= x && x <= 0x46 {
        x - 0x41 + 10
    } else {
        99
    }
}

proof fn lemma_digits_end(b: Seq<u8>, i: int, radix: int)
    requires
        0 <= i <= b.len(),
    ensures
        i <= digits_end(b, i, radix) <= b.len(),
        forall|k: int| i <= k < digits_end(b, i, radix) ==> digit_value(#[trigger] b[k]) < radix,
    decreases b.len() - i,
{
    if i < b.len() && digit_value(b[i]) < radix {
        lemma_digits_end(b, i + 1, radix);
    }
}

/// More digits do not make a number smaller.
pub proof fn lemma_digits_grow(b: Seq<u8>, i: int, j: int, end: int, radix: int)
    requires
        i <= j <= end,
        radix >= 1,
    ensures
        0 <= digits_value(b, i, j, radix) <= digits_value(b, i, end, radix),
    decreases end - i,
{
    if end > j {
        lemma_digits_grow(b, i, j, end - 1, radix);
        let v = digits_value(b, i, end - 1, radix);
        assert(v * radix >= v) by (nonlinear_arith)
            requires
                v >= 0,
                radix >= 1,
        ;
    } else if j > i {
        lemma_digits_grow(b, i, j - 1, j - 1, radix);
        let v = digits_value(b, i, j - 1, radix);
        assert(v * radix >= 0) by (nonlinear_arith)
            requires
                v >= 0,
                radix >= 1,
        ;
    }
}

fn run_of_digits(b: &[u8], i: usize, radix: u8) -> (r: usize)
    requires
        i <= b@.len(),
    ensures
        r == digits_end(b@, i as int, radix as int),
        i <= r <= b@.len(),
{
    let mut k: usize = i;
    while k < b.len() && digit(b[k]) < radix
        invariant
            i <= k <= b@.len(),
            digits_end(b@, i as int, radix as int) == digits_end(b@, k as int, radix as int),
        decreases b@.len() - k,
    {
        k += 1;
    }
    k
}

/// The value of a run of digits, or `None` when it is above `limit`.
pub(crate) fn parse_digits(b: &[u8], i: usize, j: usize, radix: u8, limit: u128) -> (r: Option<
    u128,
>)
    requires
        i <= j <= b@.len(),
        1 <= radix <= 16,
        limit <= u64::MAX as u128 || limit <= u128::MAX / 32,
        forall|k: int| i <= k < j ==> digit_value(#[trigger] b@[k]) < radix,
    ensures
        r is Some <==> digits_value(b@, i as int, j as int, radix as int) <= limit,
        r matches Some(v) ==> v == digits_value(b@, i as int, j as int, radix as int),
{
    let mut value: u128 = 0;
    let mut k: usize = i;
    while k < j
        invariant
            i <= k <= j <= b@.len(),
            1 <= radix <= 16,
            limit <= u64::MAX as u128 || limit <= u128::MAX / 32,
            forall|k: int| i <= k < j ==> digit_value(#[trigger] b@[k]) < radix,
            value == digits_value(b@, i as int, k as int, radix as int),
            value <= limit,
        decreases j - k,
    {
        proof {
            lemma_digits_grow(b@, i as int, k + 1, j as int, radix as int);
            assert(digit_value(b@[k as int]) < radix);
            assert(value * radix <= limit * 16) by (nonlinear_arith)
                requires
                    0 <= value <= limit,
                    1 <= radix <= 16,
            ;
        }
        value = value * radix as u128 + digit(b[k]) as u128;
        if value > limit {
            return None;
        }
        k += 1;
    }
    Some(value)
}

fn all_zeros(b: &[u8], i: usize, n: usize) -> (r: bool)
    requires
        i <= b@.len(),
        n <= 64,
    ensures
        r == zeros(b@, i as int, n as int),
{
    if b.len() - i < n {
        return false;
    }
    let mut k: usize = 0;
    while k < n
        invariant
            k <= n,
            i + n <= b@.len() <= usize::MAX,
            forall|m: int| i <= m < i + k ==> #[trigger] b@[m] == 0x30,
        decreases n - k,
    {
        if b[i + k] != 0x30 {
            assert(b@[i + k] != 0x30);
            return false;
        }
        k += 1;
    }
    true
}

fn least_value_len(b: &[u8], i: usize) -> (r: usize)
    requires
        i < b@.len(),
    ensures
        r == least_len(b@, i as int),
        r > 0 ==> i + r <= b@.len(),
{
    let pat: [u8; 20] = [
        0x2d, 0x39, 0x32, 0x32, 0x33, 0x33, 0x37, 0x32, 0x30, 0x33, 0x36, 0x38, 0x35, 0x34, 0x37,
        0x37, 0x35, 0x38, 0x30, 0x38,
    ];
    assert(pat@ =~= least_decimal());
    if text::bytes_at(b, i, &pat) {
        return 20;
    }
    if b.len() - i <= 3 || b[i] != 0x2d || b[i + 1] != 0x30 {
        return 0;
    }
    if (b[i + 2] == 0x78 || b[i + 2] == 0x58) && b[i + 3] == 0x38 && all_zeros(b, i + 4, 15) {
        19
    } else if (b[i + 2] == 0x62 || b[i + 2] == 0x42) && b[i + 3] == 0x31 && all_zeros(
        b,
        i + 4,
        63,
    ) {
        67
    } else if b[i + 2] == 0x31 && all_zeros(b, i + 3, 21) {
        24
    } else {
        0
    }
}

fn read_number(b: &[u8], i: usize) -> (r: Lexeme)
    requires
        i < b@.len(),
        text::is_digit(b@[i as int]),
    ensures
        r == number_at(b@, i as int),
        i < r.end <= b@.len(),
{
    let mut first: usize = i;
    let mut radix: u8 = 10;
    let left: usize = b.len() - i;
    if b[i] == 0x30 {
        if left > 2 && (b[i + 1] == 0x78 || b[i + 1] == 0x58) && digit(b[i + 2]) < 16 {
            first = i + 2;
            radix = 16;
        } else if left > 2 && (b[i + 1] == 0x62 || b[i + 1] == 0x42) && digit(b[i + 2]) < 2 {
            first = i + 2;
            radix = 2;
        } else if left > 1 && digit(b[i + 1]) < 8 {
            first = i + 1;
            radix = 8;
        } else {
            return Lexeme { token: Ok(Token::Number(0)), start: i, end: i + 1 };
        }
    }
    assert(number_form(b@, i as int) == (first as int, radix as int));
    proof {
        lemma_digits_end(b@, first as int, radix as int);
        assert(digits_end(b@, first as int, radix as int) == digits_end(
            b@,
            first + 1,
            radix as int,
        ));
        lemma_digits_end(b@, first + 1, radix as int);
    }
    let end = run_of_digits(b, first, radix);
    match parse_digits(b, first, end, radix, i64::MAX as u128) {
        Some(value) => Lexeme { token: Ok(Token::Number(value as i64)), start: i, end },
        None => Lexeme {
            token: Err(TokenError::InvalidNumber(IntParseError::PosOverflow)),
            start: i,
            end,
        },
    }
}

fn read_pair(b: &[u8], i: usize) -> (r: Option<Token>)
    requires
        i < b@.len(),
    ensures
        r == pair_at(b@, i as int),
{
    if b.len() - i <= 1 {
        return None;
    }
    let y: u8 = b[i + 1];
    match b[i] {
        0x3c => if y == 0x3c {
            Some(Token::ShiftLeft)
        } else if y == 0x3d {
            Some(Token::LessThanOrEqual)
        } else {
            None
        },
        0x3e => if y == 0x3e {
            Some(Token::ShiftRight)
        } else if y == 0x3d {
            Some(Token::GreaterThanOrEqual)
        } else {
            None
        },
        0x3d => if y == 0x3d {
            Some(Token::Equal)
        } else {
            None
        },
        0x21 => if y == 0x3d {
            Some(Token::NotEqual)
        } else {
            None
        },
        0x26 => if y == 0x26 {
            Some(Token::LogicalAnd)
        } else {
            None
        },
        0x7c => if y == 0x7c {
            Some(Token::LogicalOr)
        } else {
            None
        },
        _ => None,
    }
}

fn read_single(x: u8) -> (r: Option<Token>)
    ensures
        r == single(x),
{
    match x {
        0x2a => Some(Token::Multiply),
        0x2f => Some(Token::Divide),
        0x25 => Some(Token::Remainder),
        0x2b => Some(Token::Add),
        0x2d => Some(Token::Subtract),
        0x3c => Some(Token::LessThan),
        0x3e => Some(Token::GreaterThan),
        0x26 => Some(Token::BitAnd),
        0x7c => Some(Token::BitOr),
        0x5e => Some(Token::BitXor),
        0x7e => Some(Token::BitNot),
        0x21 => Some(Token::LogicalNot),
        0x28 => Some(Token::LeftParenthesis),
        0x29 => Some(Token::RightParenthesis),
        _ => None,
    }
}

fn read_lexeme(b: &[u8], i: usize) -> (r: Lexeme)
    requires
        i < b@.len(),
    ensures
        r == lexeme_at(b@, i as int),
        r.start == i,
        i < r.end <= b@.len(),
{
    let x: u8 = b[i];
    if 0x30 <= x && x <= 0x39 {
        return read_number(b, i);
    }
    if text::name_start(x) {
        let end = text::name_end(b, i + 1, b.len());
        return Lexeme { token: Ok(Token::Identifier), start: i, end };
    }
    let least = least_value_len(b, i);
    if least > 0 {
        return Lexeme { token: Ok(Token::Number(i64::MIN)), start: i, end: i + least };
    }
    if let Some(token) = read_pair(b, i) {
        return Lexeme { token: Ok(token), start: i, end: i + 2 };
    }
    if let Some(token) = read_single(x) {
        return Lexeme { token: Ok(token), start: i, end: i + 1 };
    }
    Lexeme { token: Err(TokenError::Unknown), start: i, end: text::after_char(b, i) }
}

/// Each token lies within the text and is not empty.
pub open spec fn within(ts: Seq<Lexeme>, len: int) -> bool {
    forall|k: int| 0 <= k < ts.len() ==> (#[trigger] ts[k]).start < ts[k].end <= len
}

/// Splits an expression into its tokens.
pub(crate) fn tokenize(b: &[u8]) -> (r: Vec<Lexeme>)
    ensures
        r@ == lexemes(b@, 0),
        within(r@, b@.len() as int),
{
    let mut r: Vec<Lexeme> = Vec::new();
    let mut i: usize = text::space_end(b, 0, b.len());
    let ghost mut from: int = 0;
    assert(r@ + lexemes(b@, 0) =~= lexemes(b@, 0));
    while i < b.len()
        invariant
            0 <= from <= i <= b@.len(),
            i == text::skip_space(b@, from, b@.len() as int),
            r@ + lexemes(b@, from) == lexemes(b@, 0),
            within(r@, b@.len() as int),
        decreases b@.len() - i,
    {
        let t = read_lexeme(b, i);
        let ghost before = r@;
        r.push(t);
        assert(r@ + lexemes(b@, t.end as int) =~= before + lexemes(b@, from));
        i = text::space_end(b, t.end, b.len());
        proof {
            from = t.end as int;
        }
    }
    assert(r@ + lexemes(b@, from) =~= r@);
    r
}

} // verus!
