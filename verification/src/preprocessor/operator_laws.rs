//! What the operators of `#if` expressions compute, from the text of an expression to its value.

use crate::preprocessor::expr;
use crate::preprocessor::expr::{Expr, ExprDiagnostic, ExprValue, Stop};
use crate::preprocessor::token;
use crate::preprocessor::token::{IntParseError, Lexeme, Token, TokenError};
use crate::text;
use vstd::arithmetic::power2::{lemma2_to64, lemma_pow2_pos, lemma_pow2_unfold, pow2};
use vstd::prelude::*;

verus! {

// ---------------------------------------------------------------------------------------------
// Integers

/// The operators between two operands.
#[derive(Clone, Copy, Debug, PartialEq, Eq, Structural)]
pub enum Op {
    Or,
    And,
    BitOr,
    BitXor,
    BitAnd,
    Equal,
    NotEqual,
    Less,
    Greater,
    LessOrEqual,
    GreaterOrEqual,
    ShiftLeft,
    ShiftRight,
    Plus,
    Minus,
    Times,
    Over,
    Remainder,
}

/// How an operator is written.
pub open spec fn op_text(op: Op) -> Seq<u8> {
    match op {
        Op::Or => seq![0x7cu8, 0x7c],
        Op::And => seq![0x26u8, 0x26],
        Op::BitOr => seq![0x7cu8],
        Op::BitXor => seq![0x5eu8],
        Op::BitAnd => seq![0x26u8],
        Op::Equal => seq![0x3du8, 0x3d],
        Op::NotEqual => seq![0x21u8, 0x3d],
        Op::Less => seq![0x3cu8],
        Op::Greater => seq![0x3eu8],
        Op::LessOrEqual => seq![0x3cu8, 0x3d],
        Op::GreaterOrEqual => seq![0x3eu8, 0x3d],
        Op::ShiftLeft => seq![0x3cu8, 0x3c],
        Op::ShiftRight => seq![0x3eu8, 0x3e],
        Op::Plus => seq![0x2bu8],
        Op::Minus => seq![0x2du8],
        Op::Times => seq![0x2au8],
        Op::Over => seq![0x2fu8],
        Op::Remainder => seq![0x25u8],
    }
}

/// How tightly an operator binds, as in C.
pub open spec fn op_rank(op: Op) -> int {
    match op {
        Op::Times | Op::Over | Op::Remainder => 10,
        Op::Plus | Op::Minus => 9,
        Op::ShiftLeft | Op::ShiftRight => 8,
        Op::Less | Op::Greater | Op::LessOrEqual | Op::GreaterOrEqual => 7,
        Op::Equal | Op::NotEqual => 6,
        Op::BitAnd => 5,
        Op::BitXor => 4,
        Op::BitOr => 3,
        Op::And => 2,
        Op::Or => 1,
    }
}

pub open spec fn in_range(v: int) -> bool {
    i64::MIN <= v <= i64::MAX
}

pub open spec fn absolute(a: int) -> int {
    if a < 0 {
        -a
    } else {
        a
    }
}

/// The quotient, rounded towards zero.
pub open spec fn quotient(a: int, b: int) -> int {
    if (a < 0) == (b < 0) {
        absolute(a) / absolute(b)
    } else {
        -(absolute(a) / absolute(b))
    }
}

/// The bit `k` of a number in two's complement.
pub open spec fn bit(v: int, k: nat) -> bool {
    (v / pow2(k) as int) % 2 == 1
}

/// The operator has a value for two operands.
pub open spec fn has_value(op: Op, a: int, b: int) -> bool {
    match op {
        Op::Plus => in_range(a + b),
        Op::Minus => in_range(a - b),
        Op::Times => in_range(a * b),
        Op::Over | Op::Remainder => b != 0 && in_range(quotient(a, b)),
        Op::ShiftLeft | Op::ShiftRight => 0 <= b < 64,
        _ => true,
    }
}

/// `v` is the value of an operator for two operands, in the range of values.
pub open spec fn is_value(op: Op, a: int, b: int, v: int) -> bool {
    match op {
        Op::Or => v == if a == 0 && b == 0 {
            0int
        } else {
            1
        },
        Op::And => v == if a == 0 || b == 0 {
            0int
        } else {
            1
        },
        Op::BitOr => forall|k: nat| k < 64 ==> (#[trigger] bit(v, k) <==> bit(a, k) || bit(b, k)),
        Op::BitXor => forall|k: nat| k < 64 ==> (#[trigger] bit(v, k) <==> bit(a, k) != bit(b, k)),
        Op::BitAnd => forall|k: nat| k < 64 ==> (#[trigger] bit(v, k) <==> bit(a, k) && bit(b, k)),
        Op::Equal | Op::NotEqual => v == if a == b {
            1int
        } else {
            0
        },
        Op::Less => v == if a < b {
            1int
        } else {
            0
        },
        Op::Greater => v == if a > b {
            1int
        } else {
            0
        },
        Op::LessOrEqual => v == if a <= b {
            1int
        } else {
            0
        },
        Op::GreaterOrEqual => v == if a >= b {
            1int
        } else {
            0
        },
        Op::ShiftLeft => (v - a * pow2(b as nat)) % 0x1_0000_0000_0000_0000 == 0,
        Op::ShiftRight => v == a / pow2(b as nat) as int,
        Op::Plus => v == a + b,
        Op::Minus => v == a - b,
        Op::Times => v == a * b,
        Op::Over => v == quotient(a, b),
        Op::Remainder => v == a - b * quotient(a, b),
    }
}

spec fn op_token(op: Op) -> Token {
    match op {
        Op::Or => Token::LogicalOr,
        Op::And => Token::LogicalAnd,
        Op::BitOr => Token::BitOr,
        Op::BitXor => Token::BitXor,
        Op::BitAnd => Token::BitAnd,
        Op::Equal => Token::Equal,
        Op::NotEqual => Token::NotEqual,
        Op::Less => Token::LessThan,
        Op::Greater => Token::GreaterThan,
        Op::LessOrEqual => Token::LessThanOrEqual,
        Op::GreaterOrEqual => Token::GreaterThanOrEqual,
        Op::ShiftLeft => Token::ShiftLeft,
        Op::ShiftRight => Token::ShiftRight,
        Op::Plus => Token::Add,
        Op::Minus => Token::Subtract,
        Op::Times => Token::Multiply,
        Op::Over => Token::Divide,
        Op::Remainder => Token::Remainder,
    }
}

#[verifier::spinoff_prover]
proof fn lemma_shift_right(a: i64, k: u64)
    requires
        k < 64,
    ensures
        a >> k == a as int / pow2(k as nat) as int,
    decreases k,
{
    lemma_pow2_pos(k as nat);
    if k == 0 {
        lemma2_to64();
        assert(a >> 0u64 == a) by (bit_vector);
        assert(a as int / 1 == a);
    } else {
        let j = (k - 1) as u64;
        lemma_shift_right(a, j);
        lemma_pow2_unfold(k as nat);
        lemma_pow2_pos(j as nat);
        let h = a >> j;
        assert(a >> k == (a >> j) >> 1u64) by (bit_vector)
            requires
                k < 64,
                k > 0,
                j == k - 1,
        ;
        assert(h >> 1u64 == h as int / 2) by {
            let g = h >> 1u64;
            assert(2 * g <= h && h <= 2 * g + 1) by (bit_vector)
                requires
                    g == h >> 1u64,
            ;
        }
        let p = pow2(j as nat) as int;
        let g = (h >> 1u64) as int;
        let r = a as int % p;
        vstd::arithmetic::div_mod::lemma_fundamental_div_mod(a as int, p);
        vstd::arithmetic::div_mod::lemma_mod_bound(a as int, p);
        let rest = a - (2 * p) * g;
        assert(0 <= rest < 2 * p) by (nonlinear_arith)
            requires
                a == p * h + r,
                0 <= r < p,
                2 * g <= h <= 2 * g + 1,
                rest == a - (2 * p) * g,
        ;
        assert(a == g * (2 * p) + rest) by (nonlinear_arith)
            requires
                rest == a - (2 * p) * g,
        ;
        vstd::arithmetic::div_mod::lemma_fundamental_div_mod_converse(a as int, 2 * p, g, rest);
        assert(pow2(k as nat) == 2 * p);
    }
}

#[verifier::spinoff_prover]
proof fn lemma_shift_left(a: i64, k: u64)
    requires
        k < 64,
    ensures
        ((a << k) - a * pow2(k as nat)) % 0x1_0000_0000_0000_0000 == 0,
    decreases k,
{
    if k == 0 {
        lemma2_to64();
        assert(a << 0u64 == a) by (bit_vector);
        assert(a * pow2(0) == a);
    } else {
        let j = (k - 1) as u64;
        lemma_shift_left(a, j);
        lemma_pow2_unfold(k as nat);
        let h = a << j;
        let g = h << 1u64;
        assert(a << k == (a << j) << 1u64) by (bit_vector)
            requires
                k < 64,
                k > 0,
                j == k - 1,
        ;
        assert(g == 2 * h || g == 2 * h - 0x1_0000_0000_0000_0000int || g == 2 * h
            + 0x1_0000_0000_0000_0000int) by {
            if h >= 0x4000_0000_0000_0000 {
                assert(g == h - 0x4000_0000_0000_0000 + h - 0x4000_0000_0000_0000
                    - 0x4000_0000_0000_0000 - 0x4000_0000_0000_0000) by (bit_vector)
                    requires
                        g == h << 1u64,
                        h >= 0x4000_0000_0000_0000,
                ;
            } else if h < -0x4000_0000_0000_0000 {
                assert(g == h + 0x4000_0000_0000_0000 + h + 0x4000_0000_0000_0000
                    + 0x4000_0000_0000_0000 + 0x4000_0000_0000_0000) by (bit_vector)
                    requires
                        g == h << 1u64,
                        h < -0x4000_0000_0000_0000,
                ;
            } else {
                assert(g == h + h) by (bit_vector)
                    requires
                        g == h << 1u64,
                        -0x4000_0000_0000_0000 <= h < 0x4000_0000_0000_0000,
                ;
            }
        }
        let p = pow2(j as nat) as int;
        let d = h - a * p;
        assert(a * (2 * p) == 2 * (a * p)) by (nonlinear_arith);
        let e = g - a * pow2(k as nat);
        lemma_twice(d, e);
    }
}

/// Twice a multiple of the modulus, give or take the modulus, is a multiple of it.
proof fn lemma_twice(d: int, e: int)
    requires
        d % 0x1_0000_0000_0000_0000 == 0,
        e == 2 * d || e == 2 * d - 0x1_0000_0000_0000_0000 || e == 2 * d + 0x1_0000_0000_0000_0000,
    ensures
        e % 0x1_0000_0000_0000_0000 == 0,
{
}

proof fn lemma_bit(a: i64, k: u64)
    requires
        k < 64,
    ensures
        bit(a as int, k as nat) == ((a >> k) & 1i64 == 1i64),
{
    lemma_shift_right(a, k);
    let h = a >> k;
    assert((h & 1i64 == 1i64) == (h as int % 2 == 1)) by {
        let g = h >> 1u64;
        assert(h == g + g + (h & 1i64) && (h & 1i64 == 0i64 || h & 1i64 == 1i64)) by (bit_vector)
            requires
                g == h >> 1u64,
        ;
    }
}

proof fn lemma_bits(a: i64, b: i64, k: nat)
    requires
        k < 64,
    ensures
        bit((a | b) as int, k) == (bit(a as int, k) || bit(b as int, k)),
        bit((a ^ b) as int, k) == (bit(a as int, k) != bit(b as int, k)),
        bit((a & b) as int, k) == (bit(a as int, k) && bit(b as int, k)),
{
    let n = k as u64;
    lemma_bit(a, n);
    lemma_bit(b, n);
    lemma_bit(a | b, n);
    lemma_bit(a ^ b, n);
    lemma_bit(a & b, n);
    assert((((a | b) >> n) & 1i64 == 1i64) == (((a >> n) & 1i64 == 1i64) || ((b >> n) & 1i64
        == 1i64))) by (bit_vector);
    assert((((a ^ b) >> n) & 1i64 == 1i64) == (((a >> n) & 1i64 == 1i64) != ((b >> n) & 1i64
        == 1i64))) by (bit_vector);
    assert((((a & b) >> n) & 1i64 == 1i64) == (((a >> n) & 1i64 == 1i64) && ((b >> n) & 1i64
        == 1i64))) by (bit_vector);
}

/// What the quotient leaves is smaller than the divisor, and the quotient is out of range only
/// where the least number is divided by -1.
proof fn lemma_quotient(a: int, b: int)
    requires
        b != 0,
        in_range(a),
    ensures
        in_range(quotient(a, b)) <==> !(a == i64::MIN && b == -1),
        a - b * quotient(a, b) == if a < 0 {
            -(absolute(a) % absolute(b))
        } else {
            absolute(a) % absolute(b)
        },
        0 <= absolute(a) % absolute(b) <= absolute(a),
{
    let x = absolute(a);
    let d = absolute(b);
    let q = x / d;
    let r = x % d;
    vstd::arithmetic::div_mod::lemma_fundamental_div_mod(x, d);
    vstd::arithmetic::div_mod::lemma_mod_bound(x, d);
    assert(0 <= q && 0 <= d * q) by (nonlinear_arith)
        requires
            x == d * q + r,
            x >= 0,
            0 <= r < d,
    ;
    if d >= 2 {
        assert(2 * q <= x) by (nonlinear_arith)
            requires
                x == d * q + r,
                0 <= r,
                0 <= q,
                d >= 2,
        ;
    } else {
        assert(q == x) by (nonlinear_arith)
            requires
                x == d * q + r,
                d == 1,
                r == 0,
        ;
    }
    assert(b * quotient(a, b) == if a < 0 {
        -(d * q)
    } else {
        d * q
    }) by {
        assert(d * (-q) == -(d * q)) by (nonlinear_arith);
        assert((-d) * q == -(d * q)) by (nonlinear_arith);
        assert((-d) * (-q) == d * q) by (nonlinear_arith);
    }
}

/// The operators on machine numbers compute what they stand for on integers.
proof fn lemma_value(op: Op, a: i64, b: i64)
    ensures
        expr::binary_value(op_token(op), a, b) is Some <==> has_value(op, a as int, b as int),
        expr::binary_value(op_token(op), a, b) matches Some(v) ==> is_value(
            op,
            a as int,
            b as int,
            v as int,
        ),
{
    match op {
        Op::BitOr | Op::BitXor | Op::BitAnd => {
            assert forall|k: nat| k < 64 implies {
                &&& #[trigger] bit((a | b) as int, k) <==> bit(a as int, k) || bit(b as int, k)
            } by {
                lemma_bits(a, b, k);
            }
            assert forall|k: nat| k < 64 implies {
                &&& #[trigger] bit((a ^ b) as int, k) <==> bit(a as int, k) != bit(b as int, k)
            } by {
                lemma_bits(a, b, k);
            }
            assert forall|k: nat| k < 64 implies {
                &&& #[trigger] bit((a & b) as int, k) <==> bit(a as int, k) && bit(b as int, k)
            } by {
                lemma_bits(a, b, k);
            }
        },
        Op::ShiftLeft => {
            if 0 <= b < 64 {
                let n = b as u64;
                lemma_shift_left(a, n);
                assert(a << b == a << n);
            }
        },
        Op::ShiftRight => {
            if 0 <= b < 64 {
                let n = b as u64;
                lemma_shift_right(a, n);
                assert(a >> b == a >> n);
            }
        },
        Op::Over | Op::Remainder => {
            if b != 0 {
                lemma_quotient(a as int, b as int);
            }
        },
        _ => {},
    }
}

// ---------------------------------------------------------------------------------------------
// Texts

/// A digit, with letters in lower or upper case.
pub open spec fn digit_byte(d: int, upper: bool) -> u8 {
    if d < 10 {
        (0x30 + d) as u8
    } else if upper {
        (0x41 + d - 10) as u8
    } else {
        (0x61 + d - 10) as u8
    }
}

/// A number in a base, without leading zeros.
pub open spec fn digits_text(n: int, radix: int, upper: bool) -> Seq<u8>
    decreases n,
{
    if n < radix || radix < 2 {
        seq![digit_byte(n, upper)]
    } else {
        proof {
            vstd::arithmetic::div_mod::lemma_div_decreases(n, radix);
            vstd::arithmetic::div_mod::lemma_div_pos_is_pos(n, radix);
        }
        digits_text(n / radix, radix, upper).push(digit_byte(n % radix, upper))
    }
}

/// An integer in decimal, with a minus sign before a negative one.
pub open spec fn number_text(v: int) -> Seq<u8> {
    if v < 0 {
        seq![0x2du8] + digits_text(-v, 10, false)
    } else {
        digits_text(v, 10, false)
    }
}

/// A word of an expression.
#[derive(Clone, Copy, Debug, PartialEq, Eq, Structural)]
pub enum Word {
    Number(i64),
    Op(Op),
    /// `~` in front of an operand.
    BitNot,
    /// `!` in front of an operand.
    Not,
    Open,
    Close,
}

pub open spec fn word_text(w: Word) -> Seq<u8> {
    match w {
        Word::Number(v) => number_text(v as int),
        Word::Op(op) => op_text(op),
        Word::BitNot => seq![0x7eu8],
        Word::Not => seq![0x21u8],
        Word::Open => seq![0x28u8],
        Word::Close => seq![0x29u8],
    }
}

/// The words with a space between each two.
pub open spec fn words_text(ws: Seq<Word>) -> Seq<u8>
    decreases ws.len(),
{
    if ws.len() == 0 {
        Seq::empty()
    } else if ws.len() == 1 {
        word_text(ws[0])
    } else {
        word_text(ws[0]) + seq![0x20u8] + words_text(ws.subrange(1, ws.len() as int))
    }
}

spec fn word_tokens(w: Word) -> Seq<Token> {
    match w {
        Word::Number(v) => if i64::MIN < v < 0 {
            seq![Token::Subtract, Token::Number((-v) as i64)]
        } else {
            seq![Token::Number(v)]
        },
        Word::Op(op) => seq![op_token(op)],
        Word::BitNot => seq![Token::BitNot],
        Word::Not => seq![Token::LogicalNot],
        Word::Open => seq![Token::LeftParenthesis],
        Word::Close => seq![Token::RightParenthesis],
    }
}

spec fn words_tokens(ws: Seq<Word>) -> Seq<Token>
    decreases ws.len(),
{
    if ws.len() == 0 {
        Seq::empty()
    } else {
        word_tokens(ws[0]) + words_tokens(ws.subrange(1, ws.len() as int))
    }
}

/// The tokens are good, and are these.
spec fn read_as(ts: Seq<Lexeme>, want: Seq<Token>) -> bool {
    &&& ts.len() == want.len()
    &&& forall|k: int|
        0 <= k < ts.len() ==> (#[trigger] ts[k]).token == Ok::<Token, TokenError>(want[k])
}

proof fn lemma_read_concat(a: Seq<Lexeme>, b: Seq<Lexeme>, x: Seq<Token>, y: Seq<Token>)
    requires
        read_as(a, x),
        read_as(b, y),
    ensures
        read_as(a + b, x + y),
{
    assert forall|k: int| 0 <= k < (a + b).len() implies (#[trigger] (a + b)[k]).token == Ok::<
        Token,
        TokenError,
    >((x + y)[k]) by {
        if k < a.len() {
            assert((a + b)[k] == a[k]);
        } else {
            assert((a + b)[k] == b[k - a.len()]);
        }
    }
}

/// A digit is read as what it was written for.
proof fn lemma_digit_byte(d: int, upper: bool)
    requires
        0 <= d < 16,
    ensures
        token::digit_value(digit_byte(d, upper)) == d,
        d < 10 ==> text::is_digit(digit_byte(d, upper)),
        d > 0 ==> digit_byte(d, upper) != 0x30,
{
}

#[verifier::spinoff_prover]
#[verifier::rlimit(40)]
proof fn lemma_digits_text(n: int, radix: int, upper: bool)
    requires
        n >= 0,
        2 <= radix <= 16,
    ensures
        ({
            let t = digits_text(n, radix, upper);
            &&& t.len() > 0
            &&& n > 0 ==> t[0] != 0x30
            &&& n == 0 ==> t == seq![0x30u8]
            &&& forall|k: int| 0 <= k < t.len() ==> 0 <= token::digit_value(#[trigger] t[k]) < radix
            &&& token::digits_value(t, 0, t.len() as int, radix) == n
            &&& radix <= 10 ==> forall|k: int| 0 <= k < t.len() ==> text::is_digit(#[trigger] t[k])
        }),
    decreases n,
{
    let t = digits_text(n, radix, upper);
    if n < radix {
        lemma_digit_byte(n, upper);
        assert(t == seq![digit_byte(n, upper)]);
        assert(token::digits_value(t, 0, 0, radix) == 0);
        assert(token::digits_value(t, 0, 1, radix) == 0 * radix + token::digit_value(t[0]));
    } else {
        vstd::arithmetic::div_mod::lemma_fundamental_div_mod(n, radix);
        vstd::arithmetic::div_mod::lemma_mod_bound(n, radix);
        let q = n / radix;
        assert(0 < q < n) by (nonlinear_arith)
            requires
                n == radix * q + n % radix,
                0 <= n % radix < radix,
                n >= radix,
                radix >= 2,
        ;
        lemma_digits_text(q, radix, upper);
        let init = digits_text(q, radix, upper);
        assert(t[t.len() - 1] == digit_byte(n % radix, upper));
        lemma_digit_byte(n % radix, upper);
        assert forall|k: int| 0 <= k < init.len() implies #[trigger] t[0 + k] == init[0 + k] by {}
        lemma_same_digits(t, init, 0, init.len() as int, 0, radix);
        assert(q * radix == radix * q) by (nonlinear_arith);
        let last = t.len() - 1;
        assert(token::digits_value(t, 0, last, radix) == q);
        assert(token::digits_value(t, 0, last + 1, radix) == token::digits_value(t, 0, last, radix)
            * radix + token::digit_value(t[last]));
        assert(token::digits_value(t, 0, last + 1, radix) == q * radix + n % radix);
        assert forall|k: int| 0 <= k < t.len() implies 0 <= token::digit_value(#[trigger] t[k])
            < radix && (radix <= 10 ==> text::is_digit(t[k])) by {
            if k < init.len() {
                assert(t[k] == init[k]);
            }
        }
        assert(t[0] == init[0]);
    }
}

/// Digits have the same value wherever they stand.
proof fn lemma_same_digits(a: Seq<u8>, b: Seq<u8>, i: int, n: int, at: int, radix: int)
    requires
        0 <= i,
        0 <= n,
        forall|k: int| 0 <= k < n ==> #[trigger] a[i + k] == b[at + k],
    ensures
        token::digits_value(a, i, i + n, radix) == token::digits_value(b, at, at + n, radix),
    decreases n,
{
    if n > 0 {
        lemma_same_digits(a, b, i, n - 1, at, radix);
        assert(a[i + (n - 1)] == b[at + (n - 1)]);
        assert(i + n - 1 == i + (n - 1) && at + n - 1 == at + (n - 1));
    }
}

proof fn lemma_digits_end(b: Seq<u8>, i: int, j: int, radix: int)
    requires
        0 <= i <= j <= b.len(),
        forall|k: int| i <= k < j ==> token::digit_value(#[trigger] b[k]) < radix,
        j < b.len() ==> token::digit_value(b[j]) >= radix,
    ensures
        token::digits_end(b, i, radix) == j,
    decreases j - i,
{
    if i < j {
        assert(token::digit_value(b[i]) < radix);
        lemma_digits_end(b, i + 1, j, radix);
    }
}

/// A word ends where the text does, or at a space.
spec fn ends_at(b: Seq<u8>, j: int) -> bool {
    j == b.len() || (j < b.len() && b[j] == 0x20)
}

/// A number in a base at `i`, behind its prefix at `first`, is one token.
#[verifier::spinoff_prover]
#[verifier::rlimit(60)]
proof fn lemma_number_token(
    b: Seq<u8>,
    i: int,
    first: int,
    j: int,
    n: int,
    radix: int,
    upper: bool,
)
    requires
        0 <= i <= first <= j <= b.len() <= usize::MAX,
        radix == 2 || radix == 8 || radix == 10 || radix == 16,
        0 <= n,
        b.subrange(first, j) == digits_text(n, radix, upper),
        ends_at(b, j),
        radix == 10 ==> first == i,
        radix == 8 ==> first == i + 1 && b[i] == 0x30,
        radix == 16 ==> first == i + 2 && b[i] == 0x30 && (b[i + 1] == 0x78 || b[i + 1] == 0x58),
        radix == 2 ==> first == i + 2 && b[i] == 0x30 && (b[i + 1] == 0x62 || b[i + 1] == 0x42),
    ensures
        token::lexemes(b, i) == seq![
            Lexeme {
                token: if n <= i64::MAX {
                    Ok::<Token, TokenError>(Token::Number(n as i64))
                } else {
                    Err(TokenError::InvalidNumber(IntParseError::PosOverflow))
                },
                start: i as usize,
                end: j as usize,
            },
        ] + token::lexemes(b, j),
{
    let t = digits_text(n, radix, upper);
    lemma_digits_text(n, radix, upper);
    assert forall|k: int| first <= k < j implies 0 <= token::digit_value(#[trigger] b[k]) < radix && b[k]
        == t[k - first] by {
        assert(b.subrange(first, j)[k - first] == b[k]);
    }
    assert(b[first] == t[0]);
    lemma_digits_end(b, first, j, radix);
    assert forall|k: int| 0 <= k < j - first implies #[trigger] b[first + k] == t[0 + k] by {
        assert(b.subrange(first, j)[k] == b[first + k]);
    }
    lemma_same_digits(b, t, first, j - first, 0, radix);
    assert(text::is_digit(b[i]));
    assert(text::skip_space(b, i, b.len() as int) == i) by {
        assert(text::space_width(b, i, b.len() as int) == 0);
    }
    if radix == 10 && n == 0 {
        assert(j == i + 1);
        assert(token::number_form(b, i) == (i, 1int));
    } else {
        assert(token::number_form(b, i) == (first, radix));
    }
    assert(token::lexeme_at(b, i) == token::number_at(b, i));
}

/// No digit can stand behind the digits of the least number.
proof fn lemma_not_least(b: Seq<u8>, i: int, j: int, n: int)
    requires
        0 <= i < j <= b.len(),
        b[i] == 0x2d,
        0 < n <= i64::MAX,
        b.subrange(i + 1, j) == digits_text(n, 10, false),
        ends_at(b, j),
    ensures
        token::least_len(b, i) == 0,
{
    let t = digits_text(n, 10, false);
    lemma_digits_text(n, 10, false);
    assert(b[i + 1] == t[0]) by {
        assert(b.subrange(i + 1, j)[0] == b[i + 1]);
    }
    let least = token::least_decimal();
    if text::has_at(b, i, least) {
        assert forall|k: int| 0 <= k < 20 implies #[trigger] b[i + k] == least[k] by {
            assert(b.subrange(i, i + 20)[k] == b[i + k]);
        }
        if j < i + 20 {
            assert(b[i + (j - i)] == least[j - i]);
        } else {
            assert forall|k: int| 0 <= k < 19 implies #[trigger] b[i + 1 + k] == least[1 + k] by {
                assert(b[i + (k + 1)] == least[k + 1]);
            }
            lemma_same_digits(b, least, i + 1, 19, 1, 10);
            assert(token::digits_value(least, 1, 20, 10) == 9223372036854775808) by {
                reveal_with_fuel(token::digits_value, 20);
            }
            token::lemma_digits_grow(b, i + 1, i + 20, j, 10);
            assert forall|k: int| 0 <= k < j - i - 1 implies #[trigger] b[i + 1 + k] == t[0 + k] by {
                assert(b.subrange(i + 1, j)[k] == b[i + 1 + k]);
            }
            lemma_same_digits(b, t, i + 1, j - i - 1, 0, 10);
        }
    }
}

proof fn lemma_least_text()
    ensures
        number_text(i64::MIN as int) == token::least_decimal(),
{
    reveal_with_fuel(digits_text, 20);
    assert(number_text(i64::MIN as int) =~= token::least_decimal());
}

proof fn lemma_no_space(b: Seq<u8>, i: int)
    requires
        0 <= i < b.len(),
        0x20 < b[i] < 0x7f,
    ensures
        text::skip_space(b, i, b.len() as int) == i,
{
    assert(text::space_width(b, i, b.len() as int) == 0);
}

/// A word at `i` is read as its tokens.
#[verifier::spinoff_prover]
#[verifier::rlimit(60)]
proof fn lemma_word(b: Seq<u8>, i: int, j: int, w: Word) -> (ts: Seq<Lexeme>)
    requires
        0 <= i <= j <= b.len() <= usize::MAX,
        b.subrange(i, j) == word_text(w),
        ends_at(b, j),
    ensures
        token::lexemes(b, i) == ts + token::lexemes(b, j),
        read_as(ts, word_tokens(w)),
{
    let t = word_text(w);
    assert forall|k: int| 0 <= k < t.len() implies b[i + k] == #[trigger] t[k] by {
        assert(b.subrange(i, j)[k] == b[i + k]);
    }
    match w {
        Word::Number(v) => {
            if v >= 0 {
                lemma_number_token(b, i, i, j, v as int, 10, false);
                seq![Lexeme { token: Ok(Token::Number(v)), start: i as usize, end: j as usize }]
            } else if v == i64::MIN {
                lemma_least_text();
                assert(text::has_at(b, i, token::least_decimal()));
                assert(b[i + 0] == t[0]);
                lemma_no_space(b, i);
                seq![Lexeme { token: Ok(Token::Number(v)), start: i as usize, end: j as usize }]
            } else {
                let n = -v as int;
                let digits = digits_text(n, 10, false);
                lemma_digits_text(n, 10, false);
                assert(b.subrange(i + 1, j) =~= digits) by {
                    assert forall|k: int| 0 <= k < digits.len() implies b[i + 1 + k] == digits[k] by {
                        assert(b[i + (k + 1)] == t[k + 1]);
                    }
                }
                assert(b[i + 0] == t[0]);
                assert(b[i + 1] == t[1]);
                lemma_not_least(b, i, j, n);
                lemma_no_space(b, i);
                lemma_number_token(b, i + 1, i + 1, j, n, 10, false);
                let first = Lexeme {
                    token: Ok::<Token, TokenError>(Token::Subtract),
                    start: i as usize,
                    end: (i + 1) as usize,
                };
                let second = Lexeme {
                    token: Ok::<Token, TokenError>(Token::Number(n as i64)),
                    start: (i + 1) as usize,
                    end: j as usize,
                };
                assert(token::lexemes(b, i) =~= seq![first, second] + token::lexemes(b, j));
                seq![first, second]
            }
        },
        _ => {
            assert(b[i + 0] == t[0]);
            lemma_no_space(b, i);
            assert(token::least_len(b, i) == 0) by {
                if text::has_at(b, i, token::least_decimal()) {
                    assert(b.subrange(i, i + 20)[0] == token::least_decimal()[0]);
                    assert(b.subrange(i, i + 20)[1] == token::least_decimal()[1]);
                }
            }
            if t.len() == 2 {
                assert(b[i + 1] == t[1]);
            }
            seq![
                Lexeme {
                    token: Ok(word_tokens(w)[0]),
                    start: i as usize,
                    end: j as usize,
                },
            ]
        },
    }
}

proof fn lemma_word_text(w: Word)
    ensures
        word_text(w).len() > 0,
{
    match w {
        Word::Number(v) => {
            lemma_digits_text(absolute(v as int), 10, false);
        },
        _ => {},
    }
}

/// Words with spaces between them are read as their tokens.
proof fn lemma_words(b: Seq<u8>, i: int, ws: Seq<Word>)
    requires
        0 <= i <= b.len() <= usize::MAX,
        b.subrange(i, b.len() as int) == words_text(ws),
    ensures
        read_as(token::lexemes(b, i), words_tokens(ws)),
    decreases ws.len(),
{
    let len = b.len() as int;
    if ws.len() == 0 {
        assert(i == len);
        assert(token::lexemes(b, i) =~= Seq::empty());
    } else {
        let t = word_text(ws[0]);
        let rest = ws.subrange(1, ws.len() as int);
        lemma_word_text(ws[0]);
        let j = i + t.len();
        let all = words_text(ws);
        assert(all.len() == len - i) by {
            assert(b.subrange(i, len).len() == len - i);
        }
        assert(all == if ws.len() == 1 {
            t
        } else {
            t + seq![0x20u8] + words_text(rest)
        });
        assert(j <= len);
        assert(b.subrange(i, j) =~= t) by {
            assert(b.subrange(i, j) =~= b.subrange(i, len).subrange(0, t.len() as int));
        }
        if ws.len() == 1 {
            assert(j == len);
            let ts = lemma_word(b, i, j, ws[0]);
            assert(rest =~= Seq::empty());
            assert(token::lexemes(b, len) =~= Seq::empty());
            assert(ts + token::lexemes(b, len) =~= ts);
            assert(words_tokens(rest) =~= Seq::empty());
            assert(words_tokens(ws) =~= word_tokens(ws[0]));
        } else {
            assert(b[j] == 0x20) by {
                assert(b.subrange(i, len)[t.len() as int] == b[j]);
            }
            let ts = lemma_word(b, i, j, ws[0]);
            assert(b.subrange(j + 1, len) =~= words_text(rest)) by {
                assert(b.subrange(j + 1, len) =~= b.subrange(i, len).subrange(
                    t.len() as int + 1,
                    len - i,
                ));
            }
            lemma_words(b, j + 1, rest);
            assert(text::space_width(b, j, len) == 1);
            text::lemma_skip_space(b, j + 1, len);
            assert(text::skip_space(b, j, len) == text::skip_space(b, j + 1, len));
            assert(token::lexemes(b, j) == token::lexemes(b, j + 1));
            lemma_read_concat(ts, token::lexemes(b, j), word_tokens(ws[0]), words_tokens(rest));
        }
    }
}

// ---------------------------------------------------------------------------------------------
// Values

/// The value of an expression of words.
pub open spec fn words_value(ws: Seq<Word>, offsets: Seq<usize>, names: Set<Seq<u8>>) -> Option<
    Result<ExprValue, ExprDiagnostic<Seq<u8>>>,
> {
    expr::evaluated(words_text(ws), offsets, names)
}

spec fn words_expr(ws: Seq<Word>, names: Set<Seq<u8>>) -> Expr {
    Expr { text: words_text(ws), tokens: token::lexemes(words_text(ws), 0), names }
}

/// The tokens `want` stand at `pos`.
spec fn stands(x: Expr, pos: int, want: Seq<Token>) -> bool {
    &&& 0 <= pos
    &&& pos + want.len() <= x.tokens.len()
    &&& forall|k: int|
        0 <= k < want.len() ==> (#[trigger] x.tokens[pos + k]).token == Ok::<Token, TokenError>(
            want[k],
        )
}

/// No operator of `level` stands at `q`.
spec fn quiet(x: Expr, q: int, level: int) -> bool {
    q == x.tokens.len() || (q < x.tokens.len() && x.tokens[q].token is Ok && expr::op_level(
        x.tokens[q].token->Ok_0,
    ) != level)
}

spec fn yields(r: Result<(ExprValue, usize), Stop>, v: ExprValue, q: int) -> bool {
    r == Ok::<(ExprValue, usize), Stop>((v, q as usize))
}

proof fn lemma_operand(x: Expr, pos: int, v: i64)
    requires
        x.tokens.len() <= usize::MAX,
        stands(x, pos, word_tokens(Word::Number(v))),
    ensures
        yields(expr::unary(x, pos), v, pos + word_tokens(Word::Number(v)).len()),
        yields(expr::binary(x, pos, 10), v, pos + word_tokens(Word::Number(v)).len()),
{
    assert(x.tokens[pos + 0].token == Ok::<Token, TokenError>(word_tokens(Word::Number(v))[0]));
    if i64::MIN < v < 0 {
        assert(x.tokens[pos + 1].token == Ok::<Token, TokenError>(Token::Number((-v) as i64)));
        assert(yields(expr::primary(x, pos + 1), (-v) as i64, pos + 2));
        assert(yields(expr::unary(x, pos + 1), (-v) as i64, pos + 2));
    } else {
        assert(yields(expr::primary(x, pos), v, pos + 1));
    }
}

/// A value passes the levels at which no operator follows it.
proof fn lemma_climb(x: Expr, pos: int, lo: int, hi: int, v: ExprValue, q: int)
    requires
        0 <= pos < q <= x.tokens.len() <= usize::MAX,
        lo <= hi <= 10,
        yields(expr::binary(x, pos, hi), v, q),
        forall|l: int| lo <= l < hi ==> #[trigger] quiet(x, q, l),
    ensures
        yields(expr::binary(x, pos, lo), v, q),
    decreases hi - lo,
{
    if lo < hi {
        lemma_climb(x, pos, lo + 1, hi, v, q);
        assert(quiet(x, q, lo));
        assert(yields(expr::operands(x, q, lo, v), v, q));
    }
}

/// A fault passes all levels.
proof fn lemma_fault_climbs(x: Expr, pos: int, lo: int, hi: int)
    requires
        lo <= hi <= 10,
        expr::binary(x, pos, hi) == Err::<(ExprValue, usize), Stop>(Stop::Fault),
    ensures
        expr::binary(x, pos, lo) == Err::<(ExprValue, usize), Stop>(Stop::Fault),
    decreases hi - lo,
{
    if lo < hi {
        lemma_fault_climbs(x, pos, lo + 1, hi);
    }
}

spec fn applied(op: Op, a: ExprValue, b: ExprValue) -> Option<ExprValue> {
    expr::binary_value(op_token(op), a, b)
}

spec fn level_of(op: Op) -> int {
    expr::op_level(op_token(op))
}

proof fn lemma_ranks(op: Op)
    ensures
        op_rank(op) == level_of(op) + 1,
        0 <= level_of(op) < 10,
{
}

/// What follows a value on the level of an operator.
proof fn lemma_apply(x: Expr, op: Op, a: ExprValue, q: int, b: ExprValue, r: int)
    requires
        0 <= q < r <= x.tokens.len() <= usize::MAX,
        x.tokens[q].token == Ok::<Token, TokenError>(op_token(op)),
        q + 1 < r,
        yields(expr::binary(x, q + 1, level_of(op) + 1), b, r),
    ensures
        applied(op, a, b) is None ==> expr::operands(x, q, level_of(op), a) == Err::<
            (ExprValue, usize),
            Stop,
        >(Stop::Fault),
        applied(op, a, b) matches Some(v) ==> expr::operands(x, q, level_of(op), a)
            == expr::operands(x, r, level_of(op), v),
        applied(op, a, b) is Some && quiet(x, r, level_of(op)) ==> yields(
            expr::operands(x, q, level_of(op), a),
            applied(op, a, b)->0,
            r,
        ),
{
}

/// Two operands from `pos` to `r`, at whose end no operator of a tighter or the same level stands.
proof fn lemma_pair(x: Expr, pos: int, op: Op, a: i64, b: i64, lo: int, r: int)
    requires
        x.tokens.len() <= usize::MAX,
        stands(
            x,
            pos,
            word_tokens(Word::Number(a)) + seq![op_token(op)] + word_tokens(Word::Number(b)),
        ),
        r == pos + word_tokens(Word::Number(a)).len() + 1 + word_tokens(Word::Number(b)).len(),
        0 <= lo <= level_of(op),
        forall|l: int| lo <= l < 10 ==> #[trigger] quiet(x, r, l),
    ensures
        applied(op, a, b) matches Some(v) ==> yields(expr::binary(x, pos, lo), v, r),
        applied(op, a, b) is None ==> expr::binary(x, pos, lo) == Err::<(ExprValue, usize), Stop>(
            Stop::Fault,
        ),
{
    let want = word_tokens(Word::Number(a)) + seq![op_token(op)] + word_tokens(Word::Number(b));
    let q = pos + word_tokens(Word::Number(a)).len();
    let l = level_of(op);
    lemma_part(x, pos, word_tokens(Word::Number(a)), seq![op_token(op)] + word_tokens(Word::Number(b)));
    lemma_part(x, q, seq![op_token(op)], word_tokens(Word::Number(b)));
    assert(want =~= word_tokens(Word::Number(a)) + (seq![op_token(op)] + word_tokens(
        Word::Number(b),
    )));
    lemma_operand(x, pos, a);
    lemma_operand(x, q + 1, b);
    assert(x.tokens[q + 0].token == Ok::<Token, TokenError>(seq![op_token(op)][0]));
    lemma_climb(x, pos, l + 1, 10, a, q);
    lemma_climb(x, q + 1, l + 1, 10, b, r);
    lemma_apply(x, op, a, q, b, r);
    assert(quiet(x, r, l));
    if applied(op, a, b) is Some {
        let v = applied(op, a, b)->0;
        assert(yields(expr::binary(x, pos, l), v, r));
        lemma_climb(x, pos, lo, l, v, r);
    } else {
        lemma_fault_climbs(x, pos, lo, l);
    }
}

proof fn lemma_part(x: Expr, pos: int, a: Seq<Token>, b: Seq<Token>)
    requires
        stands(x, pos, a + b),
    ensures
        stands(x, pos, a),
        stands(x, pos + a.len(), b),
{
    let all = a + b;
    assert forall|k: int| 0 <= k < a.len() implies (#[trigger] x.tokens[pos + k]).token == Ok::<
        Token,
        TokenError,
    >(a[k]) by {
        assert(all[k] == a[k]);
    }
    assert forall|k: int| 0 <= k < b.len() implies (#[trigger] x.tokens[pos + a.len() + k]).token
        == Ok::<Token, TokenError>(b[k]) by {
        assert(x.tokens[pos + (a.len() + k)].token == Ok::<Token, TokenError>(all[a.len() + k]));
    }
}

/// What a pair of numbers comes to.
spec fn pair_result(op: Op, a: ExprValue, b: ExprValue) -> Option<
    Result<ExprValue, ExprDiagnostic<Seq<u8>>>,
> {
    match applied(op, a, b) {
        Some(v) => Some(Ok(v)),
        None => None,
    }
}

proof fn lemma_token_count(ws: Seq<Word>)
    ensures
        words_tokens(ws).len() <= 2 * ws.len(),
    decreases ws.len(),
{
    if ws.len() > 0 {
        lemma_token_count(ws.subrange(1, ws.len() as int));
    }
}

/// The tokens of a text of words.
proof fn lemma_expr(ws: Seq<Word>, names: Set<Seq<u8>>)
    requires
        0 < ws.len() <= 16,
        words_text(ws).len() <= usize::MAX,
    ensures
        words_expr(ws, names).tokens.len() == words_tokens(ws).len(),
        words_expr(ws, names).tokens.len() <= usize::MAX,
        stands(words_expr(ws, names), 0, words_tokens(ws)),
{
    let x = words_expr(ws, names);
    let b = words_text(ws);
    assert(b.subrange(0, b.len() as int) =~= b);
    lemma_words(b, 0, ws);
    lemma_token_count(ws);
    assert forall|k: int| 0 <= k < words_tokens(ws).len() implies (#[trigger] x.tokens[0 + k]).token
        == Ok::<Token, TokenError>(words_tokens(ws)[k]) by {
        assert(x.tokens[k].token == Ok::<Token, TokenError>(words_tokens(ws)[k]));
    }
}

spec fn num(v: i64) -> Seq<Token> {
    word_tokens(Word::Number(v))
}

/// The words of two numbers around an operator.
pub open spec fn pair_words(a: i64, op: Op, b: i64) -> Seq<Word> {
    seq![Word::Number(a), Word::Op(op), Word::Number(b)]
}

/// The words of three numbers around two operators.
pub open spec fn triple_words(a: i64, op1: Op, b: i64, op2: Op, c: i64) -> Seq<Word> {
    seq![Word::Number(a), Word::Op(op1), Word::Number(b), Word::Op(op2), Word::Number(c)]
}

/// `( a op1 b ) op2 c`
pub open spec fn grouped_left_words(a: i64, op1: Op, b: i64, op2: Op, c: i64) -> Seq<Word> {
    seq![
        Word::Open,
        Word::Number(a),
        Word::Op(op1),
        Word::Number(b),
        Word::Close,
        Word::Op(op2),
        Word::Number(c),
    ]
}

/// `a op1 ( b op2 c )`
pub open spec fn grouped_right_words(a: i64, op1: Op, b: i64, op2: Op, c: i64) -> Seq<Word> {
    seq![
        Word::Number(a),
        Word::Op(op1),
        Word::Open,
        Word::Number(b),
        Word::Op(op2),
        Word::Number(c),
        Word::Close,
    ]
}

proof fn lemma_words_step(w: Word, rest: Seq<Word>)
    ensures
        words_tokens(seq![w] + rest) == word_tokens(w) + words_tokens(rest),
{
    let ws = seq![w] + rest;
    assert(ws.subrange(1, ws.len() as int) =~= rest);
}

proof fn lemma_pair_tokens(a: i64, op: Op, b: i64)
    ensures
        words_tokens(pair_words(a, op, b)) == num(a) + seq![op_token(op)] + num(b),
{
    let n = Seq::<Word>::empty();
    lemma_words_step(Word::Number(b), n);
    lemma_words_step(Word::Op(op), seq![Word::Number(b)] + n);
    lemma_words_step(Word::Number(a), seq![Word::Op(op)] + (seq![Word::Number(b)] + n));
    assert(pair_words(a, op, b) =~= seq![Word::Number(a)] + (seq![Word::Op(op)] + (seq![
        Word::Number(b),
    ] + n)));
    assert(words_tokens(n) =~= Seq::<Token>::empty());
    assert(words_tokens(pair_words(a, op, b)) =~= num(a) + seq![op_token(op)] + num(b));
}

proof fn lemma_expr_end(x: Expr, v: ExprValue, names: Set<Seq<u8>>)
    requires
        0 < x.tokens.len() <= usize::MAX,
        yields(expr::binary(x, 0, 0), v, x.tokens.len() as int),
    ensures
        expr::expr_value(x) == Ok::<ExprValue, Stop>(v),
{
}

proof fn lemma_two(a: i64, op: Op, b: i64, offsets: Seq<usize>, names: Set<Seq<u8>>)
    requires
        words_text(pair_words(a, op, b)).len() <= usize::MAX,
    ensures
        words_value(pair_words(a, op, b), offsets, names) == pair_result(op, a, b),
{
    let ws = pair_words(a, op, b);
    let x = words_expr(ws, names);
    lemma_expr(ws, names);
    lemma_pair_tokens(a, op, b);
    lemma_ranks(op);
    let r = x.tokens.len() as int;
    assert forall|l: int| 0 <= l < 10 implies #[trigger] quiet(x, r, l) by {}
    lemma_pair(x, 0, op, a, b, 0, r);
    if applied(op, a, b) is Some {
        lemma_expr_end(x, applied(op, a, b)->0, names);
    }
}

spec fn fault() -> Result<(ExprValue, usize), Stop> {
    Err(Stop::Fault)
}

spec fn pair_outcome(op: Op, a: ExprValue, b: ExprValue) -> Result<ExprValue, Stop> {
    match applied(op, a, b) {
        Some(v) => Ok(v),
        None => Err(Stop::Fault),
    }
}

/// An operator that is applied last, to what stands before and behind it.
proof fn lemma_last(x: Expr, op: Op, a: ExprValue, q: int, b: ExprValue)
    requires
        0 < q,
        q + 1 < x.tokens.len() <= usize::MAX,
        x.tokens[q].token == Ok::<Token, TokenError>(op_token(op)),
        yields(expr::binary(x, 0, level_of(op) + 1), a, q),
        yields(expr::binary(x, q + 1, level_of(op) + 1), b, x.tokens.len() as int),
    ensures
        expr::expr_value(x) == pair_outcome(op, a, b),
{
    let l = level_of(op);
    let end = x.tokens.len() as int;
    lemma_ranks(op);
    lemma_apply(x, op, a, q, b, end);
    assert(quiet(x, end, l));
    if applied(op, a, b) is Some {
        let v = applied(op, a, b)->0;
        assert(yields(expr::binary(x, 0, l), v, end));
        assert forall|k: int| 0 <= k < l implies #[trigger] quiet(x, end, k) by {}
        lemma_climb(x, 0, 0, l, v, end);
    } else {
        lemma_fault_climbs(x, 0, 0, l);
    }
}

/// A fault before or behind the operator that is applied last.
proof fn lemma_last_fault(x: Expr, op: Op, a: ExprValue, q: int)
    requires
        0 < q,
        q + 1 < x.tokens.len() <= usize::MAX,
        x.tokens[q].token == Ok::<Token, TokenError>(op_token(op)),
        expr::binary(x, 0, level_of(op) + 1) == fault() || (yields(
            expr::binary(x, 0, level_of(op) + 1),
            a,
            q,
        ) && expr::binary(x, q + 1, level_of(op) + 1) == fault()),
    ensures
        expr::expr_value(x) == Err::<ExprValue, Stop>(Stop::Fault),
{
    let l = level_of(op);
    lemma_ranks(op);
    if expr::binary(x, 0, l + 1) != fault() {
        assert(expr::binary(x, q + 1, l + 1) == fault());
        assert(expr::operands(x, q, l, a) == fault());
    }
    assert(expr::binary(x, 0, l) == fault());
    lemma_fault_climbs(x, 0, 0, l);
}

proof fn lemma_triple_tokens(a: i64, op1: Op, b: i64, op2: Op, c: i64)
    ensures
        words_tokens(triple_words(a, op1, b, op2, c)) == num(a) + seq![op_token(op1)] + num(b)
            + seq![op_token(op2)] + num(c),
{
    lemma_pair_tokens(b, op2, c);
    let rest = pair_words(b, op2, c);
    lemma_words_step(Word::Op(op1), rest);
    lemma_words_step(Word::Number(a), seq![Word::Op(op1)] + rest);
    assert(triple_words(a, op1, b, op2, c) =~= seq![Word::Number(a)] + (seq![Word::Op(op1)]
        + rest));
    assert(words_tokens(triple_words(a, op1, b, op2, c)) =~= num(a) + seq![op_token(op1)] + num(b)
        + seq![op_token(op2)] + num(c));
}

/// Where the parts of three numbers around two operators stand.
proof fn lemma_triple_stands(x: Expr, pos: int, a: i64, op1: Op, b: i64, op2: Op, c: i64)
    requires
        stands(
            x,
            pos,
            num(a) + seq![op_token(op1)] + num(b) + seq![op_token(op2)] + num(c),
        ),
    ensures
        stands(x, pos, num(a)),
        stands(x, pos, num(a) + seq![op_token(op1)] + num(b)),
        stands(x, pos + num(a).len() + 1, num(b)),
        stands(x, pos + num(a).len() + 1, num(b) + seq![op_token(op2)] + num(c)),
        stands(x, pos + num(a).len() + 1 + num(b).len() + 1, num(c)),
        x.tokens[pos + num(a).len()].token == Ok::<Token, TokenError>(op_token(op1)),
        x.tokens[pos + num(a).len() + 1 + num(b).len()].token == Ok::<Token, TokenError>(
            op_token(op2),
        ),
{
    let all = num(a) + seq![op_token(op1)] + num(b) + seq![op_token(op2)] + num(c);
    let left = num(a) + seq![op_token(op1)] + num(b);
    let right = num(b) + seq![op_token(op2)] + num(c);
    assert(all =~= left + (seq![op_token(op2)] + num(c)));
    lemma_part(x, pos, left, seq![op_token(op2)] + num(c));
    lemma_part(x, pos + left.len(), seq![op_token(op2)], num(c));
    assert(left =~= num(a) + (seq![op_token(op1)] + num(b)));
    lemma_part(x, pos, num(a), seq![op_token(op1)] + num(b));
    lemma_part(x, pos + num(a).len(), seq![op_token(op1)], num(b));
    assert(all =~= (num(a) + seq![op_token(op1)]) + right);
    lemma_part(x, pos, num(a) + seq![op_token(op1)], right);
    assert(x.tokens[pos + num(a).len() + 0].token == Ok::<Token, TokenError>(
        seq![op_token(op1)][0],
    ));
    assert(x.tokens[pos + left.len() + 0].token == Ok::<Token, TokenError>(
        seq![op_token(op2)][0],
    ));
}

/// Three numbers around two operators: the first operator is applied first where it binds at
/// least as tightly.
#[verifier::spinoff_prover]
proof fn lemma_three(a: i64, op1: Op, b: i64, op2: Op, c: i64, names: Set<Seq<u8>>)
    requires
        words_text(triple_words(a, op1, b, op2, c)).len() <= usize::MAX,
    ensures
        ({
            let x = words_expr(triple_words(a, op1, b, op2, c), names);
            &&& op_rank(op1) >= op_rank(op2) ==> expr::expr_value(x) == match applied(op1, a, b) {
                Some(m) => pair_outcome(op2, m, c),
                None => Err(Stop::Fault),
            }
            &&& op_rank(op1) < op_rank(op2) ==> expr::expr_value(x) == match applied(op2, b, c) {
                Some(m) => pair_outcome(op1, a, m),
                None => Err(Stop::Fault),
            }
        }),
{
    let ws = triple_words(a, op1, b, op2, c);
    let x = words_expr(ws, names);
    lemma_expr(ws, names);
    lemma_triple_tokens(a, op1, b, op2, c);
    lemma_triple_stands(x, 0, a, op1, b, op2, c);
    lemma_ranks(op1);
    lemma_ranks(op2);
    let q = num(a).len() as int;
    let r = q + 1 + num(b).len();
    let end = x.tokens.len() as int;
    assert(end == r + 1 + num(c).len());
    let l1 = level_of(op1);
    let l2 = level_of(op2);
    lemma_operand(x, 0, a);
    lemma_operand(x, q + 1, b);
    lemma_operand(x, r + 1, c);
    assert forall|l: int| 0 <= l < 10 implies #[trigger] quiet(x, end, l) by {}
    if l1 > l2 {
        assert forall|l: int| l2 + 1 <= l < 10 implies #[trigger] quiet(x, r, l) by {}
        lemma_pair(x, 0, op1, a, b, l2 + 1, r);
        lemma_climb(x, r + 1, l2 + 1, 10, c, end);
        if applied(op1, a, b) is Some {
            lemma_last(x, op2, applied(op1, a, b)->0, r, c);
        } else {
            lemma_last_fault(x, op2, 0, r);
        }
    } else if l1 == l2 {
        assert forall|l: int| l1 + 1 <= l < 10 implies #[trigger] quiet(x, q, l) by {}
        assert forall|l: int| l1 + 1 <= l < 10 implies #[trigger] quiet(x, r, l) by {}
        lemma_climb(x, 0, l1 + 1, 10, a, q);
        lemma_climb(x, q + 1, l1 + 1, 10, b, r);
        lemma_climb(x, r + 1, l1 + 1, 10, c, end);
        lemma_apply(x, op1, a, q, b, r);
        if applied(op1, a, b) is Some {
            let m = applied(op1, a, b)->0;
            lemma_apply(x, op2, m, r, c, end);
            assert(quiet(x, end, l1));
            if applied(op2, m, c) is Some {
                let v = applied(op2, m, c)->0;
                assert(yields(expr::binary(x, 0, l1), v, end));
                lemma_climb(x, 0, 0, l1, v, end);
            } else {
                assert(expr::binary(x, 0, l1) == fault());
                lemma_fault_climbs(x, 0, 0, l1);
            }
        } else {
            assert(expr::binary(x, 0, l1) == fault());
            lemma_fault_climbs(x, 0, 0, l1);
        }
    } else {
        assert forall|l: int| l1 + 1 <= l < 10 implies #[trigger] quiet(x, q, l) by {}
        lemma_climb(x, 0, l1 + 1, 10, a, q);
        lemma_pair(x, q + 1, op2, b, c, l1 + 1, end);
        if applied(op2, b, c) is Some {
            lemma_last(x, op1, a, q, applied(op2, b, c)->0);
        } else {
            lemma_last_fault(x, op1, a, q);
        }
    }
}

// ---------------------------------------------------------------------------------------------
// Laws

/// The text of a number, an operator and a number has a value exactly where the operator has one
/// on the two integers, and that value is the one the operator has there.
pub proof fn law_operator(a: i64, op: Op, b: i64, offsets: Seq<usize>, names: Set<Seq<u8>>)
    requires
        words_text(pair_words(a, op, b)).len() <= usize::MAX,
    ensures
        has_value(op, a as int, b as int) <==> words_value(pair_words(a, op, b), offsets, names)
            is Some,
        words_value(pair_words(a, op, b), offsets, names) matches Some(r) ==> r is Ok && is_value(
            op,
            a as int,
            b as int,
            r->Ok_0 as int,
        ),
{
    lemma_two(a, op, b, offsets, names);
    lemma_value(op, a, b);
}

/// `a >= b` is 1 where `a` is at least `b` and 0 elsewhere: what `b <= a` is, and the opposite of
/// what `a < b` and `b > a` are.
pub proof fn law_at_least(a: i64, b: i64, offsets: Seq<usize>, names: Set<Seq<u8>>)
    requires
        words_text(pair_words(a, Op::GreaterOrEqual, b)).len() <= usize::MAX,
        words_text(pair_words(b, Op::LessOrEqual, a)).len() <= usize::MAX,
        words_text(pair_words(a, Op::Less, b)).len() <= usize::MAX,
        words_text(pair_words(b, Op::Greater, a)).len() <= usize::MAX,
    ensures
        words_value(pair_words(a, Op::GreaterOrEqual, b), offsets, names) == Some(
            Ok::<ExprValue, ExprDiagnostic<Seq<u8>>>(
                if a >= b {
                    1
                } else {
                    0
                },
            ),
        ),
        words_value(pair_words(b, Op::LessOrEqual, a), offsets, names) == words_value(
            pair_words(a, Op::GreaterOrEqual, b),
            offsets,
            names,
        ),
        words_value(pair_words(a, Op::Less, b), offsets, names) == Some(
            Ok::<ExprValue, ExprDiagnostic<Seq<u8>>>(
                if a >= b {
                    0
                } else {
                    1
                },
            ),
        ),
        words_value(pair_words(b, Op::Greater, a), offsets, names) == words_value(
            pair_words(a, Op::Less, b),
            offsets,
            names,
        ),
{
    law_operator(a, Op::GreaterOrEqual, b, offsets, names);
    law_operator(b, Op::LessOrEqual, a, offsets, names);
    law_operator(a, Op::Less, b, offsets, names);
    law_operator(b, Op::Greater, a, offsets, names);
}

/// Of two operators, the one that binds tighter is applied first, and of two that bind alike the
/// one to the left. An operation without a value leaves the whole without one.
pub proof fn law_precedence(
    a: i64,
    op1: Op,
    b: i64,
    op2: Op,
    c: i64,
    m: i64,
    offsets: Seq<usize>,
    names: Set<Seq<u8>>,
)
    requires
        words_text(triple_words(a, op1, b, op2, c)).len() <= usize::MAX,
        words_text(pair_words(a, op1, b)).len() <= usize::MAX,
        words_text(pair_words(b, op2, c)).len() <= usize::MAX,
        words_text(pair_words(m, op2, c)).len() <= usize::MAX,
        words_text(pair_words(a, op1, m)).len() <= usize::MAX,
    ensures
        op_rank(op1) >= op_rank(op2) ==> {
            let first = words_value(pair_words(a, op1, b), offsets, names);
            let whole = words_value(triple_words(a, op1, b, op2, c), offsets, names);
            &&& first is None ==> whole is None
            &&& first == Some(Ok::<ExprValue, ExprDiagnostic<Seq<u8>>>(m)) ==> whole == words_value(
                pair_words(m, op2, c),
                offsets,
                names,
            )
        },
        op_rank(op1) < op_rank(op2) ==> {
            let first = words_value(pair_words(b, op2, c), offsets, names);
            let whole = words_value(triple_words(a, op1, b, op2, c), offsets, names);
            &&& first is None ==> whole is None
            &&& first == Some(Ok::<ExprValue, ExprDiagnostic<Seq<u8>>>(m)) ==> whole == words_value(
                pair_words(a, op1, m),
                offsets,
                names,
            )
        },
{
    lemma_three(a, op1, b, op2, c, names);
    lemma_two(a, op1, b, offsets, names);
    lemma_two(b, op2, c, offsets, names);
    lemma_two(m, op2, c, offsets, names);
    lemma_two(a, op1, m, offsets, names);
}

proof fn lemma_group(x: Expr, pos: int, op: Op, a: i64, b: i64)
    requires
        x.tokens.len() <= usize::MAX,
        stands(
            x,
            pos,
            seq![Token::LeftParenthesis] + (num(a) + seq![op_token(op)] + num(b)) + seq![
                Token::RightParenthesis,
            ],
        ),
    ensures
        applied(op, a, b) matches Some(v) ==> yields(
            expr::binary(x, pos, 10),
            v,
            pos + num(a).len() + num(b).len() + 3,
        ),
        applied(op, a, b) is None ==> expr::binary(x, pos, 10) == fault(),
{
    let inner = num(a) + seq![op_token(op)] + num(b);
    let r = pos + 1 + inner.len();
    lemma_part(x, pos, seq![Token::LeftParenthesis] + inner, seq![Token::RightParenthesis]);
    lemma_part(x, pos, seq![Token::LeftParenthesis], inner);
    assert(x.tokens[pos + 0].token == Ok::<Token, TokenError>(seq![Token::LeftParenthesis][0]));
    assert(x.tokens[r + 0].token == Ok::<Token, TokenError>(seq![Token::RightParenthesis][0]));
    lemma_ranks(op);
    assert forall|l: int| 0 <= l < 10 implies #[trigger] quiet(x, r, l) by {}
    lemma_pair(x, pos + 1, op, a, b, 0, r);
    if applied(op, a, b) is Some {
        assert(yields(expr::primary(x, pos), applied(op, a, b)->0, r + 1));
    } else {
        assert(expr::primary(x, pos) == fault());
    }
    assert(expr::unary(x, pos) == expr::primary(x, pos));
}

/// What stands in parentheses is worked out first, on either side of an operator.
pub proof fn law_parentheses(
    a: i64,
    op1: Op,
    b: i64,
    op2: Op,
    c: i64,
    m: i64,
    offsets: Seq<usize>,
    names: Set<Seq<u8>>,
)
    requires
        words_text(grouped_left_words(a, op1, b, op2, c)).len() <= usize::MAX,
        words_text(grouped_right_words(a, op1, b, op2, c)).len() <= usize::MAX,
        words_text(pair_words(a, op1, b)).len() <= usize::MAX,
        words_text(pair_words(b, op2, c)).len() <= usize::MAX,
        words_text(pair_words(m, op2, c)).len() <= usize::MAX,
        words_text(pair_words(a, op1, m)).len() <= usize::MAX,
    ensures
        ({
            let first = words_value(pair_words(a, op1, b), offsets, names);
            let whole = words_value(grouped_left_words(a, op1, b, op2, c), offsets, names);
            &&& first is None ==> whole is None
            &&& first == Some(Ok::<ExprValue, ExprDiagnostic<Seq<u8>>>(m)) ==> whole == words_value(
                pair_words(m, op2, c),
                offsets,
                names,
            )
        }),
        ({
            let first = words_value(pair_words(b, op2, c), offsets, names);
            let whole = words_value(grouped_right_words(a, op1, b, op2, c), offsets, names);
            &&& first is None ==> whole is None
            &&& first == Some(Ok::<ExprValue, ExprDiagnostic<Seq<u8>>>(m)) ==> whole == words_value(
                pair_words(a, op1, m),
                offsets,
                names,
            )
        }),
{
    lemma_two(a, op1, b, offsets, names);
    lemma_two(b, op2, c, offsets, names);
    lemma_two(m, op2, c, offsets, names);
    lemma_two(a, op1, m, offsets, names);
    lemma_grouped_left(a, op1, b, op2, c, names);
    lemma_grouped_right(a, op1, b, op2, c, names);
}

#[verifier::spinoff_prover]
#[verifier::rlimit(80)]
proof fn lemma_grouped_left(a: i64, op1: Op, b: i64, op2: Op, c: i64, names: Set<Seq<u8>>)
    requires
        words_text(grouped_left_words(a, op1, b, op2, c)).len() <= usize::MAX,
    ensures
        expr::expr_value(words_expr(grouped_left_words(a, op1, b, op2, c), names)) == match applied(
            op1,
            a,
            b,
        ) {
            Some(m) => pair_outcome(op2, m, c),
            None => Err(Stop::Fault),
        },
{
    let ws = grouped_left_words(a, op1, b, op2, c);
    let x = words_expr(ws, names);
    lemma_expr(ws, names);
    let n = Seq::<Word>::empty();
    assert(words_tokens(n) =~= Seq::<Token>::empty());
    let w1 = seq![Word::Number(c)] + n;
    let w2 = seq![Word::Op(op2)] + w1;
    let w3 = seq![Word::Close] + w2;
    let w4 = seq![Word::Number(b)] + w3;
    let w5 = seq![Word::Op(op1)] + w4;
    let w6 = seq![Word::Number(a)] + w5;
    lemma_words_step(Word::Number(c), n);
    lemma_words_step(Word::Op(op2), w1);
    lemma_words_step(Word::Close, w2);
    lemma_words_step(Word::Number(b), w3);
    lemma_words_step(Word::Op(op1), w4);
    lemma_words_step(Word::Number(a), w5);
    lemma_words_step(Word::Open, w6);
    assert(ws =~= seq![Word::Open] + w6);
    let group = seq![Token::LeftParenthesis] + (num(a) + seq![op_token(op1)] + num(b)) + seq![
        Token::RightParenthesis,
    ];
    let rest = seq![op_token(op2)] + num(c);
    assert(words_tokens(ws) =~= group + rest);
    lemma_part(x, 0, group, rest);
    let r = group.len() as int;
    lemma_part(x, r, seq![op_token(op2)], num(c));
    assert(x.tokens[r + 0].token == Ok::<Token, TokenError>(seq![op_token(op2)][0]));
    lemma_group(x, 0, op1, a, b);
    lemma_operand(x, r + 1, c);
    lemma_ranks(op2);
    let l2 = level_of(op2);
    let end = x.tokens.len() as int;
    assert forall|l: int| 0 <= l < 10 implies #[trigger] quiet(x, end, l) by {}
    assert forall|l: int| l2 + 1 <= l < 10 implies #[trigger] quiet(x, r, l) by {}
    lemma_climb(x, r + 1, l2 + 1, 10, c, end);
    if applied(op1, a, b) is Some {
        let m = applied(op1, a, b)->0;
        lemma_climb(x, 0, l2 + 1, 10, m, r);
        lemma_last(x, op2, m, r, c);
    } else {
        lemma_fault_climbs(x, 0, l2 + 1, 10);
        lemma_last_fault(x, op2, 0, r);
    }
}

#[verifier::spinoff_prover]
#[verifier::rlimit(80)]
proof fn lemma_grouped_right(a: i64, op1: Op, b: i64, op2: Op, c: i64, names: Set<Seq<u8>>)
    requires
        words_text(grouped_right_words(a, op1, b, op2, c)).len() <= usize::MAX,
    ensures
        expr::expr_value(words_expr(grouped_right_words(a, op1, b, op2, c), names))
            == match applied(op2, b, c) {
            Some(m) => pair_outcome(op1, a, m),
            None => Err(Stop::Fault),
        },
{
    let ws = grouped_right_words(a, op1, b, op2, c);
    let x = words_expr(ws, names);
    lemma_expr(ws, names);
    let n = Seq::<Word>::empty();
    assert(words_tokens(n) =~= Seq::<Token>::empty());
    let w1 = seq![Word::Close] + n;
    let w2 = seq![Word::Number(c)] + w1;
    let w3 = seq![Word::Op(op2)] + w2;
    let w4 = seq![Word::Number(b)] + w3;
    let w5 = seq![Word::Open] + w4;
    let w6 = seq![Word::Op(op1)] + w5;
    lemma_words_step(Word::Close, n);
    lemma_words_step(Word::Number(c), w1);
    lemma_words_step(Word::Op(op2), w2);
    lemma_words_step(Word::Number(b), w3);
    lemma_words_step(Word::Open, w4);
    lemma_words_step(Word::Op(op1), w5);
    lemma_words_step(Word::Number(a), w6);
    assert(ws =~= seq![Word::Number(a)] + w6);
    let group = seq![Token::LeftParenthesis] + (num(b) + seq![op_token(op2)] + num(c)) + seq![
        Token::RightParenthesis,
    ];
    let rest = seq![op_token(op1)] + group;
    assert(words_tokens(ws) =~= num(a) + rest);
    lemma_part(x, 0, num(a), rest);
    let q = num(a).len() as int;
    lemma_part(x, q, seq![op_token(op1)], group);
    assert(x.tokens[q + 0].token == Ok::<Token, TokenError>(seq![op_token(op1)][0]));
    lemma_operand(x, 0, a);
    lemma_group(x, q + 1, op2, b, c);
    lemma_ranks(op1);
    let l1 = level_of(op1);
    let end = x.tokens.len() as int;
    assert forall|l: int| 0 <= l < 10 implies #[trigger] quiet(x, end, l) by {}
    assert forall|l: int| l1 + 1 <= l < 10 implies #[trigger] quiet(x, q, l) by {}
    lemma_climb(x, 0, l1 + 1, 10, a, q);
    if applied(op2, b, c) is Some {
        let m = applied(op2, b, c)->0;
        lemma_climb(x, q + 1, l1 + 1, 10, m, end);
        lemma_last(x, op1, a, q, m);
    } else {
        lemma_fault_climbs(x, q + 1, l1 + 1, 10);
        lemma_last_fault(x, op1, a, q);
    }
}

/// The words that may stand in front of an operand.
pub open spec fn is_sign(w: Word) -> bool {
    w == Word::Op(Op::Plus) || w == Word::Op(Op::Minus) || w is BitNot || w is Not
}

/// The value of an operand behind such a word, on integers: `~` turns over all bits, so that the
/// sum with the operand is -1, and `!` is 1 for 0 alone. Only the negative of the least number is
/// missing.
pub open spec fn signed_value(w: Word, a: int) -> Option<int> {
    match w {
        Word::Op(Op::Minus) => if a == i64::MIN {
            None
        } else {
            Some(-a)
        },
        Word::BitNot => Some(-1 - a),
        Word::Not => Some(
            if a == 0 {
                1
            } else {
                0
            },
        ),
        _ => Some(a),
    }
}

/// An operand behind a sign has the sign's value, before any operator is applied to it.
#[verifier::spinoff_prover]
#[verifier::rlimit(40)]
pub proof fn law_signs(
    w: Word,
    a: i64,
    op: Op,
    b: i64,
    m: i64,
    offsets: Seq<usize>,
    names: Set<Seq<u8>>,
)
    requires
        is_sign(w),
        words_text(seq![w, Word::Number(a)]).len() <= usize::MAX,
        words_text(seq![w, Word::Number(a), Word::Op(op), Word::Number(b)]).len() <= usize::MAX,
        words_text(pair_words(m, op, b)).len() <= usize::MAX,
    ensures
        signed_value(w, a as int) is None ==> words_value(
            seq![w, Word::Number(a)],
            offsets,
            names,
        ) is None && words_value(
            seq![w, Word::Number(a), Word::Op(op), Word::Number(b)],
            offsets,
            names,
        ) is None,
        signed_value(w, a as int) == Some(m as int) ==> words_value(
            seq![w, Word::Number(a)],
            offsets,
            names,
        ) == Some(Ok::<ExprValue, ExprDiagnostic<Seq<u8>>>(m)) && words_value(
            seq![w, Word::Number(a), Word::Op(op), Word::Number(b)],
            offsets,
            names,
        ) == words_value(pair_words(m, op, b), offsets, names),
{
    assert(!a == -1 - a) by (bit_vector);
    let t = word_tokens(w)[0];
    let n = Seq::<Word>::empty();
    assert(words_tokens(n) =~= Seq::<Token>::empty());
    let w1 = seq![Word::Number(a)] + n;
    lemma_words_step(Word::Number(a), n);
    lemma_words_step(w, w1);
    let short = seq![w, Word::Number(a)];
    assert(short =~= seq![w] + w1);
    assert(words_tokens(short) =~= seq![t] + num(a));
    let xs = words_expr(short, names);
    lemma_expr(short, names);
    lemma_signed(xs, t, w, a);
    let end = xs.tokens.len() as int;
    assert forall|l: int| 0 <= l < 10 implies #[trigger] quiet(xs, end, l) by {}
    let long = seq![w, Word::Number(a), Word::Op(op), Word::Number(b)];
    let pair = pair_words(a, op, b);
    lemma_words_step(w, pair);
    lemma_pair_tokens(a, op, b);
    assert(long =~= seq![w] + pair);
    let xl = words_expr(long, names);
    lemma_expr(long, names);
    let rest = seq![op_token(op)] + num(b);
    assert(words_tokens(long) =~= (seq![t] + num(a)) + rest);
    lemma_part(xl, 0, seq![t] + num(a), rest);
    let q = 1 + num(a).len() as int;
    lemma_part(xl, q, seq![op_token(op)], num(b));
    assert(xl.tokens[q + 0].token == Ok::<Token, TokenError>(seq![op_token(op)][0]));
    lemma_signed(xl, t, w, a);
    lemma_operand(xl, q + 1, b);
    lemma_ranks(op);
    let l0 = level_of(op);
    let last = xl.tokens.len() as int;
    assert forall|l: int| 0 <= l < 10 implies #[trigger] quiet(xl, last, l) by {}
    assert forall|l: int| l0 + 1 <= l < 10 implies #[trigger] quiet(xl, q, l) by {}
    lemma_climb(xl, q + 1, l0 + 1, 10, b, last);
    if signed_value(w, a as int) is Some {
        let v = (signed_value(w, a as int)->0) as i64;
        lemma_climb(xs, 0, 0, 10, v, end);
        lemma_expr_end(xs, v, names);
        lemma_climb(xl, 0, l0 + 1, 10, v, q);
        lemma_last(xl, op, v, q, b);
        if v == m {
            lemma_two(m, op, b, offsets, names);
        }
    } else {
        lemma_fault_climbs(xs, 0, 0, 10);
        lemma_fault_climbs(xl, 0, l0 + 1, 10);
        lemma_last_fault(xl, op, 0, q);
    }
}

proof fn lemma_signed(x: Expr, t: Token, w: Word, a: i64)
    requires
        is_sign(w),
        t == word_tokens(w)[0],
        x.tokens.len() <= usize::MAX,
        stands(x, 0, seq![t] + num(a)),
    ensures
        signed_value(w, a as int) matches Some(v) ==> yields(
            expr::binary(x, 0, 10),
            v as i64,
            1 + num(a).len() as int,
        ),
        signed_value(w, a as int) is None ==> expr::binary(x, 0, 10) == fault(),
{
    assert(!a == -1 - a) by (bit_vector);
    lemma_part(x, 0, seq![t], num(a));
    assert(x.tokens[0int + 0].token == Ok::<Token, TokenError>(seq![t][0]));
    lemma_operand(x, 1, a);
    assert(expr::is_unary(t));
    let q = 1 + num(a).len() as int;
    assert(yields(expr::unary(x, 1), a, q));
    match signed_value(w, a as int) {
        Some(v) => {
            assert(expr::unary_value(t, a) == Some(v as i64));
            assert(yields(expr::unary(x, 0), v as i64, q));
        },
        None => {
            assert(expr::unary_value(t, a) is None);
            assert(expr::unary(x, 0) == fault());
        },
    }
}

/// The prefixes of a base: none for ten, `0x` or `0X`, `0b` or `0B`, and `0` for eight.
pub open spec fn is_prefix(p: Seq<u8>, radix: int) -> bool {
    ||| radix == 10 && p == Seq::<u8>::empty()
    ||| radix == 16 && (p == seq![0x30u8, 0x78u8] || p == seq![0x30u8, 0x58u8])
    ||| radix == 2 && (p == seq![0x30u8, 0x62u8] || p == seq![0x30u8, 0x42u8])
    ||| radix == 8 && p == seq![0x30u8]
}

/// A number is worth what its digits are in the base of its prefix, with digits beyond nine in
/// either case. One that a value cannot hold is an error.
#[verifier::spinoff_prover]
#[verifier::rlimit(60)]
pub proof fn law_literals(
    n: int,
    radix: int,
    upper: bool,
    p: Seq<u8>,
    offsets: Seq<usize>,
    names: Set<Seq<u8>>,
)
    requires
        0 <= n,
        is_prefix(p, radix),
        (p + digits_text(n, radix, upper)).len() <= usize::MAX,
    ensures
        n <= i64::MAX ==> expr::evaluated(p + digits_text(n, radix, upper), offsets, names) == Some(
            Ok::<ExprValue, ExprDiagnostic<Seq<u8>>>(n as i64),
        ),
        n > i64::MAX ==> expr::evaluated(p + digits_text(n, radix, upper), offsets, names) is Some
            && expr::evaluated(p + digits_text(n, radix, upper), offsets, names)->0
            == Err::<ExprValue, ExprDiagnostic<Seq<u8>>>(
            expr::diagnosed(
                p + digits_text(n, radix, upper),
                offsets,
                expr::EvalError::InvalidNumber {
                    cause: IntParseError::PosOverflow,
                    start: 0,
                    end: (p + digits_text(n, radix, upper)).len() as usize,
                },
            ),
        ),
{
    let t = digits_text(n, radix, upper);
    let b = p + t;
    let first = p.len() as int;
    let j = b.len() as int;
    assert(b.subrange(first, j) =~= t);
    lemma_number_token(b, 0, first, j, n, radix, upper);
    assert(b.subrange(j, j) =~= words_text(Seq::empty()));
    lemma_words(b, j, Seq::empty());
    let x = Expr { text: b, tokens: token::lexemes(b, 0), names };
    assert(token::lexemes(b, j) =~= Seq::empty());
    assert(x.tokens.len() == 1);
    if n <= i64::MAX {
        assert(x.tokens[0].token == Ok::<Token, TokenError>(Token::Number(n as i64)));
        assert(yields(expr::primary(x, 0), n as i64, 1));
        assert(yields(expr::unary(x, 0), n as i64, 1));
        assert forall|l: int| 0 <= l < 10 implies #[trigger] quiet(x, 1, l) by {}
        assert(yields(expr::binary(x, 0, 10), n as i64, 1));
        lemma_climb(x, 0, 0, 10, n as i64, 1);
    } else {
        lemma_error_climbs(x, 0, 0, 10);
    }
}

proof fn lemma_error_climbs(x: Expr, pos: int, lo: int, hi: int)
    requires
        0 <= pos < x.tokens.len(),
        x.tokens[pos].token is Err,
        lo <= hi <= 10,
    ensures
        expr::binary(x, pos, lo) == Err::<(ExprValue, usize), Stop>(
            expr::token_stop(x.tokens[pos], x.tokens[pos].token->Err_0),
        ),
    decreases 10 - lo,
{
    if lo < 10 {
        lemma_error_climbs(x, pos, lo + 1, 10);
    } else {
        assert(expr::unary(x, pos) == Err::<(ExprValue, usize), Stop>(
            expr::token_stop(x.tokens[pos], x.tokens[pos].token->Err_0),
        ));
    }
}

/// What is no expression is an error and has no value: a number behind a number, an operator
/// without an operand behind it, a parenthesis that is not closed, and one that was not opened.
#[verifier::spinoff_prover]
#[verifier::rlimit(60)]
pub proof fn law_no_expressions(
    a: i64,
    b: i64,
    op: Op,
    offsets: Seq<usize>,
    names: Set<Seq<u8>>,
)
    requires
        0 <= b,
        words_text(seq![Word::Number(a), Word::Number(b)]).len() <= usize::MAX,
        words_text(seq![Word::Number(a), Word::Op(op)]).len() <= usize::MAX,
        words_text(seq![Word::Open, Word::Number(a)]).len() <= usize::MAX,
        words_text(seq![Word::Close]).len() <= usize::MAX,
    ensures
        words_value(seq![Word::Number(a), Word::Number(b)], offsets, names) matches Some(r) && r
            is Err,
        words_value(seq![Word::Number(a), Word::Op(op)], offsets, names) matches Some(r) && r
            is Err,
        words_value(seq![Word::Open, Word::Number(a)], offsets, names) matches Some(r) && r is Err,
        words_value(seq![Word::Close], offsets, names) matches Some(r) && r is Err,
{
    let n = Seq::<Word>::empty();
    assert(words_tokens(n) =~= Seq::<Token>::empty());
    // a number behind a number
    let ws = seq![Word::Number(a), Word::Number(b)];
    lemma_words_step(Word::Number(b), n);
    lemma_words_step(Word::Number(a), seq![Word::Number(b)] + n);
    assert(ws =~= seq![Word::Number(a)] + (seq![Word::Number(b)] + n));
    let x = words_expr(ws, names);
    lemma_expr(ws, names);
    assert(words_tokens(ws) =~= num(a) + num(b));
    lemma_part(x, 0, num(a), num(b));
    let q = num(a).len() as int;
    assert(x.tokens[q + 0].token == Ok::<Token, TokenError>(num(b)[0]));
    lemma_operand(x, 0, a);
    assert forall|l: int| 0 <= l < 10 implies #[trigger] quiet(x, q, l) by {}
    lemma_climb(x, 0, 0, 10, a, q);
    // an operator without an operand
    let wo = seq![Word::Number(a), Word::Op(op)];
    lemma_words_step(Word::Op(op), n);
    lemma_words_step(Word::Number(a), seq![Word::Op(op)] + n);
    assert(wo =~= seq![Word::Number(a)] + (seq![Word::Op(op)] + n));
    let y = words_expr(wo, names);
    lemma_expr(wo, names);
    assert(words_tokens(wo) =~= num(a) + seq![op_token(op)]);
    lemma_part(y, 0, num(a), seq![op_token(op)]);
    assert(y.tokens[q + 0].token == Ok::<Token, TokenError>(seq![op_token(op)][0]));
    lemma_operand(y, 0, a);
    lemma_ranks(op);
    let l0 = level_of(op);
    assert forall|l: int| l0 + 1 <= l < 10 implies #[trigger] quiet(y, q, l) by {}
    lemma_climb(y, 0, l0 + 1, 10, a, q);
    lemma_eol(y, q + 1, l0 + 1);
    assert(expr::operands(y, q, l0, a) is Err && !(expr::operands(y, q, l0, a)->Err_0 is Fault));
    lemma_stop_climbs(y, 0, 0, l0);
    // a parenthesis that is not closed
    let wp = seq![Word::Open, Word::Number(a)];
    lemma_words_step(Word::Number(a), n);
    lemma_words_step(Word::Open, seq![Word::Number(a)] + n);
    assert(wp =~= seq![Word::Open] + (seq![Word::Number(a)] + n));
    let z = words_expr(wp, names);
    lemma_expr(wp, names);
    assert(words_tokens(wp) =~= seq![Token::LeftParenthesis] + num(a));
    lemma_part(z, 0, seq![Token::LeftParenthesis], num(a));
    assert(z.tokens[0int + 0].token == Ok::<Token, TokenError>(seq![Token::LeftParenthesis][0]));
    lemma_operand(z, 1, a);
    let e = z.tokens.len() as int;
    assert forall|l: int| 0 <= l < 10 implies #[trigger] quiet(z, e, l) by {}
    lemma_climb(z, 1, 0, 10, a, e);
    assert(expr::primary(z, 0) is Err && !(expr::primary(z, 0)->Err_0 is Fault));
    assert(expr::unary(z, 0) == expr::primary(z, 0));
    assert(expr::binary(z, 0, 10) == expr::unary(z, 0));
    lemma_stop_climbs(z, 0, 0, 10);
    // a parenthesis that was not opened
    let wc = seq![Word::Close];
    lemma_words_step(Word::Close, n);
    assert(wc =~= seq![Word::Close] + n);
    let c = words_expr(wc, names);
    lemma_expr(wc, names);
    assert(words_tokens(wc) =~= seq![Token::RightParenthesis]);
    assert(c.tokens[0int + 0].token == Ok::<Token, TokenError>(seq![Token::RightParenthesis][0]));
    assert(expr::primary(c, 0) is Err && !(expr::primary(c, 0)->Err_0 is Fault));
    assert(expr::unary(c, 0) == expr::primary(c, 0));
    assert(expr::binary(c, 0, 10) == expr::unary(c, 0));
    lemma_stop_climbs(c, 0, 0, 10);
}

/// Behind the last token there is no operand.
proof fn lemma_eol(x: Expr, pos: int, lo: int)
    requires
        pos >= x.tokens.len(),
        lo <= 10,
    ensures
        expr::binary(x, pos, lo) is Err,
        !(expr::binary(x, pos, lo)->Err_0 is Fault),
    decreases 10 - lo,
{
    if lo < 10 {
        lemma_eol(x, pos, lo + 1);
    } else {
        assert(expr::unary(x, pos) == expr::primary(x, pos));
    }
}

/// An error passes all levels.
proof fn lemma_stop_climbs(x: Expr, pos: int, lo: int, hi: int)
    requires
        lo <= hi <= 10,
        expr::binary(x, pos, hi) is Err,
        !(expr::binary(x, pos, hi)->Err_0 is Fault),
    ensures
        expr::binary(x, pos, lo) is Err,
        !(expr::binary(x, pos, lo)->Err_0 is Fault),
    decreases hi - lo,
{
    if lo < hi {
        lemma_stop_climbs(x, pos, lo + 1, hi);
    }
}

} // verus!
