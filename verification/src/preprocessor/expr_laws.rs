//! What holds of `#if` expressions.

use crate::preprocessor::expr;
use crate::preprocessor::expr::{EvalError, Expr, ExprDiagnostic, ExprValue, Stop};
use crate::preprocessor::token;
use crate::preprocessor::token::{IntParseError, Lexeme, Token, TokenError};
use crate::text;
use std::ops::Range;
use vstd::prelude::*;
use vstd::string::*;

verus! {

// ---------------------------------------------------------------------------------------------
// Errors mark something in the text

proof fn lemma_lexemes_within(b: Seq<u8>, i: int)
    requires
        0 <= i <= b.len() <= usize::MAX,
    ensures
        token::within(token::lexemes(b, i), b.len() as int),
    decreases b.len() - i,
{
    let len = b.len() as int;
    let k = text::skip_space(b, i, len);
    let all = token::lexemes(b, i);
    if i <= k < len {
        let t = token::lexeme_at(b, k);
        if k < t.end <= len {
            lemma_lexemes_within(b, t.end as int);
            let rest = token::lexemes(b, t.end as int);
            assert forall|n: int| 0 <= n < all.len() implies (#[trigger] all[n]).start
                < all[n].end <= len by {
                if n > 0 {
                    assert(all[n] == rest[n - 1]);
                } else {
                    assert(all[n] == t);
                    assert(t.start == k);
                }
            }
        }
    }
}

spec fn stops_before<T>(r: Result<T, Stop>, n: int) -> bool {
    r matches Err(Stop::Error(e)) ==> expr::starts_before(e, n)
}

proof fn lemma_binary_stops(x: Expr, pos: int, level: int, n: int)
    requires
        0 <= pos,
        token::within(x.tokens, n),
    ensures
        stops_before(expr::binary(x, pos, level), n),
    decreases
        x.tokens.len() - pos,
        if level >= 10 {
            3int
        } else {
            13 - level
        },
{
    if level >= 10 {
        lemma_unary_stops(x, pos, n);
    } else {
        lemma_binary_stops(x, pos, level + 1, n);
        match expr::binary(x, pos, level + 1) {
            Ok((v, q)) => {
                if pos < q <= x.tokens.len() {
                    lemma_operands_stop(x, q as int, level, v, n);
                }
            },
            Err(_) => {},
        }
    }
}

proof fn lemma_operands_stop(x: Expr, pos: int, level: int, value: ExprValue, n: int)
    requires
        0 <= pos,
        token::within(x.tokens, n),
    ensures
        stops_before(expr::operands(x, pos, level, value), n),
    decreases x.tokens.len() - pos, 0int,
{
    if pos < x.tokens.len() {
        match x.tokens[pos].token {
            Ok(t) => {
                if expr::op_level(t) == level {
                    lemma_binary_stops(x, pos + 1, level + 1, n);
                    match expr::binary(x, pos + 1, level + 1) {
                        Ok((right, q)) => {
                            if pos < q <= x.tokens.len() {
                                match expr::binary_value(t, value, right) {
                                    Some(v) => {
                                        lemma_operands_stop(x, q as int, level, v, n);
                                    },
                                    None => {},
                                }
                            }
                        },
                        Err(_) => {},
                    }
                }
            },
            Err(_) => {
                assert(x.tokens[pos].start < n);
            },
        }
    }
}

proof fn lemma_unary_stops(x: Expr, pos: int, n: int)
    requires
        0 <= pos,
        token::within(x.tokens, n),
    ensures
        stops_before(expr::unary(x, pos), n),
    decreases x.tokens.len() - pos, 2int,
{
    lemma_primary_stops(x, pos, n);
    if pos < x.tokens.len() {
        assert(x.tokens[pos].start < n);
        match x.tokens[pos].token {
            Ok(t) => {
                if expr::is_unary(t) {
                    lemma_unary_stops(x, pos + 1, n);
                }
            },
            Err(_) => {},
        }
    }
}

proof fn lemma_expect_stops(x: Expr, pos: int, want: Token, expected: &'static str, n: int)
    requires
        0 <= pos,
        token::within(x.tokens, n),
    ensures
        expr::expect_stop(x, pos, want, expected) matches Some(Stop::Error(e))
            ==> expr::starts_before(e, n),
{
    if pos < x.tokens.len() {
        assert(x.tokens[pos].start < n);
    }
}

proof fn lemma_primary_stops(x: Expr, pos: int, n: int)
    requires
        0 <= pos,
        token::within(x.tokens, n),
    ensures
        stops_before(expr::primary(x, pos), n),
    decreases x.tokens.len() - pos, 1int,
{
    if pos < x.tokens.len() {
        assert(x.tokens[pos].start < n);
        lemma_binary_stops(x, pos + 1, 0, n);
        match expr::binary(x, pos + 1, 0) {
            Ok((v, q)) => {
                lemma_expect_stops(
                    x,
                    q as int,
                    Token::RightParenthesis,
                    "end parenthesis after sub-expression",
                    n,
                );
            },
            Err(_) => {},
        }
        if pos + 1 < x.tokens.len() {
            assert(x.tokens[pos + 1].start < n);
        }
        lemma_expect_stops(x, pos + 2, Token::Identifier, "a macro name", n);
        lemma_expect_stops(
            x,
            pos + 3,
            Token::RightParenthesis,
            "end parenthesis after macro name",
            n,
        );
    }
}

/// Every error of an expression marks something that starts within its text: where there is a
/// place for each byte, it can be placed.
pub proof fn law_errors_can_be_placed(b: Seq<u8>, offsets: Seq<usize>, names: Set<Seq<u8>>)
    requires
        b.len() <= usize::MAX,
        offsets.len() >= b.len(),
    ensures
        expr::can_be_placed(b, offsets, names),
        expr::expr_value(Expr { text: b, tokens: token::lexemes(b, 0), names }) matches Err(
            Stop::Error(e),
        ) ==> expr::starts_before(e, b.len() as int),
{
    let x = Expr { text: b, tokens: token::lexemes(b, 0), names };
    lemma_lexemes_within(b, 0);
    lemma_binary_stops(x, 0, 0, b.len() as int);
    if x.tokens.len() > 0 {
        match expr::binary(x, 0, 0) {
            Ok((v, q)) => {
                if q < x.tokens.len() {
                    assert(x.tokens[q as int].start < b.len());
                }
            },
            Err(_) => {},
        }
    }
}

// ---------------------------------------------------------------------------------------------
// Places

pub open spec fn moved_range(at: Range<usize>, k: int) -> Range<usize> {
    Range { start: (at.start + k) as usize, end: (at.end + k) as usize }
}

/// A diagnostic with its place moved by `k`.
pub open spec fn moved(d: ExprDiagnostic<Seq<u8>>, k: int) -> ExprDiagnostic<Seq<u8>> {
    match d {
        ExprDiagnostic::UnknownToken { at } => ExprDiagnostic::UnknownToken {
            at: moved_range(at, k),
        },
        ExprDiagnostic::UnexpectedToken { expected, found, at } =>
            ExprDiagnostic::UnexpectedToken { expected, found, at: moved_range(at, k) },
        ExprDiagnostic::InvalidNumber { cause, at } => ExprDiagnostic::InvalidNumber {
            cause,
            at: moved_range(at, k),
        },
        ExprDiagnostic::UnexpectedTrailer { at } => ExprDiagnostic::UnexpectedTrailer {
            at: moved_range(at, k),
        },
        ExprDiagnostic::Eol { expected, at } => ExprDiagnostic::Eol {
            expected,
            at: (at + k) as usize,
        },
        ExprDiagnostic::UnknownFunction { function, at } => ExprDiagnostic::UnknownFunction {
            function,
            at: moved_range(at, k),
        },
    }
}

proof fn lemma_range_moves(
    offsets: Seq<usize>,
    shifted: Seq<usize>,
    k: int,
    start: usize,
    end: usize,
    len: int,
)
    requires
        0 <= k,
        shifted.len() == offsets.len(),
        forall|i: int| 0 <= i < offsets.len() ==> #[trigger] shifted[i] == offsets[i] + k,
        offsets.len() > 0 ==> shifted.last() < usize::MAX,
        start < offsets.len(),
    ensures
        expr::source_range(shifted, start, end, len) == moved_range(
            expr::source_range(offsets, start, end, len),
            k,
        ),
{
    assert(shifted[start as int] == offsets[start as int] + k);
    assert(shifted[offsets.len() - 1] == offsets[offsets.len() - 1] + k);
    if end < offsets.len() {
        assert(shifted[end as int] == offsets[end as int] + k);
    }
}

/// Where every byte of an expression comes from a place `k` further on, its value or its error is
/// the same, and only the place of the error is `k` further on. The place behind the last byte
/// has to be one, too.
pub proof fn law_offsets_shift(
    b: Seq<u8>,
    offsets: Seq<usize>,
    shifted: Seq<usize>,
    k: int,
    names: Set<Seq<u8>>,
)
    requires
        0 <= k,
        b.len() <= usize::MAX,
        offsets.len() == b.len(),
        shifted.len() == b.len(),
        forall|i: int| 0 <= i < offsets.len() ==> #[trigger] shifted[i] == offsets[i] + k,
        shifted.len() > 0 ==> shifted.last() < usize::MAX,
    ensures
        expr::evaluated(b, shifted, names) == (match expr::evaluated(b, offsets, names) {
            Some(Err(d)) => Some(Err::<ExprValue, ExprDiagnostic<Seq<u8>>>(moved(d, k))),
            r => r,
        }),
{
    let x = Expr { text: b, tokens: token::lexemes(b, 0), names };
    let len = b.len() as int;
    law_errors_can_be_placed(b, offsets, names);
    match expr::expr_value(x) {
        Err(Stop::Error(e)) => {
            assert(b.len() > 0) by {
                if b.len() == 0 {
                    assert(x.tokens.len() == 0);
                }
            }
            assert(shifted[len - 1] == offsets[len - 1] + k);
            match e {
                EvalError::UnknownToken { start, end } => {
                    lemma_range_moves(offsets, shifted, k, start, end, len);
                },
                EvalError::UnexpectedToken { expected, found, start, end } => {
                    lemma_range_moves(offsets, shifted, k, start, end, len);
                },
                EvalError::InvalidNumber { cause, start, end } => {
                    lemma_range_moves(offsets, shifted, k, start, end, len);
                },
                EvalError::UnexpectedTrailer { start, end } => {
                    lemma_range_moves(offsets, shifted, k, start, end, len);
                },
                EvalError::UnknownFunction { start, end } => {
                    lemma_range_moves(offsets, shifted, k, start, end, len);
                },
                EvalError::Eol { expected } => {},
            }
        },
        _ => {},
    }
}

// ---------------------------------------------------------------------------------------------
// Names

/// A name: a letter or an underscore, and letters, digits and underscores.
pub open spec fn is_name(name: Seq<u8>) -> bool {
    &&& name.len() > 0
    &&& text::is_name_start(name[0])
    &&& forall|k: int| 0 <= k < name.len() ==> text::is_name_byte(#[trigger] name[k])
}

/// An operand at the end of an expression is all that there is on each level.
proof fn lemma_operand_alone(x: Expr, pos: int, level: int, v: ExprValue)
    requires
        0 <= pos < x.tokens.len() <= usize::MAX,
        0 <= level <= 10,
        expr::unary(x, pos) == Ok::<(ExprValue, usize), Stop>((v, x.tokens.len() as usize)),
    ensures
        expr::binary(x, pos, level) == Ok::<(ExprValue, usize), Stop>(
            (v, x.tokens.len() as usize),
        ),
    decreases 10 - level,
{
    if level < 10 {
        lemma_operand_alone(x, pos, level + 1, v);
        assert(expr::operands(x, x.tokens.len() as int, level, v) == Ok::<
            (ExprValue, usize),
            Stop,
        >((v, x.tokens.len() as usize)));
    }
}

proof fn lemma_name_ends(b: Seq<u8>, i: int, j: int, end: int)
    requires
        0 <= i <= j <= end <= b.len(),
        forall|k: int| i <= k < j ==> text::is_name_byte(#[trigger] b[k]),
        j < end ==> !text::is_name_byte(b[j]),
    ensures
        text::skip_name(b, i, end) == j,
    decreases j - i,
{
    if i < j {
        assert(text::is_name_byte(b[i]));
        lemma_name_ends(b, i + 1, j, end);
    }
}

/// A name at `i` is one token.
proof fn lemma_name_token(b: Seq<u8>, i: int, j: int)
    requires
        0 <= i < j <= b.len() <= usize::MAX,
        text::is_name_start(b[i]),
        forall|k: int| i <= k < j ==> text::is_name_byte(#[trigger] b[k]),
        j < b.len() ==> !text::is_name_byte(b[j]),
    ensures
        token::lexemes(b, i) == seq![
            Lexeme {
                token: Ok::<Token, TokenError>(Token::Identifier),
                start: i as usize,
                end: j as usize,
            },
        ] + token::lexemes(b, j),
{
    lemma_name_ends(b, i, j, b.len() as int);
    assert(text::space_width(b, i, b.len() as int) == 0);
    assert(text::skip_space(b, i, b.len() as int) == i);
}

/// A name alone has the value 0, whether it is defined or not.
pub proof fn law_bare_name(name: Seq<u8>, offsets: Seq<usize>, names: Set<Seq<u8>>)
    requires
        is_name(name),
        name.len() <= usize::MAX,
    ensures
        expr::evaluated(name, offsets, names) == Some(
            Ok::<ExprValue, ExprDiagnostic<Seq<u8>>>(0),
        ),
{
    let n = name.len() as int;
    let x = Expr { text: name, tokens: token::lexemes(name, 0), names };
    lemma_name_token(name, 0, n);
    assert(token::lexemes(name, n) =~= Seq::empty());
    assert(x.tokens.len() == 1);
    assert(x.tokens[0].token == Ok::<Token, TokenError>(Token::Identifier));
    assert(expr::primary(x, 0) == Ok::<(ExprValue, usize), Stop>((0, 1)));
    lemma_operand_alone(x, 0, 0, 0);
}

/// `defined(..)` is 1 for the name of a macro that is defined, and 0 for another name.
#[verifier::rlimit(40)]
pub proof fn law_defined(name: Seq<u8>, offsets: Seq<usize>, names: Set<Seq<u8>>)
    requires
        is_name(name),
        name.len() + 9 <= usize::MAX,
    ensures
        expr::evaluated("defined(".spec_bytes() + name + ")".spec_bytes(), offsets, names) == Some(
            Ok::<ExprValue, ExprDiagnostic<Seq<u8>>>(expr::truth(names.contains(name))),
        ),
{
    reveal_strlit("defined(");
    is_ascii_spec_bytes("defined(");
    reveal_strlit(")");
    is_ascii_spec_bytes(")");
    reveal_strlit("defined");
    is_ascii_spec_bytes("defined");
    let word = "defined(".spec_bytes();
    let b = word + name + ")".spec_bytes();
    let n = name.len() as int;
    let x = Expr { text: b, tokens: token::lexemes(b, 0), names };
    assert(word.len() == 8 && ")".spec_bytes().len() == 1);
    assert forall|k: int| 0 <= k < 8 implies b[k] == word[k] by {}
    assert forall|k: int| 0 <= k < 7 implies text::is_name_byte(#[trigger] b[k]) by {
        assert(b[k] == word[k]);
    }
    assert(b[0] == 0x64 && b[7] == 0x28 && b[8 + n] == 0x29);
    assert forall|k: int| 8 <= k < 8 + n implies text::is_name_byte(#[trigger] b[k]) by {
        assert(b[k] == name[k - 8]);
    }
    assert(b[8] == name[0]);
    lemma_name_token(b, 0, 7);
    lemma_mark_token(b, 7, Token::LeftParenthesis);
    lemma_name_token(b, 8, 8 + n);
    lemma_mark_token(b, 8 + n, Token::RightParenthesis);
    assert(token::lexemes(b, 9 + n) =~= Seq::empty());
    assert(x.tokens.len() == 4);
    assert(b.subrange(0, 7) =~= "defined".spec_bytes());
    assert(b.subrange(8, 8 + n) =~= name);
    assert(x.tokens[0].start == 0 && x.tokens[0].end == 7);
    assert(x.tokens[2].start == 8 && x.tokens[2].end == 8 + n);
    assert(x.tokens[1].token == Ok::<Token, TokenError>(Token::LeftParenthesis));
    assert(x.tokens[3].token == Ok::<Token, TokenError>(Token::RightParenthesis));
    let v = expr::truth(names.contains(name));
    assert(expr::primary(x, 0) == Ok::<(ExprValue, usize), Stop>((v, 4)));
    lemma_operand_alone(x, 0, 0, v);
}

/// A parenthesis is a token.
proof fn lemma_mark_token(b: Seq<u8>, i: int, t: Token)
    requires
        0 <= i < b.len() <= usize::MAX,
        b[i] == 0x28 && t == Token::LeftParenthesis || b[i] == 0x29 && t
            == Token::RightParenthesis,
    ensures
        token::lexemes(b, i) == seq![
            Lexeme {
                token: Ok::<Token, TokenError>(t),
                start: i as usize,
                end: (i + 1) as usize,
            },
        ] + token::lexemes(b, i + 1),
{
    assert(text::space_width(b, i, b.len() as int) == 0);
    assert(text::skip_space(b, i, b.len() as int) == i);
    assert(!text::has_at(b, i, token::least_decimal())) by {
        if text::has_at(b, i, token::least_decimal()) {
            assert(b.subrange(i, i + 20)[0] == token::least_decimal()[0]);
        }
    }
}

/// The places of the bytes of an expression that stands in the source as it is.
pub open spec fn is_plain_place(offsets: Seq<usize>, base: int, n: int) -> bool {
    &&& offsets.len() == n
    &&& forall|k: int| 0 <= k < n ==> #[trigger] offsets[k] == base + k
}

/// An error of an expression that stands in the source as it is keeps its kind and is marked where
/// what is wrong stands: from its first byte to behind its last one. One at the end is marked at
/// the last byte.
pub proof fn law_error_places(
    b: Seq<u8>,
    offsets: Seq<usize>,
    base: int,
    start: usize,
    end: usize,
    cause: IntParseError,
    expected: &'static str,
    found: &'static str,
)
    requires
        0 <= base,
        base + b.len() <= usize::MAX,
        is_plain_place(offsets, base, b.len() as int),
        start < end <= b.len(),
    ensures
        ({
            let at = Range { start: (base + start) as usize, end: (base + end) as usize };
            &&& expr::diagnosed(b, offsets, EvalError::UnknownToken { start, end }) == (
            ExprDiagnostic::<Seq<u8>>::UnknownToken { at })
            &&& expr::diagnosed(
                b,
                offsets,
                EvalError::UnexpectedToken { expected, found, start, end },
            ) == (ExprDiagnostic::<Seq<u8>>::UnexpectedToken { expected, found, at })
            &&& expr::diagnosed(b, offsets, EvalError::InvalidNumber { cause, start, end }) == (
            ExprDiagnostic::<Seq<u8>>::InvalidNumber { cause, at })
            &&& expr::diagnosed(b, offsets, EvalError::UnexpectedTrailer { start, end }) == (
            ExprDiagnostic::<Seq<u8>>::UnexpectedTrailer { at })
            &&& expr::diagnosed(b, offsets, EvalError::UnknownFunction { start, end }) == (
            ExprDiagnostic::<Seq<u8>>::UnknownFunction {
                function: b.subrange(start as int, end as int),
                at,
            })
            &&& expr::diagnosed(b, offsets, EvalError::Eol { expected }) == (ExprDiagnostic::<
                Seq<u8>,
            >::Eol { expected, at: (base + b.len() - 1) as usize })
        }),
{
    assert(offsets[start as int] == base + start);
    assert(offsets.last() == base + b.len() - 1);
    if end < b.len() {
        assert(offsets[end as int] == base + end);
    }
}

} // verus!
