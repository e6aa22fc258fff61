//! The values of `#if` expressions.

use crate::preprocessor::table::MacroTable;
use crate::preprocessor::token;
pub use crate::preprocessor::token::{ExprValue, IntParseError};
use crate::preprocessor::token::{Lexeme, Token, TokenError};
use crate::text;
use std::ops::Range;
use vstd::prelude::*;
use vstd::string::*;
use vstd::utf8::*;

verus! {

/// What is wrong with an `#if` expression, and where in the source.
#[allow(inconsistent_fields)]
#[derive(Debug, PartialEq, Eq, Hash)]
pub enum ExprDiagnostic<Text = String> {
    UnknownToken { at: Range<usize> },
    UnexpectedToken { expected: &'static str, found: &'static str, at: Range<usize> },
    InvalidNumber { cause: IntParseError, at: Range<usize> },
    UnexpectedTrailer { at: Range<usize> },
    Eol { expected: &'static str, at: usize },
    UnknownFunction { function: Text, at: Range<usize> },
}

impl View for ExprDiagnostic<String> {
    type V = ExprDiagnostic<Seq<u8>>;

    open spec fn view(&self) -> ExprDiagnostic<Seq<u8>> {
        match *self {
            ExprDiagnostic::UnknownToken { at } => ExprDiagnostic::UnknownToken { at },
            ExprDiagnostic::UnexpectedToken { expected, found, at } =>
                ExprDiagnostic::UnexpectedToken { expected, found, at },
            ExprDiagnostic::InvalidNumber { cause, at } => ExprDiagnostic::InvalidNumber {
                cause,
                at,
            },
            ExprDiagnostic::UnexpectedTrailer { at } => ExprDiagnostic::UnexpectedTrailer { at },
            ExprDiagnostic::Eol { expected, at } => ExprDiagnostic::Eol { expected, at },
            ExprDiagnostic::UnknownFunction { function, at } => ExprDiagnostic::UnknownFunction {
                function: text::bytes_of(function),
                at,
            },
        }
    }
}

pub type EvalResult = Result<ExprValue, ExprDiagnostic>;

// ---------------------------------------------------------------------------------------------
// Model

/// What is wrong with an expression, in offsets of the expression itself.
#[derive(Clone, Copy, Debug, PartialEq, Eq)]
pub enum EvalError {
    UnknownToken { start: usize, end: usize },
    UnexpectedToken { expected: &'static str, found: &'static str, start: usize, end: usize },
    InvalidNumber { cause: IntParseError, start: usize, end: usize },
    UnexpectedTrailer { start: usize, end: usize },
    Eol { expected: &'static str },
    UnknownFunction { start: usize, end: usize },
}

/// Why an expression has no value: it is wrong, or its arithmetic leaves the range of values or
/// divides by zero.
#[derive(Clone, Copy, Debug, PartialEq, Eq)]
pub enum Stop {
    Error(EvalError),
    Fault,
}

/// How tightly an operator binds; 10 for a token that is no operator between two operands.
pub open spec fn op_level(t: Token) -> int {
    match t {
        Token::LogicalOr => 0,
        Token::LogicalAnd => 1,
        Token::BitOr => 2,
        Token::BitXor => 3,
        Token::BitAnd => 4,
        Token::Equal | Token::NotEqual => 5,
        Token::LessThan | Token::GreaterThan | Token::LessThanOrEqual
        | Token::GreaterThanOrEqual => 6,
        Token::ShiftLeft | Token::ShiftRight => 7,
        Token::Add | Token::Subtract => 8,
        Token::Multiply | Token::Divide | Token::Remainder => 9,
        _ => 10,
    }
}

pub open spec fn truth(x: bool) -> ExprValue {
    if x {
        1
    } else {
        0
    }
}

/// The value of an operator on two operands; `None` where the arithmetic has no value. `!=`
/// yields what `==` does.
pub open spec fn binary_value(t: Token, a: ExprValue, b: ExprValue) -> Option<ExprValue> {
    match t {
        Token::LogicalOr => Some(truth(a != 0 || b != 0)),
        Token::LogicalAnd => Some(truth(a != 0 && b != 0)),
        Token::BitOr => Some(a | b),
        Token::BitXor => Some(a ^ b),
        Token::BitAnd => Some(a & b),
        Token::Equal => Some(truth(a == b)),
        Token::NotEqual => Some(truth(a == b)),
        Token::LessThan => Some(truth(a < b)),
        Token::GreaterThan => Some(truth(a > b)),
        Token::LessThanOrEqual => Some(truth(a <= b)),
        Token::GreaterThanOrEqual => Some(truth(a >= b)),
        Token::ShiftLeft => if 0 <= b < 64 {
            Some(a << b)
        } else {
            None
        },
        Token::ShiftRight => if 0 <= b < 64 {
            Some(a >> b)
        } else {
            None
        },
        Token::Add => a.checked_add(b),
        Token::Subtract => a.checked_sub(b),
        Token::Multiply => a.checked_mul(b),
        Token::Divide => a.checked_div(b),
        Token::Remainder => a.checked_rem(b),
        _ => None,
    }
}

pub open spec fn is_unary(t: Token) -> bool {
    t == Token::Add || t == Token::Subtract || t == Token::BitNot || t == Token::LogicalNot
}

/// The value of an operator on one operand; `None` where the arithmetic has no value.
pub open spec fn unary_value(t: Token, a: ExprValue) -> Option<ExprValue> {
    match t {
        Token::Add => Some(a),
        Token::Subtract => if a == i64::MIN {
            None
        } else {
            Some((-a) as i64)
        },
        Token::BitNot => Some(!a),
        Token::LogicalNot => Some(truth(a == 0)),
        _ => None,
    }
}

/// What an expression is evaluated from: its text, its tokens and the names that are defined.
pub struct Expr {
    pub text: Seq<u8>,
    pub tokens: Seq<Lexeme>,
    pub names: Set<Seq<u8>>,
}

pub open spec fn token_stop(t: Lexeme, e: TokenError) -> Stop {
    Stop::Error(
        match e {
            TokenError::InvalidNumber(cause) => EvalError::InvalidNumber {
                cause,
                start: t.start,
                end: t.end,
            },
            TokenError::Unknown => EvalError::UnknownToken { start: t.start, end: t.end },
        },
    )
}

/// Why the token at `pos` is not the wanted one, if it is not.
pub open spec fn expect_stop(x: Expr, pos: int, want: Token, expected: &'static str) -> Option<
    Stop,
> {
    if pos >= x.tokens.len() {
        Some(Stop::Error(EvalError::Eol { expected }))
    } else {
        match x.tokens[pos].token {
            Err(e) => Some(token_stop(x.tokens[pos], e)),
            Ok(t) => if t == want {
                None
            } else {
                Some(
                    Stop::Error(
                        EvalError::UnexpectedToken {
                            expected,
                            found: t.spec_name(),
                            start: x.tokens[pos].start,
                            end: x.tokens[pos].end,
                        },
                    ),
                )
            },
        }
    }
}

/// The value of the operand at `pos` and of the operators from `level` on that follow it, and the
/// position behind them.
pub open spec fn binary(x: Expr, pos: int, level: int) -> Result<(ExprValue, usize), Stop>
    decreases
        x.tokens.len() - pos,
        if level >= 10 {
            3int
        } else {
            13 - level
        },
{
    if level >= 10 {
        unary(x, pos)
    } else {
        match binary(x, pos, level + 1) {
            Err(e) => Err(e),
            Ok((v, q)) => if q <= pos || q > x.tokens.len() {
                Err(Stop::Fault)
            } else {
                operands(x, q as int, level, v)
            },
        }
    }
}

/// The value so far, with the operators of `level` and their right operands from `pos` on taken
/// in from left to right.
pub open spec fn operands(x: Expr, pos: int, level: int, value: ExprValue) -> Result<
    (ExprValue, usize),
    Stop,
>
    decreases x.tokens.len() - pos, 0int,
{
    if pos >= x.tokens.len() {
        Ok((value, pos as usize))
    } else {
        match x.tokens[pos].token {
            Err(e) => Err(token_stop(x.tokens[pos], e)),
            Ok(t) => if op_level(t) != level {
                Ok((value, pos as usize))
            } else {
                match binary(x, pos + 1, level + 1) {
                    Err(e) => Err(e),
                    Ok((right, q)) => if q <= pos || q > x.tokens.len() {
                        Err(Stop::Fault)
                    } else {
                        match binary_value(t, value, right) {
                            None => Err(Stop::Fault),
                            Some(v) => operands(x, q as int, level, v),
                        }
                    },
                }
            },
        }
    }
}

/// The value of an operand with the operators in front of it.
pub open spec fn unary(x: Expr, pos: int) -> Result<(ExprValue, usize), Stop>
    decreases x.tokens.len() - pos, 2int,
{
    if pos >= x.tokens.len() {
        primary(x, pos)
    } else {
        match x.tokens[pos].token {
            Err(e) => Err(token_stop(x.tokens[pos], e)),
            Ok(t) => if is_unary(t) {
                match unary(x, pos + 1) {
                    Err(e) => Err(e),
                    Ok((right, q)) => match unary_value(t, right) {
                        None => Err(Stop::Fault),
                        Some(v) => Ok((v, q)),
                    },
                }
            } else {
                primary(x, pos)
            },
        }
    }
}

/// The value of a number, of an identifier, which is 0, of `defined(..)` or of an expression in
/// parentheses.
pub open spec fn primary(x: Expr, pos: int) -> Result<(ExprValue, usize), Stop>
    decreases x.tokens.len() - pos, 1int,
{
    let wanted = "an identifier, number, or parentheses";
    if pos >= x.tokens.len() {
        Err(Stop::Error(EvalError::Eol { expected: wanted }))
    } else {
        let here = x.tokens[pos];
        match here.token {
            Err(e) => Err(token_stop(here, e)),
            Ok(Token::Number(v)) => Ok((v, (pos + 1) as usize)),
            Ok(Token::LeftParenthesis) => match binary(x, pos + 1, 0) {
                Err(e) => Err(e),
                Ok((v, q)) => match expect_stop(
                    x,
                    q as int,
                    Token::RightParenthesis,
                    "end parenthesis after sub-expression",
                ) {
                    Some(e) => Err(e),
                    None => Ok((v, (q + 1) as usize)),
                },
            },
            Ok(Token::Identifier) => if pos + 1 >= x.tokens.len() {
                Ok((0, (pos + 1) as usize))
            } else {
                match x.tokens[pos + 1].token {
                    Err(e) => Err(token_stop(x.tokens[pos + 1], e)),
                    Ok(Token::LeftParenthesis) => if x.text.subrange(
                        here.start as int,
                        here.end as int,
                    ) != "defined".spec_bytes() {
                        Err(
                            Stop::Error(
                                EvalError::UnknownFunction { start: here.start, end: here.end },
                            ),
                        )
                    } else {
                        match expect_stop(x, pos + 2, Token::Identifier, "a macro name") {
                            Some(e) => Err(e),
                            None => match expect_stop(
                                x,
                                pos + 3,
                                Token::RightParenthesis,
                                "end parenthesis after macro name",
                            ) {
                                Some(e) => Err(e),
                                None => Ok(
                                    (
                                        truth(
                                            x.names.contains(
                                                x.text.subrange(
                                                    x.tokens[pos + 2].start as int,
                                                    x.tokens[pos + 2].end as int,
                                                ),
                                            ),
                                        ),
                                        (pos + 4) as usize,
                                    ),
                                ),
                            },
                        }
                    },
                    Ok(_) => Ok((0, (pos + 1) as usize)),
                }
            },
            Ok(t) => Err(
                Stop::Error(
                    EvalError::UnexpectedToken {
                        expected: wanted,
                        found: t.spec_name(),
                        start: here.start,
                        end: here.end,
                    },
                ),
            ),
        }
    }
}

/// The value of a whole expression. An empty one has the value 0.
pub open spec fn expr_value(x: Expr) -> Result<ExprValue, Stop> {
    if x.tokens.len() == 0 {
        Ok(0)
    } else {
        match binary(x, 0, 0) {
            Err(e) => Err(e),
            Ok((v, q)) => if q < x.tokens.len() {
                Err(
                    Stop::Error(
                        EvalError::UnexpectedTrailer {
                            start: x.tokens[q as int].start,
                            end: x.tokens[q as int].end,
                        },
                    ),
                )
            } else {
                Ok(v)
            },
        }
    }
}

/// The place in the source of a stretch of the expression. Where its end comes from before its
/// start, or from more than `len` bytes behind it, the place is just the start.
pub open spec fn source_range(offsets: Seq<usize>, start: usize, end: usize, len: int) -> Range<
    usize,
> {
    let s = offsets[start as int];
    let e = if end < offsets.len() {
        offsets[end as int]
    } else {
        offsets.last().wrapping_add(1)
    };
    Range {
        start: s,
        end: if e < s || e - s > len {
            s
        } else {
            e
        },
    }
}

/// What the error marks starts before `n`, if it marks something.
pub open spec fn starts_before(e: EvalError, n: int) -> bool {
    match e {
        EvalError::UnknownToken { start, end } => start < n,
        EvalError::UnexpectedToken { expected, found, start, end } => start < n,
        EvalError::InvalidNumber { cause, start, end } => start < n,
        EvalError::UnexpectedTrailer { start, end } => start < n,
        EvalError::Eol { expected } => true,
        EvalError::UnknownFunction { start, end } => start < n,
    }
}

/// There is a place in the source for what the error of an expression marks, if it has one.
pub open spec fn can_be_placed(b: Seq<u8>, offsets: Seq<usize>, names: Set<Seq<u8>>) -> bool {
    expr_value(Expr { text: b, tokens: token::lexemes(b, 0), names }) matches Err(Stop::Error(e))
        ==> starts_before(e, offsets.len() as int)
}

/// The diagnostic for an error, with its place in the source.
pub open spec fn diagnosed(b: Seq<u8>, offsets: Seq<usize>, e: EvalError) -> ExprDiagnostic<
    Seq<u8>,
> {
    let len = b.len() as int;
    match e {
        EvalError::UnknownToken { start, end } => ExprDiagnostic::UnknownToken {
            at: source_range(offsets, start, end, len),
        },
        EvalError::UnexpectedToken { expected, found, start, end } =>
            ExprDiagnostic::UnexpectedToken {
            expected,
            found,
            at: source_range(offsets, start, end, len),
        },
        EvalError::InvalidNumber { cause, start, end } => ExprDiagnostic::InvalidNumber {
            cause,
            at: source_range(offsets, start, end, len),
        },
        EvalError::UnexpectedTrailer { start, end } => ExprDiagnostic::UnexpectedTrailer {
            at: source_range(offsets, start, end, len),
        },
        EvalError::Eol { expected } => ExprDiagnostic::Eol {
            expected,
            at: if offsets.len() > 0 {
                offsets.last()
            } else {
                0
            },
        },
        EvalError::UnknownFunction { start, end } => ExprDiagnostic::UnknownFunction {
            function: b.subrange(start as int, end as int),
            at: source_range(offsets, start, end, len),
        },
    }
}

/// What an expression evaluates to, where the macros with the given names are defined; `None`
/// where its arithmetic has no value.
pub open spec fn evaluated(b: Seq<u8>, offsets: Seq<usize>, names: Set<Seq<u8>>) -> Option<
    Result<ExprValue, ExprDiagnostic<Seq<u8>>>,
> {
    match expr_value(Expr { text: b, tokens: token::lexemes(b, 0), names }) {
        Ok(v) => Some(Ok(v)),
        Err(Stop::Error(e)) => Some(Err(diagnosed(b, offsets, e))),
        Err(Stop::Fault) => None,
    }
}

// ---------------------------------------------------------------------------------------------
// Evaluation

/// The span of an error lies within the text, and that of an unknown function can be cut out.
spec fn error_within(b: Seq<u8>, e: EvalError) -> bool {
    match e {
        EvalError::UnknownToken { start, end } => start < b.len(),
        EvalError::UnexpectedToken { expected, found, start, end } => start < b.len(),
        EvalError::InvalidNumber { cause, start, end } => start < b.len(),
        EvalError::UnexpectedTrailer { start, end } => start < b.len(),
        EvalError::Eol { expected } => true,
        EvalError::UnknownFunction { start, end } => start < end <= b.len() && text::cut_point(
            b,
            start as int,
        ) && text::cut_point(b, end as int),
    }
}

spec fn stop_within(b: Seq<u8>, s: Stop) -> bool {
    match s {
        Stop::Error(e) => error_within(b, e),
        Stop::Fault => true,
    }
}

/// Identifiers are made of name bytes.
spec fn names_marked(b: Seq<u8>, ts: Seq<Lexeme>) -> bool {
    forall|k: int|
        0 <= k < ts.len() && (#[trigger] ts[k]).token == Ok::<Token, TokenError>(Token::Identifier)
            ==> text::cut_point(b, ts[k].start as int) && text::cut_point(b, ts[k].end as int)
}

proof fn lemma_names_marked(b: Seq<u8>, i: int)
    requires
        valid_utf8(b),
        0 <= i <= b.len() <= usize::MAX,
    ensures
        names_marked(b, token::lexemes(b, i)),
    decreases b.len() - i,
{
    let len = b.len() as int;
    text::lemma_skip_space(b, i, len);
    let k = text::skip_space(b, i, len);
    if k < len {
        let t = token::lexeme_at(b, k);
        let all = token::lexemes(b, i);
        if t.end > k && t.end <= len {
            lemma_names_marked(b, t.end as int);
            let rest = token::lexemes(b, t.end as int);
            if t.token == Ok::<Token, TokenError>(Token::Identifier) {
                text::lemma_ascii_boundary(b, k);
                text::lemma_skip_name(b, k, len);
            }
            assert forall|n: int|
                0 <= n < all.len() && (#[trigger] all[n]).token == Ok::<Token, TokenError>(
                    Token::Identifier,
                ) implies text::cut_point(b, all[n].start as int) && text::cut_point(
                b,
                all[n].end as int,
            ) by {
                if n > 0 {
                    assert(all[n] == rest[n - 1]);
                }
            }
        }
    }
}

/// An expression under evaluation.
struct Evaluator<'a> {
    text: &'a str,
    tokens: &'a Vec<Lexeme>,
    table: &'a MacroTable,
}

impl<'a> Evaluator<'a> {
    spec fn model(&self) -> Expr {
        Expr { text: self.text.spec_bytes(), tokens: self.tokens@, names: self.table@.dom() }
    }

    spec fn wf(&self) -> bool {
        &&& self.table.wf()
        &&& token::within(self.tokens@, self.text.spec_bytes().len() as int)
        &&& names_marked(self.text.spec_bytes(), self.tokens@)
    }

    fn token_error(&self, t: Lexeme, e: TokenError) -> (r: Stop)
        ensures
            r == token_stop(t, e),
    {
        Stop::Error(
            match e {
                TokenError::InvalidNumber(cause) => EvalError::InvalidNumber {
                    cause,
                    start: t.start,
                    end: t.end,
                },
                TokenError::Unknown => EvalError::UnknownToken { start: t.start, end: t.end },
            },
        )
    }

    fn expect(&self, pos: usize, want: Token, expected: &'static str) -> (r: Option<Stop>)
        requires
            self.wf(),
        ensures
            r == expect_stop(self.model(), pos as int, want, expected),
            r matches Some(s) ==> stop_within(self.text.spec_bytes(), s),
            r is None ==> pos < self.tokens@.len(),
    {
        if pos >= self.tokens.len() {
            return Some(Stop::Error(EvalError::Eol { expected }));
        }
        let here = self.tokens[pos];
        assert(self.tokens@[pos as int].start < self.text.spec_bytes().len());
        match here.token {
            Err(e) => Some(self.token_error(here, e)),
            Ok(t) => {
                if t == want {
                    None
                } else {
                    Some(
                        Stop::Error(
                            EvalError::UnexpectedToken {
                                expected,
                                found: t.name(),
                                start: here.start,
                                end: here.end,
                            },
                        ),
                    )
                }
            },
        }
    }

    fn level_of(t: Token) -> (r: u8)
        ensures
            r == op_level(t),
    {
        match t {
            Token::LogicalOr => 0,
            Token::LogicalAnd => 1,
            Token::BitOr => 2,
            Token::BitXor => 3,
            Token::BitAnd => 4,
            Token::Equal | Token::NotEqual => 5,
            Token::LessThan
            | Token::GreaterThan
            | Token::LessThanOrEqual
            | Token::GreaterThanOrEqual => 6,
            Token::ShiftLeft | Token::ShiftRight => 7,
            Token::Add | Token::Subtract => 8,
            Token::Multiply | Token::Divide | Token::Remainder => 9,
            _ => 10,
        }
    }

    fn flag(x: bool) -> (r: ExprValue)
        ensures
            r == truth(x),
    {
        if x {
            1
        } else {
            0
        }
    }

    fn apply(t: Token, a: ExprValue, b: ExprValue) -> (r: Option<ExprValue>)
        ensures
            r == binary_value(t, a, b),
    {
        match t {
            Token::LogicalOr => Some(Self::flag(a != 0 || b != 0)),
            Token::LogicalAnd => Some(Self::flag(a != 0 && b != 0)),
            Token::BitOr => Some(a | b),
            Token::BitXor => Some(a ^ b),
            Token::BitAnd => Some(a & b),
            Token::Equal => Some(Self::flag(a == b)),
            Token::NotEqual => Some(Self::flag(a == b)),
            Token::LessThan => Some(Self::flag(a < b)),
            Token::GreaterThan => Some(Self::flag(a > b)),
            Token::LessThanOrEqual => Some(Self::flag(a <= b)),
            Token::GreaterThanOrEqual => Some(Self::flag(a >= b)),
            Token::ShiftLeft => if 0 <= b && b < 64 {
                Some(a << b)
            } else {
                None
            },
            Token::ShiftRight => if 0 <= b && b < 64 {
                Some(a >> b)
            } else {
                None
            },
            Token::Add => a.checked_add(b),
            Token::Subtract => a.checked_sub(b),
            Token::Multiply => a.checked_mul(b),
            Token::Divide => a.checked_div(b),
            Token::Remainder => a.checked_rem(b),
            _ => None,
        }
    }

    fn apply_unary(t: Token, a: ExprValue) -> (r: Option<ExprValue>)
        ensures
            r == unary_value(t, a),
    {
        match t {
            Token::Add => Some(a),
            Token::Subtract => if a == i64::MIN {
                None
            } else {
                Some(-a)
            },
            Token::BitNot => Some(!a),
            Token::LogicalNot => Some(Self::flag(a == 0)),
            _ => None,
        }
    }

    fn binary(&self, pos: usize, level: u8) -> (r: Result<(ExprValue, usize), Stop>)
        requires
            self.wf(),
            pos <= self.tokens@.len(),
            level <= 10,
        ensures
            r == binary(self.model(), pos as int, level as int),
            r matches Ok((v, q)) ==> pos < q <= self.tokens@.len(),
            r matches Err(s) ==> stop_within(self.text.spec_bytes(), s),
        decreases self.tokens@.len() - pos, 13 - level,
    {
        if level >= 10 {
            return self.unary(pos);
        }
        let (first, after) = match self.binary(pos, level + 1) {
            Err(e) => {
                return Err(e);
            },
            Ok(found) => found,
        };
        let mut value: ExprValue = first;
        let mut at: usize = after;
        let ghost whole = binary(self.model(), pos as int, level as int);
        while at < self.tokens.len()
            invariant
                self.wf(),
                level < 10,
                pos < at <= self.tokens@.len(),
                whole == binary(self.model(), pos as int, level as int),
                whole == operands(self.model(), at as int, level as int, value),
            ensures
                whole == Ok::<(ExprValue, usize), Stop>((value, at)),
                pos < at <= self.tokens@.len(),
            decreases self.tokens@.len() - at,
        {
            let here = self.tokens[at];
            assert(self.tokens@[at as int].start < self.text.spec_bytes().len());
            match here.token {
                Err(e) => {
                    return Err(self.token_error(here, e));
                },
                Ok(t) => {
                    if Self::level_of(t) != level {
                        break;
                    }
                    let (right, next) = match self.binary(at + 1, level + 1) {
                        Err(e) => {
                            return Err(e);
                        },
                        Ok(found) => found,
                    };
                    match Self::apply(t, value, right) {
                        None => {
                            return Err(Stop::Fault);
                        },
                        Some(v) => {
                            value = v;
                        },
                    }
                    at = next;
                },
            }
        }
        Ok((value, at))
    }

    fn unary(&self, pos: usize) -> (r: Result<(ExprValue, usize), Stop>)
        requires
            self.wf(),
            pos <= self.tokens@.len(),
        ensures
            r == unary(self.model(), pos as int),
            r matches Ok((v, q)) ==> pos < q <= self.tokens@.len(),
            r matches Err(s) ==> stop_within(self.text.spec_bytes(), s),
        decreases self.tokens@.len() - pos, 2int,
    {
        if pos >= self.tokens.len() {
            return self.primary(pos);
        }
        let here = self.tokens[pos];
        assert(self.tokens@[pos as int].start < self.text.spec_bytes().len());
        match here.token {
            Err(e) => Err(self.token_error(here, e)),
            Ok(t) => {
                if t == Token::Add || t == Token::Subtract || t == Token::BitNot || t
                    == Token::LogicalNot {
                    match self.unary(pos + 1) {
                        Err(e) => Err(e),
                        Ok((right, q)) => match Self::apply_unary(t, right) {
                            None => Err(Stop::Fault),
                            Some(v) => Ok((v, q)),
                        },
                    }
                } else {
                    self.primary(pos)
                }
            },
        }
    }

    fn primary(&self, pos: usize) -> (r: Result<(ExprValue, usize), Stop>)
        requires
            self.wf(),
            pos <= self.tokens@.len(),
        ensures
            r == primary(self.model(), pos as int),
            r matches Ok((v, q)) ==> pos < q <= self.tokens@.len(),
            r matches Err(s) ==> stop_within(self.text.spec_bytes(), s),
        decreases self.tokens@.len() - pos, 1int,
    {
        let wanted: &'static str = "an identifier, number, or parentheses";
        if pos >= self.tokens.len() {
            return Err(Stop::Error(EvalError::Eol { expected: wanted }));
        }
        let here = self.tokens[pos];
        assert(self.tokens@[pos as int].start < self.tokens@[pos as int].end
            <= self.text.spec_bytes().len());
        match here.token {
            Err(e) => Err(self.token_error(here, e)),
            Ok(Token::Number(v)) => Ok((v, pos + 1)),
            Ok(Token::LeftParenthesis) => match self.binary(pos + 1, 0) {
                Err(e) => Err(e),
                Ok((v, q)) => match self.expect(
                    q,
                    Token::RightParenthesis,
                    "end parenthesis after sub-expression",
                ) {
                    Some(e) => Err(e),
                    None => Ok((v, q + 1)),
                },
            },
            Ok(Token::Identifier) => self.identifier(pos, here),
            Ok(t) => Err(
                Stop::Error(
                    EvalError::UnexpectedToken {
                        expected: wanted,
                        found: t.name(),
                        start: here.start,
                        end: here.end,
                    },
                ),
            ),
        }
    }

    fn identifier(&self, pos: usize, here: Lexeme) -> (r: Result<(ExprValue, usize), Stop>)
        requires
            self.wf(),
            pos < self.tokens@.len(),
            here == self.tokens@[pos as int],
            here.token == Ok::<Token, TokenError>(Token::Identifier),
        ensures
            r == primary(self.model(), pos as int),
            r matches Ok((v, q)) ==> pos < q <= self.tokens@.len(),
            r matches Err(s) ==> stop_within(self.text.spec_bytes(), s),
    {
        assert(self.tokens@[pos as int].start < self.tokens@[pos as int].end
            <= self.text.spec_bytes().len());
        if self.tokens.len() - pos <= 1 {
            return Ok((0, pos + 1));
        }
        let next = self.tokens[pos + 1];
        assert(self.tokens@[pos + 1].start < self.text.spec_bytes().len());
        match next.token {
            Err(e) => Err(self.token_error(next, e)),
            Ok(Token::LeftParenthesis) => {
                let name = text::slice(self.text, here.start, here.end);
                if !text::bytes_eq(name.as_bytes(), "defined".as_bytes()) {
                    return Err(
                        Stop::Error(
                            EvalError::UnknownFunction { start: here.start, end: here.end },
                        ),
                    );
                }
                if let Some(e) = self.expect(pos + 2, Token::Identifier, "a macro name") {
                    return Err(e);
                }
                if let Some(e) = self.expect(
                    pos + 3,
                    Token::RightParenthesis,
                    "end parenthesis after macro name",
                ) {
                    return Err(e);
                }
                let arg = self.tokens[pos + 2];
                assert(self.tokens@[pos + 2].start < self.tokens@[pos + 2].end
                    <= self.text.spec_bytes().len());
                let defined = self.table.contains_key(text::slice(self.text, arg.start, arg.end));
                Ok((Self::flag(defined), pos + 4))
            },
            Ok(_) => Ok((0, pos + 1)),
        }
    }
}

fn place(offsets: &[usize], start: usize, end: usize, len: usize) -> (r: Range<usize>)
    requires
        start < offsets@.len(),
    ensures
        r == source_range(offsets@, start, end, len as int),
{
    let s: usize = offsets[start];
    let e: usize = if end < offsets.len() {
        offsets[end]
    } else {
        offsets[offsets.len() - 1].wrapping_add(1)
    };
    if e < s || e - s > len {
        s..s
    } else {
        s..e
    }
}

fn diagnose(s: &str, offsets: &[usize], e: EvalError) -> (r: ExprDiagnostic)
    requires
        starts_before(e, offsets@.len() as int),
        error_within(s.spec_bytes(), e),
    ensures
        r@ == diagnosed(s.spec_bytes(), offsets@, e),
{
    let len: usize = s.as_bytes().len();
    match e {
        EvalError::UnknownToken { start, end } => ExprDiagnostic::UnknownToken {
            at: place(offsets, start, end, len),
        },
        EvalError::UnexpectedToken { expected, found, start, end } =>
            ExprDiagnostic::UnexpectedToken {
            expected,
            found,
            at: place(offsets, start, end, len),
        },
        EvalError::InvalidNumber { cause, start, end } => ExprDiagnostic::InvalidNumber {
            cause,
            at: place(offsets, start, end, len),
        },
        EvalError::UnexpectedTrailer { start, end } => ExprDiagnostic::UnexpectedTrailer {
            at: place(offsets, start, end, len),
        },
        EvalError::Eol { expected } => ExprDiagnostic::Eol {
            expected,
            at: if offsets.len() > 0 {
                offsets[offsets.len() - 1]
            } else {
                0
            },
        },
        EvalError::UnknownFunction { start, end } => ExprDiagnostic::UnknownFunction {
            function: text::cut(s, start, end),
            at: place(offsets, start, end, len),
        },
    }
}

/// The value of an expression, where the macros of the table are defined; `None` when its
/// arithmetic has no value. `offsets` holds the place in the source of each byte, as far as an error
/// can mark it.
pub fn checked_evaluate(expr: &str, offsets: &[usize], table: &MacroTable) -> (r: Option<
    EvalResult,
>)
    requires
        table.wf(),
        can_be_placed(expr.spec_bytes(), offsets@, table@.dom()),
    ensures
        ({
            let e = evaluated(expr.spec_bytes(), offsets@, table@.dom());
            &&& r is Some <==> e is Some
            &&& r matches Some(Ok(v)) ==> e == Some(
                Ok::<ExprValue, ExprDiagnostic<Seq<u8>>>(v),
            )
            &&& r matches Some(Err(d)) ==> e == Some(
                Err::<ExprValue, ExprDiagnostic<Seq<u8>>>(d@),
            )
        }),
{
    let len: usize = expr.as_bytes().len();
    let tokens = token::tokenize(expr.as_bytes());
    proof {
        text::lemma_str_valid(expr@);
        lemma_names_marked(expr.spec_bytes(), 0);
    }
    if tokens.len() == 0 {
        return Some(Ok(0));
    }
    let evaluator = Evaluator { text: expr, tokens: &tokens, table };
    match evaluator.binary(0, 0) {
        Err(Stop::Fault) => None,
        Err(Stop::Error(e)) => Some(Err(diagnose(expr, offsets, e))),
        Ok((value, at)) => {
            if at < tokens.len() {
                assert(tokens@[at as int].start < expr.spec_bytes().len());
                let e = EvalError::UnexpectedTrailer {
                    start: tokens[at].start,
                    end: tokens[at].end,
                };
                Some(Err(diagnose(expr, offsets, e)))
            } else {
                Some(Ok(value))
            }
        },
    }
}

/// The value of an expression, where the macros of the table are defined. `offsets` holds the
/// place in the source of each byte of the expression, as far as an error can mark it. The
/// arithmetic has to have a value.
pub fn evaluate(expr: &str, offsets: &[usize], table: &MacroTable) -> (r: EvalResult)
    requires
        table.wf(),
        can_be_placed(expr.spec_bytes(), offsets@, table@.dom()),
        evaluated(expr.spec_bytes(), offsets@, table@.dom()) is Some,
    ensures
        ({
            let e = evaluated(expr.spec_bytes(), offsets@, table@.dom())->0;
            &&& r matches Ok(v) ==> e == Ok::<ExprValue, ExprDiagnostic<Seq<u8>>>(v)
            &&& r matches Err(d) ==> e == Err::<ExprValue, ExprDiagnostic<Seq<u8>>>(d@)
        }),
{
    match checked_evaluate(expr, offsets, table) {
        Some(r) => r,
        None => Ok(0),
    }
}

/// A text without tokens has the value 0, whatever the places of its bytes.
pub proof fn law_blank_expression(b: Seq<u8>, offsets: Seq<usize>, names: Set<Seq<u8>>)
    requires
        text::skip_space(b, 0, b.len() as int) == b.len(),
    ensures
        can_be_placed(b, offsets, names),
        evaluated(b, offsets, names) == Some(Ok::<ExprValue, ExprDiagnostic<Seq<u8>>>(0)),
{
}

} // verus!
