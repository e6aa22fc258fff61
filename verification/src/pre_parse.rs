//! The statements of a patch source: options, preprocessor directives and code.

use crate::json;
use crate::json::Json5Error;
use crate::option;
use crate::option::{NxpchOption, OptionModel, OptionParseError};
use crate::preprocessor::directive;
use crate::preprocessor::directive::{DirectiveModel, PreprocessorDiagnostic, PreprocessorDirective};
use crate::text;
use crate::utils::SourceSpan;
use std::ops::Range;
use vstd::prelude::*;
use vstd::string::*;
use vstd::utf8::*;

verus! {

/// The statements of a source, each with its place, and what was found wrong with them.
#[derive(Debug, PartialEq, Eq)]
pub struct PreParsedCode {
    pub statements: Vec<(Range<usize>, PreParsedStatement)>,
    pub diagnostics: Vec<PreParseDiagnostic>,
}

#[derive(Debug, PartialEq, Eq)]
pub enum PreParsedStatement {
    /// An option, with the place of its name.
    Option(NxpchOption, SourceSpan),
    Preprocessor(PreprocessorDirective),
    /// A line of code, with its place.
    Code(String, SourceSpan),
}

#[derive(Debug, PartialEq, Eq)]
#[allow(inconsistent_fields)]
pub enum PreParseDiagnostic<Text = String> {
    InvalidOptionValue { option: Text, cause: Json5Error<Text>, at: usize },
    UnknownOption { option: Text, closest: &'static str, at: SourceSpan },
    Preprocessor(PreprocessorDiagnostic<Text>),
}

// ---------------------------------------------------------------------------------------------
// Model

#[verifier::ext_equal]
pub enum StatementModel {
    Option(OptionModel, SourceSpan),
    Preprocessor(DirectiveModel),
    Code(Seq<u8>, SourceSpan),
}

impl View for PreParsedStatement {
    type V = StatementModel;

    open spec fn view(&self) -> StatementModel {
        match *self {
            PreParsedStatement::Option(o, at) => StatementModel::Option(o@, at),
            PreParsedStatement::Preprocessor(d) => StatementModel::Preprocessor(d@),
            PreParsedStatement::Code(code, at) => StatementModel::Code(text::bytes_of(code), at),
        }
    }
}

/// A statement with the offsets at which it starts and ends.
#[verifier::ext_equal]
pub struct PlacedModel {
    pub start: usize,
    pub end: usize,
    pub statement: StatementModel,
}

pub open spec fn placed_model(s: (Range<usize>, PreParsedStatement)) -> PlacedModel {
    PlacedModel { start: s.0.start, end: s.0.end, statement: s.1@ }
}

pub open spec fn statement_models(v: Seq<(Range<usize>, PreParsedStatement)>) -> Seq<PlacedModel> {
    Seq::new(v.len(), |i: int| placed_model(v[i]))
}

pub type PreParseDiagnosticModel = PreParseDiagnostic<Seq<u8>>;

impl View for PreParseDiagnostic<String> {
    type V = PreParseDiagnostic<Seq<u8>>;

    open spec fn view(&self) -> PreParseDiagnostic<Seq<u8>> {
        match *self {
            PreParseDiagnostic::InvalidOptionValue { option, cause, at } =>
                PreParseDiagnostic::InvalidOptionValue {
                option: text::bytes_of(option),
                cause: cause@,
                at,
            },
            PreParseDiagnostic::UnknownOption { option, closest, at } =>
                PreParseDiagnostic::UnknownOption { option: text::bytes_of(option), closest, at },
            PreParseDiagnostic::Preprocessor(d) => PreParseDiagnostic::Preprocessor(d@),
        }
    }
}

pub open spec fn diagnostic_models(v: Seq<PreParseDiagnostic>) -> Seq<PreParseDiagnosticModel> {
    Seq::new(v.len(), |i: int| v[i]@)
}

pub open spec fn from_directive(ds: Seq<directive::DiagnosticModel>) -> Seq<
    PreParseDiagnosticModel,
> {
    Seq::new(ds.len(), |i: int| PreParseDiagnostic::Preprocessor(ds[i]))
}

// ---------------------------------------------------------------------------------------------
// Framing

pub open spec fn is_quote(x: u8) -> bool {
    x == 0x27 || x == 0x22
}

pub open spec fn is_ascii_space(x: u8) -> bool {
    x == 0x20 || x == 0x09 || x == 0x0a || x == 0x0c || x == 0x0d
}

/// The offset of the quote that closes a string, from `i` inside it on; `end` where none does. A
/// backslash takes the byte behind it with it.
pub open spec fn string_end(b: Seq<u8>, quote: u8, i: int, end: int) -> int
    decreases end + 1 - i,
{
    if i >= end {
        end
    } else if b[i] == 0x5c {
        string_end(b, quote, i + 2, end)
    } else if b[i] == quote {
        i
    } else {
        string_end(b, quote, i + 1, end)
    }
}

pub proof fn lemma_string_end(b: Seq<u8>, quote: u8, i: int, end: int)
    ensures
        string_end(b, quote, i, end) <= end,
        i <= end ==> i <= string_end(b, quote, i, end),
        string_end(b, quote, i, end) < end ==> b[string_end(b, quote, i, end)] == quote,
    decreases end + 1 - i,
{
    if i < end {
        if b[i] == 0x5c {
            lemma_string_end(b, quote, i + 2, end);
        } else if b[i] != quote {
            lemma_string_end(b, quote, i + 1, end);
        }
    }
}

/// The offset behind a value, from `i` inside it on, `depth` brackets deep: behind the bracket
/// that closes the outermost one, or behind the first white space outside brackets. `None` where
/// a string in it is not closed.
pub open spec fn value_end(b: Seq<u8>, i: int, depth: nat, end: int) -> Option<int>
    decreases end - i,
{
    if i >= end {
        Some(end)
    } else if b[i] == 0x7b || b[i] == 0x5b {
        value_end(b, i + 1, depth + 1, end)
    } else if b[i] == 0x7d || b[i] == 0x5d {
        if depth <= 1 {
            Some(i + 1)
        } else {
            value_end(b, i + 1, (depth - 1) as nat, end)
        }
    } else if is_quote(b[i]) {
        let j = string_end(b, b[i], i + 1, end);
        if j >= end {
            None
        } else {
            proof {
                lemma_string_end(b, b[i], i + 1, end);
            }
            value_end(b, j + 1, depth, end)
        }
    } else if depth == 0 && is_ascii_space(b[i]) {
        Some(i + 1)
    } else {
        value_end(b, i + 1, depth, end)
    }
}

/// The offset behind the line that `i` stands in, its line break included.
pub open spec fn line_end(b: Seq<u8>, i: int, end: int) -> int {
    let n = text::find_byte(b, 0x0a, i, end);
    if n < end {
        n + 1
    } else {
        end
    }
}

/// The offset behind an option's value that starts at `i`: it takes the rest of the line that it
/// ends in.
pub open spec fn json_end(b: Seq<u8>, i: int, end: int) -> Option<int> {
    match value_end(b, i, 0, end) {
        None => None,
        Some(k) => Some(line_end(b, k, end)),
    }
}

/// The offset of the first comment outside strings from `i` on, or `end`.
pub open spec fn code_end(b: Seq<u8>, i: int, end: int) -> int
    decreases end - i,
{
    if i + 1 >= end {
        end
    } else if b[i] == 0x2f && b[i + 1] == 0x2f {
        i
    } else if is_quote(b[i]) {
        let j = string_end(b, b[i], i + 1, end);
        if j >= end {
            end
        } else {
            proof {
                lemma_string_end(b, b[i], i + 1, end);
            }
            code_end(b, j + 1, end)
        }
    } else {
        code_end(b, i + 1, end)
    }
}

pub open spec fn is_option_byte(x: u8) -> bool {
    0x61 <= x <= 0x7a || x == 0x5f
}

/// The end of the run of option name bytes that starts at `i`.
pub open spec fn skip_option_name(b: Seq<u8>, i: int, end: int) -> int
    decreases end - i,
{
    if i < end && is_option_byte(b[i]) {
        skip_option_name(b, i + 1, end)
    } else {
        i
    }
}

/// Where an option starts at `i`, the offsets at which its name ends and its value starts.
pub open spec fn option_head(b: Seq<u8>, i: int) -> Option<(int, int)> {
    let end = b.len() as int;
    let n = skip_option_name(b, i, end);
    let k = text::skip_blank(b, n, end);
    if n > i && k < end && b[k] == 0x3d {
        Some((n, text::skip_blank(b, k + 1, end)))
    } else {
        None
    }
}

/// A piece of a source, by its offsets.
#[derive(Clone, Copy, Debug, PartialEq, Eq, Structural)]
pub enum Piece {
    Option { start: usize, name_end: usize, value: usize, end: usize },
    Directive { start: usize, end: usize },
    Code { start: usize, end: usize },
}

impl Piece {
    pub open spec fn first(self) -> int {
        match self {
            Piece::Option { start, .. } => start as int,
            Piece::Directive { start, .. } => start as int,
            Piece::Code { start, .. } => start as int,
        }
    }

    pub open spec fn last(self) -> int {
        match self {
            Piece::Option { end, .. } => end as int,
            Piece::Directive { end, .. } => end as int,
            Piece::Code { end, .. } => end as int,
        }
    }

    /// The offsets are in order, and cut the source between characters.
    pub open spec fn sound(self, b: Seq<u8>) -> bool {
        &&& text::cut_point(b, self.first())
        &&& text::cut_point(b, self.last())
        &&& self.first() <= self.last()
        &&& self matches Piece::Option { start, name_end, value, end } ==> {
            &&& start < name_end < value <= end
            &&& text::cut_point(b, name_end as int)
            &&& text::cut_point(b, value as int)
        }
    }
}

/// What stands at `s`, which is no white space: a piece or a comment, and the offset behind it.
/// `None` where the value of an option holds a string that is not closed.
pub open spec fn piece_at(b: Seq<u8>, s: int) -> Option<(Option<Piece>, int)> {
    let end = b.len() as int;
    let n = line_end(b, s, end);
    if text::has_at(b, s, "//".spec_bytes()) {
        Some((None, n))
    } else {
        match option_head(b, s) {
            Some((name_end, value)) => match json_end(b, value, end) {
                None => None,
                Some(e) => Some(
                    (
                        Some(
                            Piece::Option {
                                start: s as usize,
                                name_end: name_end as usize,
                                value: value as usize,
                                end: e as usize,
                            },
                        ),
                        e,
                    ),
                ),
            },
            None => {
                let e = text::drop_space(b, s, code_end(b, s, n)) as usize;
                if b[s] == 0x23 {
                    Some((Some(Piece::Directive { start: s as usize, end: e }), n))
                } else {
                    Some((Some(Piece::Code { start: s as usize, end: e }), n))
                }
            },
        }
    }
}

proof fn lemma_value_end(b: Seq<u8>, i: int, depth: nat, end: int)
    requires
        0 <= i <= end <= b.len(),
    ensures
        value_end(b, i, depth, end) matches Some(k) ==> i <= k <= end && (i < end ==> i < k),
    decreases end - i,
{
    if i < end {
        if b[i] == 0x7b || b[i] == 0x5b {
            lemma_value_end(b, i + 1, depth + 1, end);
        } else if b[i] == 0x7d || b[i] == 0x5d {
            if depth > 1 {
                lemma_value_end(b, i + 1, (depth - 1) as nat, end);
            }
        } else if is_quote(b[i]) {
            let j = string_end(b, b[i], i + 1, end);
            lemma_string_end(b, b[i], i + 1, end);
            if j < end {
                lemma_value_end(b, j + 1, depth, end);
            }
        } else if !(depth == 0 && is_ascii_space(b[i])) {
            lemma_value_end(b, i + 1, depth, end);
        }
    }
}

proof fn lemma_line_end(b: Seq<u8>, i: int, end: int)
    requires
        0 <= i <= end <= b.len(),
    ensures
        i <= line_end(b, i, end) <= end,
        i < end ==> i < line_end(b, i, end),
        text::cut_point(b, end) ==> text::cut_point(b, line_end(b, i, end)),
{
    text::lemma_find_byte(b, 0x0a, i, end);
    let n = text::find_byte(b, 0x0a, i, end);
    if n < end && text::cut_point(b, end) {
        text::lemma_ascii_boundary(b, n);
    }
}

proof fn lemma_code_end(b: Seq<u8>, i: int, end: int)
    requires
        0 <= i <= end <= b.len(),
    ensures
        i <= code_end(b, i, end) <= end,
        text::cut_point(b, end) ==> text::cut_point(b, code_end(b, i, end)),
    decreases end - i,
{
    if i + 1 < end {
        if b[i] == 0x2f && b[i + 1] == 0x2f {
            if text::cut_point(b, end) {
                text::lemma_ascii_boundary(b, i);
            }
        } else if is_quote(b[i]) {
            let j = string_end(b, b[i], i + 1, end);
            lemma_string_end(b, b[i], i + 1, end);
            if j < end {
                lemma_code_end(b, j + 1, end);
            }
        } else {
            lemma_code_end(b, i + 1, end);
        }
    }
}

proof fn lemma_skip_option_name(b: Seq<u8>, i: int, end: int)
    requires
        0 <= i <= end <= b.len(),
    ensures
        i <= skip_option_name(b, i, end) <= end,
        text::cut_point(b, i) ==> text::cut_point(b, skip_option_name(b, i, end)),
    decreases end - i,
{
    if i < end && is_option_byte(b[i]) {
        if text::cut_point(b, i) {
            text::lemma_next_boundary(b, i);
        }
        lemma_skip_option_name(b, i + 1, end);
    }
}

proof fn lemma_option_head(b: Seq<u8>, i: int)
    requires
        0 <= i <= b.len(),
    ensures
        option_head(b, i) matches Some((n, v)) ==> i < n < v <= b.len(),
        option_head(b, i) matches Some((n, v)) ==> text::cut_point(b, i) ==> {
            &&& text::cut_point(b, n)
            &&& text::cut_point(b, v)
        },
{
    let end = b.len() as int;
    let n = skip_option_name(b, i, end);
    lemma_skip_option_name(b, i, end);
    text::lemma_skip_blank(b, n, end);
    let k = text::skip_blank(b, n, end);
    if k < end && b[k] == 0x3d {
        text::lemma_skip_blank(b, k + 1, end);
        if text::cut_point(b, i) {
            text::lemma_next_boundary(b, k);
        }
    }
}

/// A piece ends behind where it starts, and cuts the source between characters.
pub proof fn lemma_piece_at(b: Seq<u8>, s: int)
    requires
        0 <= s < b.len() <= usize::MAX,
    ensures
        piece_at(b, s) matches Some((_, n)) ==> s < n <= b.len(),
        text::cut_point(b, s) ==> (piece_at(b, s) matches Some((p, n)) ==> {
            &&& text::cut_point(b, n)
            &&& p matches Some(p) ==> p.sound(b) && p.first() == s && p.last() <= n
        }),
{
    let end = b.len() as int;
    lemma_line_end(b, s, end);
    let n = line_end(b, s, end);
    if text::cut_point(b, s) {
        is_char_boundary_start_end_of_seq(b);
    }
    lemma_option_head(b, s);
    lemma_code_end(b, s, n);
    text::lemma_drop_space(b, s, code_end(b, s, n));
    match option_head(b, s) {
        Some((_, value)) => {
            lemma_value_end(b, value, 0, end);
            match value_end(b, value, 0, end) {
                Some(k) => lemma_line_end(b, k, end),
                None => {},
            }
        },
        None => {},
    }
}

pub open spec fn opt_piece(p: Option<Piece>) -> Seq<Piece> {
    match p {
        Some(p) => seq![p],
        None => Seq::empty(),
    }
}

pub open spec fn before(first: Seq<Piece>, rest: Option<Seq<Piece>>) -> Option<Seq<Piece>> {
    match rest {
        None => None,
        Some(rest) => Some(first + rest),
    }
}

/// The pieces of a source from offset `i` on.
pub open spec fn pieces(b: Seq<u8>, i: int) -> Option<Seq<Piece>>
    decreases b.len() - i,
    when 0 <= i <= b.len() <= usize::MAX
{
    let s = text::skip_space(b, i, b.len() as int);
    proof {
        text::lemma_skip_space(b, i, b.len() as int);
    }
    if s >= b.len() {
        Some(Seq::empty())
    } else {
        match piece_at(b, s) {
            None => None,
            Some((p, n)) => {
                proof {
                    lemma_piece_at(b, s);
                }
                before(opt_piece(p), pieces(b, n))
            },
        }
    }
}

/// The pieces of a source stand in it one behind the other, and cut it between characters.
pub proof fn law_pieces_in_order(b: Seq<u8>, i: int)
    requires
        valid_utf8(b),
        text::cut_point(b, i),
        b.len() <= usize::MAX,
        pieces(b, i) is Some,
    ensures
        ({
            let ps = pieces(b, i)->0;
            &&& forall|k: int| 0 <= k < ps.len() ==> (#[trigger] ps[k]).sound(b)
            &&& forall|k: int| 0 <= k < ps.len() ==> i <= (#[trigger] ps[k]).first()
            &&& forall|k: int, l: int|
                0 <= k < l < ps.len() ==> (#[trigger] ps[k]).last() <= (#[trigger] ps[l]).first()
        }),
    decreases b.len() - i,
{
    let end = b.len() as int;
    let s = text::skip_space(b, i, end);
    text::lemma_skip_space(b, i, end);
    if s < end {
        lemma_piece_at(b, s);
        let (_, n) = piece_at(b, s)->0;
        law_pieces_in_order(b, n);
    }
}

fn skip_string(b: &[u8], idx: usize, end: usize) -> (r: usize)
    requires
        idx < end <= b@.len(),
    ensures
        r == string_end(b@, b@[idx as int], idx + 1, end as int),
        idx < r <= end,
{
    let quote: u8 = b[idx];
    let mut i: usize = idx + 1;
    while i < end
        invariant
            idx < i <= end <= b@.len(),
            quote == b@[idx as int],
            string_end(b@, quote, idx + 1, end as int) == string_end(
                b@,
                quote,
                i as int,
                end as int,
            ),
        decreases end - i,
    {
        let x: u8 = b[i];
        if x == 0x5c {
            if i + 1 >= end {
                assert(string_end(b@, quote, i + 2, end as int) == end);
                return end;
            }
            i += 2;
        } else if x == quote {
            return i;
        } else {
            i += 1;
        }
    }
    end
}

fn find_value_end(b: &[u8], start: usize) -> (r: Option<usize>)
    requires
        start <= b@.len(),
    ensures
        r is Some <==> value_end(b@, start as int, 0, b@.len() as int) is Some,
        r matches Some(k) ==> k == value_end(b@, start as int, 0, b@.len() as int)->0,
        r matches Some(k) ==> start <= k <= b@.len(),
{
    let end: usize = b.len();
    let ghost goal = value_end(b@, start as int, 0, end as int);
    let mut depth: usize = 0;
    let mut i: usize = start;
    while i < end
        invariant
            start <= i <= end,
            end == b@.len(),
            depth <= i,
            goal == value_end(b@, start as int, 0, end as int),
            goal == value_end(b@, i as int, depth as nat, end as int),
        decreases end - i,
    {
        let x: u8 = b[i];
        if x == 0x7b || x == 0x5b {
            depth += 1;
        } else if x == 0x7d || x == 0x5d {
            if depth <= 1 {
                return Some(i + 1);
            }
            depth -= 1;
        } else if x == 0x27 || x == 0x22 {
            i = skip_string(b, i, end);
            if i >= end {
                return None;
            }
        } else if depth == 0 && (x == 0x20 || x == 0x09 || x == 0x0a || x == 0x0c || x == 0x0d) {
            return Some(i + 1);
        }
        i += 1;
    }
    Some(end)
}

fn find_line_end(b: &[u8], i: usize, end: usize) -> (r: usize)
    requires
        i <= end <= b@.len(),
    ensures
        r == line_end(b@, i as int, end as int),
        i <= r <= end,
        i < end ==> i < r,
{
    let n = text::byte_position(b, 0x0a, i, end);
    if n < end {
        n + 1
    } else {
        end
    }
}

fn find_code_end(b: &[u8], start: usize, end: usize) -> (r: usize)
    requires
        start < end <= b@.len(),
    ensures
        r == code_end(b@, start as int, end as int),
        start <= r <= end,
{
    let mut i: usize = start;
    while i < end - 1
        invariant
            start <= i <= end <= b@.len(),
            start < end,
            code_end(b@, start as int, end as int) == code_end(b@, i as int, end as int),
        decreases end - i,
    {
        let x: u8 = b[i];
        if x == 0x2f && b[i + 1] == 0x2f {
            return i;
        }
        if x == 0x27 || x == 0x22 {
            i = skip_string(b, i, end);
            if i >= end {
                return end;
            }
        }
        i += 1;
    }
    end
}

fn option_name_end(b: &[u8], i: usize) -> (r: usize)
    requires
        i <= b@.len(),
    ensures
        r == skip_option_name(b@, i as int, b@.len() as int),
        i <= r <= b@.len(),
{
    let mut k: usize = i;
    while k < b.len() && ((0x61 <= b[k] && b[k] <= 0x7a) || b[k] == 0x5f)
        invariant
            i <= k <= b@.len(),
            skip_option_name(b@, i as int, b@.len() as int) == skip_option_name(
                b@,
                k as int,
                b@.len() as int,
            ),
        decreases b@.len() - k,
    {
        k += 1;
    }
    k
}

fn find_option_head(b: &[u8], i: usize) -> (r: Option<(usize, usize)>)
    requires
        i <= b@.len(),
    ensures
        r is Some <==> option_head(b@, i as int) is Some,
        r matches Some((n, v)) ==> (n as int, v as int) == option_head(b@, i as int)->0,
{
    let end: usize = b.len();
    let n = option_name_end(b, i);
    let k = text::blank_end(b, n, end);
    if n > i && k < end && b[k] == 0x3d {
        Some((n, text::blank_end(b, k + 1, end)))
    } else {
        None
    }
}

/// The part of a text that holds the value it starts with, up to the end of the line that the
/// value ends in.
pub fn json5_trim(s: &str) -> (r: &str)
    requires
        value_end(s.spec_bytes(), 0, 0, s.spec_bytes().len() as int) is Some,
    ensures
        r.spec_bytes() == s.spec_bytes().subrange(
            0,
            json_end(s.spec_bytes(), 0, s.spec_bytes().len() as int)->0,
        ),
{
    let b = s.as_bytes();
    match find_value_end(b, 0) {
        None => s,
        Some(k) => {
            let e = find_line_end(b, k, b.len());
            proof {
                text::lemma_str_valid(s@);
                lemma_line_end(b@, k as int, b@.len() as int);
            }
            text::slice(s, 0, e)
        },
    }
}

/// What stands at an offset that is no white space, and the offset behind it.
fn find_piece(b: &[u8], s: usize) -> (r: Option<(Option<Piece>, usize)>)
    requires
        s < b@.len(),
    ensures
        r is Some <==> piece_at(b@, s as int) is Some,
        r matches Some((p, n)) ==> (p, n as int) == piece_at(b@, s as int)->0,
{
    let end: usize = b.len();
    let n = find_line_end(b, s, end);
    proof {
        lemma_option_head(b@, s as int);
    }
    if text::bytes_at(b, s, "//".as_bytes()) {
        return Some((None, n));
    }
    if let Some((name_end, value)) = find_option_head(b, s) {
        return match find_value_end(b, value) {
            None => None,
            Some(k) => {
                let e = find_line_end(b, k, end);
                Some((Some(Piece::Option { start: s, name_end, value, end: e }), e))
            },
        };
    }
    let c = find_code_end(b, s, n);
    let e = text::space_start(b, s, c);
    if b[s] == 0x23 {
        Some((Some(Piece::Directive { start: s, end: e }), n))
    } else {
        Some((Some(Piece::Code { start: s, end: e }), n))
    }
}

/// Splits a source into its pieces. `None` where the value of an option holds a string that is
/// not closed.
pub fn split(input: &str) -> (r: Option<Vec<Piece>>)
    ensures
        r is Some <==> pieces(input.spec_bytes(), 0) is Some,
        r matches Some(v) ==> v@ == pieces(input.spec_bytes(), 0)->0,
        input.spec_bytes().len() <= usize::MAX,
{
    let b = input.as_bytes();
    let len: usize = b.len();
    let mut out: Vec<Piece> = Vec::new();
    let mut i: usize = 0;
    assert(before(Seq::empty(), pieces(b@, 0)) =~= pieces(b@, 0));
    loop
        invariant
            b@ == input.spec_bytes(),
            len == b@.len(),
            i <= len,
            before(out@, pieces(b@, i as int)) == pieces(b@, 0),
        decreases len - i,
    {
        let s = text::space_end(b, i, len);
        if s >= len {
            assert(out@ + Seq::empty() =~= out@);
            return Some(out);
        }
        match find_piece(b, s) {
            None => {
                return None;
            },
            Some((p, n)) => {
                proof {
                    lemma_piece_at(b@, s as int);
                    let rest = pieces(b@, n as int);
                    if rest is Some {
                        assert(out@ + (opt_piece(p) + rest->0) =~= (out@ + opt_piece(p))
                            + rest->0);
                    }
                    assert(out@ + Seq::empty() =~= out@);
                }
                if let Some(p) = p {
                    assert(out@ + seq![p] =~= out@.push(p));
                    out.push(p);
                }
                i = n;
            },
        }
    }
}

// ---------------------------------------------------------------------------------------------
// Statements

/// The number of options among the first `n` pieces.
pub open spec fn option_count(ps: Seq<Piece>, n: int) -> int
    decreases n,
{
    if n <= 0 {
        0
    } else {
        option_count(ps, n - 1) + if ps[n - 1] is Option {
            1int
        } else {
            0
        }
    }
}

pub type ValueModel = Result<OptionModel, Json5Error<Seq<u8>>>;

/// The statements and the diagnostics that were made.
pub type MadeModel = (Seq<PlacedModel>, Seq<PreParseDiagnosticModel>);

/// What an option makes, given what was read as its value. `None` where what was read is not of
/// the kind of the option, or the value does not have the shape of what was read from it.
#[verifier::opaque]
pub open spec fn option_made(
    b: Seq<u8>,
    start: usize,
    name_end: usize,
    value: usize,
    end: usize,
    read: ValueModel,
) -> Option<MadeModel> {
    let name = b.subrange(start as int, name_end as int);
    let json = b.subrange(value as int, end as int);
    let at = SourceSpan { offset: start, len: (name_end - start) as usize };
    match option::option_of(name, read) {
        Ok(o) => {
            let members = option::value_members(o, json);
            if option::fits_name(name, read) && option::value_matches(o, members) {
                let statement = StatementModel::Option(
                    option::option_placed(o, members, json, value),
                    at,
                );
                let last = text::drop_space(b, value as int, end as int) as usize;
                Some((seq![PlacedModel { start, end: last, statement }], Seq::empty()))
            } else {
                None
            }
        },
        Err(OptionParseError::InvalidOption(cause)) => Some(
            (
                Seq::empty(),
                seq![
                    PreParseDiagnostic::InvalidOptionValue {
                        option: name,
                        cause,
                        at: json::error_offset(cause, json, value) as usize,
                    },
                ],
            ),
        ),
        Err(OptionParseError::UnknownOption { closest }) => Some(
            (
                Seq::empty(),
                seq![PreParseDiagnostic::UnknownOption { option: name, closest, at }],
            ),
        ),
    }
}

/// What a directive makes.
#[verifier::opaque]
pub open spec fn directive_made(b: Seq<u8>, start: usize, end: usize) -> MadeModel {
    let (d, diags) = directive::directive_of(b.subrange(start as int, end as int), start);
    let made = match d {
        Some(d) => seq![PlacedModel { start, end, statement: StatementModel::Preprocessor(d) }],
        None => Seq::empty(),
    };
    (made, from_directive(diags))
}

/// What a line of code makes.
#[verifier::opaque]
pub open spec fn code_made(b: Seq<u8>, start: usize, end: usize) -> MadeModel {
    let at = SourceSpan { offset: start, len: (end - start) as usize };
    let statement = StatementModel::Code(b.subrange(start as int, end as int), at);
    (seq![PlacedModel { start, end, statement }], Seq::empty())
}

/// What a piece makes. `read` is what was read as its value, where it is an option.
pub open spec fn made_by(b: Seq<u8>, p: Piece, read: ValueModel) -> Option<MadeModel> {
    match p {
        Piece::Option { start, name_end, value, end } => option_made(
            b,
            start,
            name_end,
            value,
            end,
            read,
        ),
        Piece::Directive { start, end } => Some(directive_made(b, start, end)),
        Piece::Code { start, end } => Some(code_made(b, start, end)),
    }
}

/// What the first `n` pieces make, given what was read as the values of the options among them.
pub open spec fn made(b: Seq<u8>, ps: Seq<Piece>, read: Seq<ValueModel>, n: int) -> Option<
    MadeModel,
>
    decreases n,
{
    if n <= 0 {
        Some((Seq::empty(), Seq::empty()))
    } else {
        match (
            made(b, ps, read, n - 1),
            made_by(b, ps[n - 1], read[option_count(ps, n - 1)]),
        ) {
            (Some((ss, ds)), Some((s, d))) => Some((ss + s, ds + d)),
            _ => None,
        }
    }
}

/// The statements and the diagnostics of a source, given what was read as the values of its
/// options.
pub open spec fn pre_parsed(b: Seq<u8>, read: Seq<ValueModel>) -> Option<MadeModel> {
    match pieces(b, 0) {
        None => None,
        Some(ps) => made(b, ps, read, ps.len() as int),
    }
}

proof fn lemma_made_none(b: Seq<u8>, ps: Seq<Piece>, read: Seq<ValueModel>, n: int, m: int)
    requires
        0 <= n <= m,
        made(b, ps, read, n) is None,
    ensures
        made(b, ps, read, m) is None,
    decreases m,
{
    if n < m {
        lemma_made_none(b, ps, read, n, m - 1);
    }
}

proof fn lemma_option_count(ps: Seq<Piece>, n: int, m: int)
    requires
        0 <= n <= m,
    ensures
        0 <= option_count(ps, n) <= option_count(ps, m),
    decreases m,
{
    if n < m {
        lemma_option_count(ps, n, m - 1);
    } else if n > 0 {
        lemma_option_count(ps, n - 1, m - 1);
    }
}

/// The start of the statements that `made` places is the start of its piece, and their end is
/// no further than the end of it.
proof fn lemma_made_within(b: Seq<u8>, p: Piece, read: ValueModel)
    requires
        p.sound(b),
        made_by(b, p, read) is Some,
    ensures
        forall|i: int|
            0 <= i < (made_by(b, p, read)->0).0.len() ==> {
                let s = #[trigger] (made_by(b, p, read)->0).0[i];
                p.first() == s.start <= s.end <= p.last()
            },
        (made_by(b, p, read)->0).0.len() <= 1,
{
    reveal(option_made);
    reveal(directive_made);
    reveal(code_made);
    match p {
        Piece::Option { start, name_end, value, end } => {
            text::lemma_drop_space(b, value as int, end as int);
        },
        _ => {},
    }
}

/// An option that a source sets is of the kind that its name tells.
pub proof fn law_option_has_named_kind(
    b: Seq<u8>,
    start: usize,
    name_end: usize,
    value: usize,
    end: usize,
    read: ValueModel,
)
    requires
        option_made(b, start, name_end, value, end, read) is Some,
    ensures
        ({
            let made = (option_made(b, start, name_end, value, end, read)->0).0;
            forall|k: int|
                0 <= k < made.len() ==> {
                    &&& (#[trigger] made[k]).statement matches StatementModel::Option(o, _)
                    &&& option::kind_named(b.subrange(start as int, name_end as int)) == Some(
                        option::kind_of(o),
                    )
                }
        }),
{
    reveal(option_made);
}

/// The statements of a source stand in it one behind the other.
pub proof fn law_statements_in_order(b: Seq<u8>, ps: Seq<Piece>, read: Seq<ValueModel>, n: int)
    requires
        valid_utf8(b),
        b.len() <= usize::MAX,
        pieces(b, 0) == Some(ps),
        0 <= n <= ps.len(),
        made(b, ps, read, n) is Some,
    ensures
        ({
            let ss = (made(b, ps, read, n)->0).0;
            &&& forall|k: int|
                0 <= k < ss.len() ==> (#[trigger] ss[k]).start <= ss[k].end <= b.len()
            &&& forall|k: int, l: int|
                0 <= k < l < ss.len() ==> (#[trigger] ss[k]).end <= (#[trigger] ss[l]).start
            &&& n > 0 ==> forall|k: int|
                0 <= k < ss.len() ==> (#[trigger] ss[k]).end <= ps[n - 1].last()
        }),
    decreases n,
{
    is_char_boundary_start_end_of_seq(b);
    law_pieces_in_order(b, 0);
    if n > 0 {
        law_statements_in_order(b, ps, read, n - 1);
        let all = pieces(b, 0)->0;
        assert(all == ps && all[n - 1].sound(b));
        lemma_made_within(b, ps[n - 1], read[option_count(ps, n - 1)]);
        if n > 1 {
            assert(all[n - 2].last() <= all[n - 1].first());
        }
    }
}

/// The options of a source: the name and the text of the value of each.
pub open spec fn option_texts(b: Seq<u8>, ps: Seq<Piece>, n: int) -> Seq<(Seq<u8>, Seq<u8>)>
    decreases n,
{
    if n <= 0 {
        Seq::empty()
    } else {
        match ps[n - 1] {
            Piece::Option { start, name_end, value, end } => option_texts(b, ps, n - 1).push(
                (
                    b.subrange(start as int, name_end as int),
                    b.subrange(value as int, end as int),
                ),
            ),
            _ => option_texts(b, ps, n - 1),
        }
    }
}

pub open spec fn text_pairs(v: Seq<(String, String)>) -> Seq<(Seq<u8>, Seq<u8>)> {
    Seq::new(v.len(), |i: int| (text::bytes_of(v[i].0), text::bytes_of(v[i].1)))
}

/// The names and the values of the options of a source, in order. `None` where a string in a
/// value is not closed.
pub fn find_options(input: &str) -> (r: Option<Vec<(String, String)>>)
    ensures
        r is Some <==> pieces(input.spec_bytes(), 0) is Some,
        r matches Some(v) ==> ({
            let ps = pieces(input.spec_bytes(), 0)->0;
            &&& text_pairs(v@) == option_texts(input.spec_bytes(), ps, ps.len() as int)
            &&& v@.len() == option_count(ps, ps.len() as int)
        }),
{
    let ps = match split(input) {
        None => {
            return None;
        },
        Some(ps) => ps,
    };
    let ghost b = input.spec_bytes();
    proof {
        text::lemma_str_valid(input@);
        law_pieces_in_order(b, 0);
    }
    let mut out: Vec<(String, String)> = Vec::new();
    let mut i: usize = 0;
    while i < ps.len()
        invariant
            i <= ps@.len(),
            b == input.spec_bytes(),
            forall|k: int| 0 <= k < ps@.len() ==> (#[trigger] ps@[k]).sound(b),
            text_pairs(out@) == option_texts(b, ps@, i as int),
            out@.len() == option_count(ps@, i as int),
        decreases ps@.len() - i,
    {
        match ps[i] {
            Piece::Option { start, name_end, value, end } => {
                assert(ps@[i as int].sound(b));
                let name = text::cut(input, start, name_end);
                let json = text::cut(input, value, end);
                let ghost before = out@;
                out.push((name, json));
                assert(text_pairs(out@) =~= text_pairs(before).push(
                    (text::bytes_of(name), text::bytes_of(json)),
                ));
            },
            _ => {},
        }
        i += 1;
    }
    Some(out)
}

pub open spec fn value_models(v: Seq<Result<NxpchOption, Json5Error>>) -> Seq<ValueModel> {
    Seq::new(v.len(), |i: int| option::value_view(v[i]))
}

/// Appends what a preprocessor directive said to a list.
fn push_directive_diagnostics(
    diags: &mut Vec<PreParseDiagnostic>,
    from: Vec<PreprocessorDiagnostic>,
)
    ensures
        diagnostic_models(final(diags)@) == diagnostic_models(old(diags)@) + from_directive(
            directive::diagnostics(from@),
        ),
{
    let ghost before = diagnostic_models(diags@);
    let ghost all = from_directive(directive::diagnostics(from@));
    let mut from = from;
    let mut told: Vec<PreParseDiagnostic> = Vec::new();
    let ghost n = from@.len() as int;
    let ghost whole = from@;
    while from.len() > 0
        invariant
            from@.len() + told@.len() == n,
            n == whole.len(),
            from@ == whole.subrange(0, from@.len() as int),
            all == from_directive(directive::diagnostics(whole)),
            forall|k: int|
                0 <= k < told@.len() ==> (#[trigger] told@[k])@ == all[n - 1 - k],
        decreases from@.len(),
    {
        if let Some(d) = from.pop() {
            told.push(PreParseDiagnostic::Preprocessor(d));
        }
    }
    let ghost turned = told@;
    while told.len() > 0
        invariant
            told@.len() <= n,
            n == all.len(),
            turned.len() == n,
            told@ == turned.subrange(0, told@.len() as int),
            forall|k: int| 0 <= k < n ==> (#[trigger] turned[k])@ == all[n - 1 - k],
            diagnostic_models(diags@) == before + all.subrange(0, n - told@.len()),
        decreases told@.len(),
    {
        if let Some(d) = told.pop() {
            let ghost was = diags@;
            diags.push(d);
            proof {
                let m = n - told@.len();
                assert(d == turned[told@.len() as int]);
                assert(all.subrange(0, m) =~= all.subrange(0, m - 1).push(all[m - 1]));
                assert(diagnostic_models(diags@) =~= diagnostic_models(was).push(d@));
                assert(before + all.subrange(0, m) =~= (before + all.subrange(0, m - 1)).push(
                    all[m - 1],
                ));
            }
        }
    }
    assert(all.subrange(0, n) =~= all);
}

proof fn lemma_push_statement(
    ss: Seq<(Range<usize>, PreParsedStatement)>,
    s: (Range<usize>, PreParsedStatement),
)
    ensures
        statement_models(ss.push(s)) == statement_models(ss) + seq![placed_model(s)],
{
    assert(statement_models(ss.push(s)) =~= statement_models(ss) + seq![placed_model(s)]);
}

proof fn lemma_push_diagnostic(ds: Seq<PreParseDiagnostic>, d: PreParseDiagnostic)
    ensures
        diagnostic_models(ds.push(d)) == diagnostic_models(ds) + seq![d@],
{
    assert(diagnostic_models(ds.push(d)) =~= diagnostic_models(ds) + seq![d@]);
}

impl PreParsedCode {
    pub open spec fn model(&self) -> MadeModel {
        (statement_models(self.statements@), diagnostic_models(self.diagnostics@))
    }

    /// `self` has what `earlier` had, and what was made behind it.
    pub open spec fn extends(&self, earlier: &PreParsedCode, m: MadeModel) -> bool {
        self.model() == (earlier.model().0 + m.0, earlier.model().1 + m.1)
    }

    fn add_option(
        &mut self,
        input: &str,
        start: usize,
        name_end: usize,
        value: usize,
        end: usize,
        read: Result<NxpchOption, Json5Error>,
    ) -> (r: bool)
        requires
            (Piece::Option { start, name_end, value, end }).sound(input.spec_bytes()),
        ensures
            ({
                let m = option_made(
                    input.spec_bytes(),
                    start,
                    name_end,
                    value,
                    end,
                    option::value_view(read),
                );
                &&& r == m is Some
                &&& m matches Some(m) ==> final(self).extends(old(self), m)
            }),
    {
        let b = input.as_bytes();
        reveal(option_made);
        let name = text::slice(input, start, name_end);
        let json = text::slice(input, value, end);
        let at = SourceSpan { offset: start, len: name_end - start };
        let ghost ss = self.statements@;
        let ghost ds = self.diagnostics@;
        assert(statement_models(ss) + Seq::empty() =~= statement_models(ss));
        assert(diagnostic_models(ds) + Seq::empty() =~= diagnostic_models(ds));
        if !option::value_fits(name, &read) {
            return false;
        }
        match NxpchOption::parse(name, read) {
            Ok(mut o) => {
                if !o.update_offsets(json, value) {
                    return false;
                }
                let last = text::space_start(b, value, end);
                let statement = (start..last, PreParsedStatement::Option(o, at));
                proof {
                    lemma_push_statement(ss, statement);
                }
                self.statements.push(statement);
            },
            Err(OptionParseError::InvalidOption(cause)) => {
                assert(b.len() == b@.len());
                let at = json::json5_error_to_offset(&cause, json, value);
                let d = PreParseDiagnostic::InvalidOptionValue { option: text::own(name), cause, at };
                proof {
                    lemma_push_diagnostic(ds, d);
                }
                self.diagnostics.push(d);
            },
            Err(OptionParseError::UnknownOption { closest }) => {
                let d = PreParseDiagnostic::UnknownOption { option: text::own(name), closest, at };
                proof {
                    lemma_push_diagnostic(ds, d);
                }
                self.diagnostics.push(d);
            },
        }
        true
    }

    fn add_directive(&mut self, input: &str, start: usize, end: usize)
        requires
            (Piece::Directive { start, end }).sound(input.spec_bytes()),
        ensures
            final(self).extends(old(self), directive_made(input.spec_bytes(), start, end)),
    {
        let b = input.as_bytes();
        assert(b.len() == b@.len());
        reveal(directive_made);
        let line = text::slice(input, start, end);
        let mut told: Vec<PreprocessorDiagnostic> = Vec::new();
        let ghost ss = self.statements@;
        assert(statement_models(ss) + Seq::empty() =~= statement_models(ss));
        let d = PreprocessorDirective::parse(line, start, &mut told);
        proof {
            let all = directive::directive_of(line.spec_bytes(), start).1;
            assert(directive::diagnostics(Seq::empty()) =~= Seq::empty());
            assert(Seq::empty() + all =~= all);
        }
        push_directive_diagnostics(&mut self.diagnostics, told);
        if let Some(d) = d {
            let statement = (start..end, PreParsedStatement::Preprocessor(d));
            proof {
                lemma_push_statement(ss, statement);
            }
            self.statements.push(statement);
        }
    }

    fn add_code(&mut self, input: &str, start: usize, end: usize)
        requires
            (Piece::Code { start, end }).sound(input.spec_bytes()),
        ensures
            final(self).extends(old(self), code_made(input.spec_bytes(), start, end)),
    {
        reveal(code_made);
        let at = SourceSpan { offset: start, len: end - start };
        let code = text::cut(input, start, end);
        let ghost ss = self.statements@;
        let ghost ds = self.diagnostics@;
        assert(diagnostic_models(ds) + Seq::empty() =~= diagnostic_models(ds));
        let statement = (start..end, PreParsedStatement::Code(code, at));
        proof {
            lemma_push_statement(ss, statement);
        }
        self.statements.push(statement);
    }

    /// Finds the statements of a source, given what was read as the values of its options. `None`
    /// where a string in a value is not closed, what was read is not of the kind of its option, or
    /// a value does not have the shape of what was read from it.
    pub fn parse(input: &str, values: Vec<Result<NxpchOption, Json5Error>>) -> (r: Option<Self>)
        requires
            pieces(input.spec_bytes(), 0) matches Some(ps) ==> values@.len() == option_count(
                ps,
                ps.len() as int,
            ),
        ensures
            r is Some <==> pre_parsed(input.spec_bytes(), value_models(values@)) is Some,
            r matches Some(code) ==> code.model() == pre_parsed(
                input.spec_bytes(),
                value_models(values@),
            )->0,
    {
        let ps = match split(input) {
            None => {
                return None;
            },
            Some(ps) => ps,
        };
        let ghost b = input.spec_bytes();
        let ghost read = value_models(values@);
        let ghost n = ps@.len() as int;
        proof {
            text::lemma_str_valid(input@);
            law_pieces_in_order(b, 0);
        }
        let ghost given = values@;
        let mut rest = values;
        let mut code = PreParsedCode { statements: Vec::new(), diagnostics: Vec::new() };
        let mut i: usize = 0;
        assert(statement_models(Seq::empty()) =~= Seq::empty());
        assert(diagnostic_models(Seq::empty()) =~= Seq::empty());
        assert(given.subrange(0, given.len() as int) =~= given);
        while i < ps.len()
            invariant
                i <= ps@.len() == n,
                b == input.spec_bytes(),
                read == value_models(given),
                pre_parsed(b, read) == made(b, ps@, read, n),
                forall|k: int| 0 <= k < ps@.len() ==> (#[trigger] ps@[k]).sound(b),
                0 <= option_count(ps@, i as int) <= given.len(),
                given.len() == option_count(ps@, n),
                given == values@,
                rest@ == given.subrange(option_count(ps@, i as int), given.len() as int),
                made(b, ps@, read, i as int) == Some(code.model()),
            decreases ps@.len() - i,
        {
            let ghost at = option_count(ps@, i as int);
            proof {
                lemma_option_count(ps@, i + 1, n);
            }
            let piece = ps[i];
            assert(ps@[i as int].sound(b));
            match piece {
                Piece::Option { start, name_end, value, end } => {
                    let read_value = rest.remove(0);
                    assert(option::value_view(read_value) == read[at]);
                    assert(rest@ =~= given.subrange(at + 1, given.len() as int));
                    if !code.add_option(input, start, name_end, value, end, read_value) {
                        proof {
                            lemma_made_none(b, ps@, read, i + 1, n);
                        }
                        return None;
                    }
                },
                Piece::Directive { start, end } => code.add_directive(input, start, end),
                Piece::Code { start, end } => code.add_code(input, start, end),
            }
            i += 1;
        }
        Some(code)
    }
}

} // verus!
