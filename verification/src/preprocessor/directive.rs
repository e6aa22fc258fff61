//! Preprocessor directives and what is said about them.

use crate::json;
use crate::json::Json5Error;
use crate::preprocessor::expr::ExprDiagnostic;
use crate::preprocessor::macros;
use crate::preprocessor::macros::{MacroDefine, MacroDiagnostic, MacroModel};
use crate::text;
use crate::utils::SourceSpan;
use vstd::prelude::*;
use vstd::string::*;
use vstd::utf8::*;

verus! {

/// A directive, with the places of its keyword and of what follows it.
#[derive(Debug, PartialEq, Eq)]
pub struct PreprocessorDirective<Text = String, Macro = MacroDefine> {
    pub keyword_span: SourceSpan,
    pub body_span: SourceSpan,
    pub instruction: PreprocessorDirectiveInstruction<Text, Macro>,
}

#[derive(Debug, PartialEq, Eq)]
pub enum PreprocessorDirectiveInstruction<Text = String, Macro = MacroDefine> {
    If(Text),
    ElseIf(Text),
    Else,
    EndIf,
    IfDefined(Text),
    IfNotDefined(Text),
    ElseIfDefined(Text),
    ElseIfNotDefined(Text),
    Define(Macro),
    Undefine(Text),
    Error(Text),
    Warning(Text),
}

pub type InstructionModel = PreprocessorDirectiveInstruction<Seq<u8>, MacroModel>;

pub type DirectiveModel = PreprocessorDirective<Seq<u8>, MacroModel>;

impl View for PreprocessorDirectiveInstruction<String, MacroDefine> {
    type V = PreprocessorDirectiveInstruction<Seq<u8>, MacroModel>;

    open spec fn view(&self) -> PreprocessorDirectiveInstruction<Seq<u8>, MacroModel> {
        match *self {
            PreprocessorDirectiveInstruction::If(s) => PreprocessorDirectiveInstruction::If(
                text::bytes_of(s),
            ),
            PreprocessorDirectiveInstruction::ElseIf(s) => PreprocessorDirectiveInstruction::ElseIf(
                text::bytes_of(s),
            ),
            PreprocessorDirectiveInstruction::Else => PreprocessorDirectiveInstruction::Else,
            PreprocessorDirectiveInstruction::EndIf => PreprocessorDirectiveInstruction::EndIf,
            PreprocessorDirectiveInstruction::IfDefined(s) =>
                PreprocessorDirectiveInstruction::IfDefined(text::bytes_of(s)),
            PreprocessorDirectiveInstruction::IfNotDefined(s) =>
                PreprocessorDirectiveInstruction::IfNotDefined(text::bytes_of(s)),
            PreprocessorDirectiveInstruction::ElseIfDefined(s) =>
                PreprocessorDirectiveInstruction::ElseIfDefined(text::bytes_of(s)),
            PreprocessorDirectiveInstruction::ElseIfNotDefined(s) =>
                PreprocessorDirectiveInstruction::ElseIfNotDefined(text::bytes_of(s)),
            PreprocessorDirectiveInstruction::Define(m) => PreprocessorDirectiveInstruction::Define(
                m@,
            ),
            PreprocessorDirectiveInstruction::Undefine(s) =>
                PreprocessorDirectiveInstruction::Undefine(text::bytes_of(s)),
            PreprocessorDirectiveInstruction::Error(s) => PreprocessorDirectiveInstruction::Error(
                text::bytes_of(s),
            ),
            PreprocessorDirectiveInstruction::Warning(s) =>
                PreprocessorDirectiveInstruction::Warning(text::bytes_of(s)),
        }
    }
}

impl View for PreprocessorDirective<String, MacroDefine> {
    type V = PreprocessorDirective<Seq<u8>, MacroModel>;

    open spec fn view(&self) -> PreprocessorDirective<Seq<u8>, MacroModel> {
        PreprocessorDirective {
            keyword_span: self.keyword_span,
            body_span: self.body_span,
            instruction: self.instruction@,
        }
    }
}

impl Clone for PreprocessorDirectiveInstruction<String, MacroDefine> {
    fn clone(&self) -> (r: Self)
        ensures
            r@ == self@,
    {
        match self {
            PreprocessorDirectiveInstruction::If(s) => PreprocessorDirectiveInstruction::If(
                s.clone(),
            ),
            PreprocessorDirectiveInstruction::ElseIf(s) => PreprocessorDirectiveInstruction::ElseIf(
                s.clone(),
            ),
            PreprocessorDirectiveInstruction::Else => PreprocessorDirectiveInstruction::Else,
            PreprocessorDirectiveInstruction::EndIf => PreprocessorDirectiveInstruction::EndIf,
            PreprocessorDirectiveInstruction::IfDefined(s) =>
                PreprocessorDirectiveInstruction::IfDefined(s.clone()),
            PreprocessorDirectiveInstruction::IfNotDefined(s) =>
                PreprocessorDirectiveInstruction::IfNotDefined(s.clone()),
            PreprocessorDirectiveInstruction::ElseIfDefined(s) =>
                PreprocessorDirectiveInstruction::ElseIfDefined(s.clone()),
            PreprocessorDirectiveInstruction::ElseIfNotDefined(s) =>
                PreprocessorDirectiveInstruction::ElseIfNotDefined(s.clone()),
            PreprocessorDirectiveInstruction::Define(m) => PreprocessorDirectiveInstruction::Define(
                m.clone(),
            ),
            PreprocessorDirectiveInstruction::Undefine(s) =>
                PreprocessorDirectiveInstruction::Undefine(s.clone()),
            PreprocessorDirectiveInstruction::Error(s) => PreprocessorDirectiveInstruction::Error(
                s.clone(),
            ),
            PreprocessorDirectiveInstruction::Warning(s) =>
                PreprocessorDirectiveInstruction::Warning(s.clone()),
        }
    }
}

impl Clone for PreprocessorDirective<String, MacroDefine> {
    fn clone(&self) -> (r: Self)
        ensures
            r@ == self@,
    {
        PreprocessorDirective {
            keyword_span: self.keyword_span,
            body_span: self.body_span,
            instruction: self.instruction.clone(),
        }
    }
}

impl<Text, Macro> PreprocessorDirectiveInstruction<Text, Macro> {
    pub open spec fn spec_keyword(&self) -> &'static str {
        match *self {
            PreprocessorDirectiveInstruction::If(_) => "if",
            PreprocessorDirectiveInstruction::ElseIf(_) => "elif",
            PreprocessorDirectiveInstruction::Else => "else",
            PreprocessorDirectiveInstruction::EndIf => "endif",
            PreprocessorDirectiveInstruction::IfDefined(_) => "ifdef",
            PreprocessorDirectiveInstruction::IfNotDefined(_) => "ifndef",
            PreprocessorDirectiveInstruction::ElseIfDefined(_) => "elifdef",
            PreprocessorDirectiveInstruction::ElseIfNotDefined(_) => "elifndef",
            PreprocessorDirectiveInstruction::Define(_) => "define",
            PreprocessorDirectiveInstruction::Undefine(_) => "undef",
            PreprocessorDirectiveInstruction::Error(_) => "error",
            PreprocessorDirectiveInstruction::Warning(_) => "warning",
        }
    }

    /// The keyword of the directive, without the `#`.
    pub fn keyword(&self) -> (r: &'static str)
        ensures
            r == self.spec_keyword(),
    {
        match self {
            PreprocessorDirectiveInstruction::If(_) => "if",
            PreprocessorDirectiveInstruction::ElseIf(_) => "elif",
            PreprocessorDirectiveInstruction::Else => "else",
            PreprocessorDirectiveInstruction::EndIf => "endif",
            PreprocessorDirectiveInstruction::IfDefined(_) => "ifdef",
            PreprocessorDirectiveInstruction::IfNotDefined(_) => "ifndef",
            PreprocessorDirectiveInstruction::ElseIfDefined(_) => "elifdef",
            PreprocessorDirectiveInstruction::ElseIfNotDefined(_) => "elifndef",
            PreprocessorDirectiveInstruction::Define(_) => "define",
            PreprocessorDirectiveInstruction::Undefine(_) => "undef",
            PreprocessorDirectiveInstruction::Error(_) => "error",
            PreprocessorDirectiveInstruction::Warning(_) => "warning",
        }
    }
}

/// What the preprocessor has to say about the source.
#[allow(inconsistent_fields)]
#[derive(Debug, PartialEq, Eq, Hash)]
pub enum PreprocessorDiagnostic<Text = String> {
    UserWarning { message: Text, at: SourceSpan },
    MissingArgument { keyword: &'static str, at: usize },
    UnexpectedArgument { keyword: &'static str, at: (usize, usize) },
    InvalidVarName { keyword: &'static str, at: (usize, usize) },
    InvalidString { keyword: &'static str, cause: Json5Error<Text>, at: usize },
    UnknownDirective { directive: Text, at: (usize, usize) },
    MissingIf { keyword: &'static str, at: SourceSpan },
    DuplicateDefine { name: Text, at: SourceSpan, original: SourceSpan },
    UserError { message: Text, at: SourceSpan },
    Unterminated { keyword: &'static str, at: SourceSpan },
    Macro(MacroDiagnostic),
    Expr(ExprDiagnostic<Text>),
}

pub type DiagnosticModel = PreprocessorDiagnostic<Seq<u8>>;

impl View for PreprocessorDiagnostic<String> {
    type V = PreprocessorDiagnostic<Seq<u8>>;

    open spec fn view(&self) -> PreprocessorDiagnostic<Seq<u8>> {
        match *self {
            PreprocessorDiagnostic::UserWarning { message, at } =>
                PreprocessorDiagnostic::UserWarning { message: text::bytes_of(message), at },
            PreprocessorDiagnostic::MissingArgument { keyword, at } =>
                PreprocessorDiagnostic::MissingArgument { keyword, at },
            PreprocessorDiagnostic::UnexpectedArgument { keyword, at } =>
                PreprocessorDiagnostic::UnexpectedArgument { keyword, at },
            PreprocessorDiagnostic::InvalidVarName { keyword, at } =>
                PreprocessorDiagnostic::InvalidVarName { keyword, at },
            PreprocessorDiagnostic::InvalidString { keyword, cause, at } =>
                PreprocessorDiagnostic::InvalidString { keyword, cause: cause@, at },
            PreprocessorDiagnostic::UnknownDirective { directive, at } =>
                PreprocessorDiagnostic::UnknownDirective {
                directive: text::bytes_of(directive),
                at,
            },
            PreprocessorDiagnostic::MissingIf { keyword, at } => PreprocessorDiagnostic::MissingIf {
                keyword,
                at,
            },
            PreprocessorDiagnostic::DuplicateDefine { name, at, original } =>
                PreprocessorDiagnostic::DuplicateDefine {
                name: text::bytes_of(name),
                at,
                original,
            },
            PreprocessorDiagnostic::UserError { message, at } => PreprocessorDiagnostic::UserError {
                message: text::bytes_of(message),
                at,
            },
            PreprocessorDiagnostic::Unterminated { keyword, at } =>
                PreprocessorDiagnostic::Unterminated { keyword, at },
            PreprocessorDiagnostic::Macro(d) => PreprocessorDiagnostic::Macro(d),
            PreprocessorDiagnostic::Expr(d) => PreprocessorDiagnostic::Expr(d@),
        }
    }
}

/// The diagnostics of a list.
pub open spec fn diagnostics(v: Seq<PreprocessorDiagnostic>) -> Seq<DiagnosticModel> {
    Seq::new(v.len(), |i: int| v[i]@)
}

/// The diagnostics about macros.
pub open spec fn macro_diagnostics(ds: Seq<MacroDiagnostic>) -> Seq<DiagnosticModel> {
    Seq::new(ds.len(), |i: int| PreprocessorDiagnostic::Macro(ds[i]))
}

// ---------------------------------------------------------------------------------------------
// Model

/// Where the keyword of a directive ends and where its body starts and ends. The keyword ends at
/// the first space; the body is without the white space around it.
pub open spec fn directive_parts(b: Seq<u8>) -> (int, int, int) {
    let len = b.len() as int;
    let k = text::find_byte(b, 0x20, 0, len);
    if k < len {
        let t = text::trimmed(b, k + 1, len);
        (k, t.0, t.1)
    } else {
        (len, len, len)
    }
}

/// What a directive with a body says, whose keyword is none of those that take a string or a
/// definition; `None` where the keyword is unknown.
pub open spec fn plain_directive(
    keyword: Seq<u8>,
    body: Seq<u8>,
    body_offset: usize,
) -> Option<Result<InstructionModel, DiagnosticModel>> {
    let at = (body_offset, body.len() as usize);
    if keyword == "#if".spec_bytes() {
        Some(
            if body.len() > 0 {
                Ok(PreprocessorDirectiveInstruction::If(body))
            } else {
                Err(PreprocessorDiagnostic::MissingArgument { keyword: "if", at: body_offset })
            },
        )
    } else if keyword == "#elif".spec_bytes() {
        Some(
            if body.len() > 0 {
                Ok(PreprocessorDirectiveInstruction::ElseIf(body))
            } else {
                Err(PreprocessorDiagnostic::MissingArgument { keyword: "elif", at: body_offset })
            },
        )
    } else if keyword == "#else".spec_bytes() {
        Some(
            if body.len() == 0 {
                Ok(PreprocessorDirectiveInstruction::Else)
            } else {
                Err(PreprocessorDiagnostic::UnexpectedArgument { keyword: "else", at })
            },
        )
    } else if keyword == "#endif".spec_bytes() {
        Some(
            if body.len() == 0 {
                Ok(PreprocessorDirectiveInstruction::EndIf)
            } else {
                Err(PreprocessorDiagnostic::UnexpectedArgument { keyword: "endif", at })
            },
        )
    } else if keyword == "#ifdef".spec_bytes() {
        Some(
            if macros::has_name(body) {
                Ok(PreprocessorDirectiveInstruction::IfDefined(body))
            } else {
                Err(PreprocessorDiagnostic::InvalidVarName { keyword: "ifdef", at })
            },
        )
    } else if keyword == "#ifndef".spec_bytes() {
        Some(
            if macros::has_name(body) {
                Ok(PreprocessorDirectiveInstruction::IfNotDefined(body))
            } else {
                Err(PreprocessorDiagnostic::InvalidVarName { keyword: "ifndef", at })
            },
        )
    } else if keyword == "#elifdef".spec_bytes() {
        Some(
            if macros::has_name(body) {
                Ok(PreprocessorDirectiveInstruction::ElseIfDefined(body))
            } else {
                Err(PreprocessorDiagnostic::InvalidVarName { keyword: "elifdef", at })
            },
        )
    } else if keyword == "#elifndef".spec_bytes() {
        Some(
            if macros::has_name(body) {
                Ok(PreprocessorDirectiveInstruction::ElseIfNotDefined(body))
            } else {
                Err(PreprocessorDiagnostic::InvalidVarName { keyword: "elifndef", at })
            },
        )
    } else if keyword == "#undef".spec_bytes() {
        Some(
            if macros::has_name(body) {
                Ok(PreprocessorDirectiveInstruction::Undefine(body))
            } else {
                Err(PreprocessorDiagnostic::InvalidVarName { keyword: "undef", at })
            },
        )
    } else {
        None
    }
}

/// What `#error` or `#warning` says, given what its body holds.
pub open spec fn message_directive(
    is_error: bool,
    body: Seq<u8>,
    body_offset: usize,
    parsed: Result<Seq<u8>, Json5Error<Seq<u8>>>,
) -> Result<InstructionModel, DiagnosticModel> {
    match parsed {
        Ok(s) => Ok(
            if is_error {
                PreprocessorDirectiveInstruction::Error(s)
            } else {
                PreprocessorDirectiveInstruction::Warning(s)
            },
        ),
        Err(e) => Err(
            PreprocessorDiagnostic::InvalidString {
                keyword: if is_error {
                    "error"
                } else {
                    "warning"
                },
                cause: e,
                at: json::error_offset(e, body, body_offset) as usize,
            },
        ),
    }
}

/// What a line with a directive says, and the diagnostics that it draws.
pub open spec fn directive_of(b: Seq<u8>, offset: usize) -> (Option<DirectiveModel>, Seq<
    DiagnosticModel,
>) {
    let (k, i, j) = directive_parts(b);
    let keyword = b.subrange(0, k);
    let body = b.subrange(i, j);
    let body_offset = (offset + i) as usize;
    let keyword_span = SourceSpan { offset, len: k as usize };
    let body_span = SourceSpan { offset: body_offset, len: (j - i) as usize };
    if keyword == "#define".spec_bytes() {
        let (define, diags) = macros::defined_by(body, body_offset);
        (
            match define {
                None => None,
                Some(m) => Some(
                    PreprocessorDirective {
                        keyword_span,
                        body_span,
                        instruction: PreprocessorDirectiveInstruction::Define(m),
                    },
                ),
            },
            macro_diagnostics(diags),
        )
    } else {
        let result = if plain_directive(keyword, body, body_offset) is Some {
            plain_directive(keyword, body, body_offset)->0
        } else if keyword == "#error".spec_bytes() {
            message_directive(true, body, body_offset, json::json5_string(body))
        } else if keyword == "#warning".spec_bytes() {
            message_directive(false, body, body_offset, json::json5_string(body))
        } else {
            Err(
                PreprocessorDiagnostic::UnknownDirective {
                    directive: keyword,
                    at: (offset, k as usize),
                },
            )
        };
        match result {
            Ok(instruction) => (
                Some(PreprocessorDirective { keyword_span, body_span, instruction }),
                Seq::empty(),
            ),
            Err(d) => (None, seq![d]),
        }
    }
}

// ---------------------------------------------------------------------------------------------
// Parsing

spec fn instruction_view(r: Result<PreprocessorDirectiveInstruction, PreprocessorDiagnostic>) -> Result<
    InstructionModel,
    DiagnosticModel,
> {
    match r {
        Ok(i) => Ok(i@),
        Err(d) => Err(d@),
    }
}

fn is_keyword(keyword: &str, name: &str) -> (r: bool)
    ensures
        r == (keyword.spec_bytes() == name.spec_bytes()),
{
    text::bytes_eq(keyword.as_bytes(), name.as_bytes())
}

fn parse_plain(keyword: &str, body: &str, body_offset: usize) -> (r: Option<
    Result<PreprocessorDirectiveInstruction, PreprocessorDiagnostic>,
>)
    ensures
        ({
            let p = plain_directive(keyword.spec_bytes(), body.spec_bytes(), body_offset);
            &&& r is Some <==> p is Some
            &&& r matches Some(x) ==> instruction_view(x) == p->0
        }),
{
    let len: usize = body.as_bytes().len();
    let at = (body_offset, len);
    if is_keyword(keyword, "#if") {
        return Some(
            if len > 0 {
                Ok(PreprocessorDirectiveInstruction::If(text::own(body)))
            } else {
                Err(PreprocessorDiagnostic::MissingArgument { keyword: "if", at: body_offset })
            },
        );
    }
    if is_keyword(keyword, "#elif") {
        return Some(
            if len > 0 {
                Ok(PreprocessorDirectiveInstruction::ElseIf(text::own(body)))
            } else {
                Err(PreprocessorDiagnostic::MissingArgument { keyword: "elif", at: body_offset })
            },
        );
    }
    if is_keyword(keyword, "#else") {
        return Some(
            if len == 0 {
                Ok(PreprocessorDirectiveInstruction::Else)
            } else {
                Err(PreprocessorDiagnostic::UnexpectedArgument { keyword: "else", at })
            },
        );
    }
    if is_keyword(keyword, "#endif") {
        return Some(
            if len == 0 {
                Ok(PreprocessorDirectiveInstruction::EndIf)
            } else {
                Err(PreprocessorDiagnostic::UnexpectedArgument { keyword: "endif", at })
            },
        );
    }
    let named = macros::contains_name(body);
    if is_keyword(keyword, "#ifdef") {
        return Some(
            if named {
                Ok(PreprocessorDirectiveInstruction::IfDefined(text::own(body)))
            } else {
                Err(PreprocessorDiagnostic::InvalidVarName { keyword: "ifdef", at })
            },
        );
    }
    if is_keyword(keyword, "#ifndef") {
        return Some(
            if named {
                Ok(PreprocessorDirectiveInstruction::IfNotDefined(text::own(body)))
            } else {
                Err(PreprocessorDiagnostic::InvalidVarName { keyword: "ifndef", at })
            },
        );
    }
    if is_keyword(keyword, "#elifdef") {
        return Some(
            if named {
                Ok(PreprocessorDirectiveInstruction::ElseIfDefined(text::own(body)))
            } else {
                Err(PreprocessorDiagnostic::InvalidVarName { keyword: "elifdef", at })
            },
        );
    }
    if is_keyword(keyword, "#elifndef") {
        return Some(
            if named {
                Ok(PreprocessorDirectiveInstruction::ElseIfNotDefined(text::own(body)))
            } else {
                Err(PreprocessorDiagnostic::InvalidVarName { keyword: "elifndef", at })
            },
        );
    }
    if is_keyword(keyword, "#undef") {
        return Some(
            if named {
                Ok(PreprocessorDirectiveInstruction::Undefine(text::own(body)))
            } else {
                Err(PreprocessorDiagnostic::InvalidVarName { keyword: "undef", at })
            },
        );
    }
    None
}

impl PreprocessorDirectiveInstruction<String, MacroDefine> {
    /// What `#error` or `#warning` says, given what the parser of strings made of its body.
    pub fn from_message(
        is_error: bool,
        body: &str,
        body_offset: usize,
        parsed: Result<String, Json5Error>,
    ) -> (r: Result<Self, PreprocessorDiagnostic>)
        requires
            body_offset + body.spec_bytes().len() <= usize::MAX,
        ensures
            ({
                let m = message_directive(
                    is_error,
                    body.spec_bytes(),
                    body_offset,
                    json::result_view(parsed),
                );
                &&& r matches Ok(i) ==> m == Ok::<InstructionModel, DiagnosticModel>(i@)
                &&& r matches Err(d) ==> m == Err::<InstructionModel, DiagnosticModel>(d@)
            }),
    {
        match parsed {
            Ok(s) => Ok(
                if is_error {
                    PreprocessorDirectiveInstruction::Error(s)
                } else {
                    PreprocessorDirectiveInstruction::Warning(s)
                },
            ),
            Err(cause) => {
                let at = json::json5_error_to_offset(&cause, body, body_offset);
                Err(
                    PreprocessorDiagnostic::InvalidString {
                        keyword: if is_error { "error" } else { "warning" },
                        cause,
                        at,
                    },
                )
            },
        }
    }
}

/// Appends diagnostics about macros to a list.
pub(crate) fn push_macro_diagnostics(
    diags: &mut Vec<PreprocessorDiagnostic>,
    from: &Vec<MacroDiagnostic>,
)
    ensures
        diagnostics(final(diags)@) == diagnostics(old(diags)@) + macro_diagnostics(from@),
        final(diags)@.len() == old(diags)@.len() + from@.len(),
        old(diags)@.is_prefix_of(final(diags)@),
{
    let mut i: usize = 0;
    while i < from.len()
        invariant
            i <= from@.len(),
            diags@.len() == old(diags)@.len() + i,
            forall|k: int| 0 <= k < old(diags)@.len() ==> diags@[k] == old(diags)@[k],
            forall|k: int|
                0 <= k < i ==> #[trigger] diags@[old(diags)@.len() + k]
                    == PreprocessorDiagnostic::<String>::Macro(from@[k]),
        decreases from@.len() - i,
    {
        diags.push(PreprocessorDiagnostic::Macro(from[i]));
        i += 1;
    }
    proof {
        let a = diagnostics(diags@);
        let b = diagnostics(old(diags)@) + macro_diagnostics(from@);
        assert forall|k: int| 0 <= k < a.len() implies a[k] == b[k] by {
            if k >= old(diags)@.len() {
                let j = k - old(diags)@.len();
                assert(diags@[old(diags)@.len() + j] == PreprocessorDiagnostic::<String>::Macro(
                    from@[j],
                ));
            }
        }
        assert(a =~= b);
    }
}

impl PreprocessorDirective<String, MacroDefine> {
    /// Parses a line that starts with `#` and stands at `offset` of the source.
    pub fn parse(line: &str, offset: usize, diags: &mut Vec<PreprocessorDiagnostic>) -> (r: Option<
        Self,
    >)
        requires
            offset + line.spec_bytes().len() <= usize::MAX,
        ensures
            r is Some <==> directive_of(line.spec_bytes(), offset).0 is Some,
            r matches Some(d) ==> d@ == directive_of(line.spec_bytes(), offset).0->0,
            diagnostics(final(diags)@) == diagnostics(old(diags)@) + directive_of(
                line.spec_bytes(),
                offset,
            ).1,
    {
        let b = line.as_bytes();
        let len: usize = b.len();
        proof {
            text::lemma_str_valid(line@);
            text::lemma_find_byte(b@, 0x20, 0, len as int);
        }
        let k = text::byte_position(b, 0x20, 0, len);
        let (i, j) = if k < len {
            text::trim(b, k + 1, len)
        } else {
            (len, len)
        };
        proof {
            if k < len {
                text::lemma_ascii_boundary(b@, k as int);
                text::lemma_trimmed(b@, k + 1, len as int);
            }
            assert(directive_parts(b@) == (k as int, i as int, j as int));
        }
        let keyword = text::slice(line, 0, k);
        let body = text::slice(line, i, j);
        let body_offset: usize = offset + i;
        let keyword_span = SourceSpan { offset, len: k };
        let body_span = SourceSpan { offset: body_offset, len: j - i };
        let ghost whole = directive_of(b@, offset);
        if is_keyword(keyword, "#define") {
            let mut macro_diags: Vec<MacroDiagnostic> = Vec::new();
            let define = MacroDefine::parse(body, body_offset, &mut macro_diags);
            assert(macro_diags@ =~= macros::defined_by(body.spec_bytes(), body_offset).1);
            push_macro_diagnostics(diags, &macro_diags);
            return match define {
                None => None,
                Some(m) => Some(
                    PreprocessorDirective {
                        keyword_span,
                        body_span,
                        instruction: PreprocessorDirectiveInstruction::Define(m),
                    },
                ),
            };
        }
        let result = match parse_plain(keyword, body, body_offset) {
            Some(result) => result,
            None => {
                if is_keyword(keyword, "#error") {
                    PreprocessorDirectiveInstruction::from_message(
                        true,
                        body,
                        body_offset,
                        json::json5_from_str(body),
                    )
                } else if is_keyword(keyword, "#warning") {
                    PreprocessorDirectiveInstruction::from_message(
                        false,
                        body,
                        body_offset,
                        json::json5_from_str(body),
                    )
                } else {
                    Err(
                        PreprocessorDiagnostic::UnknownDirective {
                            directive: text::own(keyword),
                            at: (offset, k),
                        },
                    )
                }
            },
        };
        match result {
            Ok(instruction) => {
                assert(diagnostics(diags@) =~= diagnostics(old(diags)@) + whole.1);
                Some(PreprocessorDirective { keyword_span, body_span, instruction })
            },
            Err(d) => {
                diags.push(d);
                assert(diagnostics(diags@) =~= diagnostics(old(diags)@) + whole.1);
                None
            },
        }
    }
}

} // verus!
