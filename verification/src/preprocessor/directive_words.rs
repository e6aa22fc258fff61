//! What the lines of directives say.

use crate::json;
use crate::preprocessor::directive;
use crate::preprocessor::directive::{
    DiagnosticModel, DirectiveModel, InstructionModel, PreprocessorDiagnostic,
    PreprocessorDirectiveInstruction,
};
use crate::preprocessor::macros;
use crate::text;
use vstd::prelude::*;
use vstd::string::*;

verus! {

/// A keyword, a space and a body.
pub open spec fn line_of(keyword: Seq<u8>, body: Seq<u8>) -> Seq<u8> {
    keyword + seq![0x20u8] + body
}

/// A body that starts and ends with visible ASCII characters.
pub open spec fn is_body(body: Seq<u8>) -> bool {
    body.len() > 0 && 0x21 <= body[0] <= 0x7e && 0x21 <= body.last() <= 0x7e
}

/// A name starts somewhere in a text.
pub open spec fn names_something(body: Seq<u8>) -> bool {
    exists|k: int|
        0 <= k < body.len() && (#[trigger] body[k] == 0x5f || 0x41 <= body[k] <= 0x5a || 0x61
            <= body[k] <= 0x7a)
}

/// A line is read as a directive without a diagnostic. Its keyword is marked with the `#`, and its
/// body behind the space.
pub open spec fn is_read_as(
    keyword: Seq<u8>,
    body: Seq<u8>,
    offset: usize,
    i: InstructionModel,
) -> bool {
    let (d, said) = directive::directive_of(line_of(keyword, body), offset);
    &&& said.len() == 0
    &&& d matches Some(d)
    &&& d.instruction == i
    &&& d.keyword_span.offset == offset && d.keyword_span.len == keyword.len()
    &&& d.body_span.offset == (offset + keyword.len() + 1) as usize && d.body_span.len == body.len()
}

/// A line draws one diagnostic and is no directive.
pub open spec fn is_told(b: Seq<u8>, offset: usize, d: DiagnosticModel) -> bool {
    directive::directive_of(b, offset) == (None::<DirectiveModel>, seq![d])
}

proof fn lemma_parts(keyword: Seq<u8>, body: Seq<u8>)
    requires
        is_body(body),
        forall|k: int| 0 <= k < keyword.len() ==> #[trigger] keyword[k] != 0x20,
    ensures
        ({
            let b = line_of(keyword, body);
            let n = keyword.len() as int;
            &&& directive::directive_parts(b) == (n, n + 1, b.len() as int)
            &&& b.subrange(0, n) == keyword
            &&& b.subrange(n + 1, b.len() as int) == body
        }),
{
    let b = line_of(keyword, body);
    let n = keyword.len() as int;
    let len = b.len() as int;
    text::lemma_find_byte(b, 0x20, 0, len);
    assert(b[n] == 0x20);
    assert forall|k: int| 0 <= k < n implies #[trigger] b[k] != 0x20 by {
        assert(b[k] == keyword[k]);
    }
    assert(b[n + 1] == body[0]);
    assert(b[len - 1] == body.last());
    assert(text::space_width(b, n + 1, len) == 0);
    assert(text::space_width_before(b, n + 1, len) == 0);
    assert(b.subrange(0, n) =~= keyword);
    assert(b.subrange(n + 1, len) =~= body);
}

proof fn lemma_bare(keyword: Seq<u8>)
    requires
        forall|k: int| 0 <= k < keyword.len() ==> #[trigger] keyword[k] != 0x20,
    ensures
        ({
            let n = keyword.len() as int;
            &&& directive::directive_parts(keyword) == (n, n, n)
            &&& keyword.subrange(0, n) == keyword
            &&& keyword.subrange(n, n) == Seq::<u8>::empty()
        }),
{
    let n = keyword.len() as int;
    text::lemma_find_byte(keyword, 0x20, 0, n);
    assert(keyword.subrange(0, n) =~= keyword);
    assert(keyword.subrange(n, n) =~= Seq::<u8>::empty());
}

proof fn lemma_keywords()
    ensures
        "#if".spec_bytes() == seq![0x23u8, 0x69, 0x66],
        "#elif".spec_bytes() == seq![0x23u8, 0x65, 0x6c, 0x69, 0x66],
        "#else".spec_bytes() == seq![0x23u8, 0x65, 0x6c, 0x73, 0x65],
        "#endif".spec_bytes() == seq![0x23u8, 0x65, 0x6e, 0x64, 0x69, 0x66],
        "#ifdef".spec_bytes() == seq![0x23u8, 0x69, 0x66, 0x64, 0x65, 0x66],
        "#ifndef".spec_bytes() == seq![0x23u8, 0x69, 0x66, 0x6e, 0x64, 0x65, 0x66],
        "#elifdef".spec_bytes() == seq![0x23u8, 0x65, 0x6c, 0x69, 0x66, 0x64, 0x65, 0x66],
        "#elifndef".spec_bytes() == seq![0x23u8, 0x65, 0x6c, 0x69, 0x66, 0x6e, 0x64, 0x65, 0x66],
        "#define".spec_bytes() == seq![0x23u8, 0x64, 0x65, 0x66, 0x69, 0x6e, 0x65],
        "#undef".spec_bytes() == seq![0x23u8, 0x75, 0x6e, 0x64, 0x65, 0x66],
        "#error".spec_bytes() == seq![0x23u8, 0x65, 0x72, 0x72, 0x6f, 0x72],
        "#warning".spec_bytes() == seq![0x23u8, 0x77, 0x61, 0x72, 0x6e, 0x69, 0x6e, 0x67],
{
    reveal_strlit("#if");
    is_ascii_spec_bytes("#if");
    assert("#if".spec_bytes() =~= seq![0x23u8, 0x69, 0x66]);
    reveal_strlit("#elif");
    is_ascii_spec_bytes("#elif");
    assert("#elif".spec_bytes() =~= seq![0x23u8, 0x65, 0x6c, 0x69, 0x66]);
    reveal_strlit("#else");
    is_ascii_spec_bytes("#else");
    assert("#else".spec_bytes() =~= seq![0x23u8, 0x65, 0x6c, 0x73, 0x65]);
    reveal_strlit("#endif");
    is_ascii_spec_bytes("#endif");
    assert("#endif".spec_bytes() =~= seq![0x23u8, 0x65, 0x6e, 0x64, 0x69, 0x66]);
    reveal_strlit("#ifdef");
    is_ascii_spec_bytes("#ifdef");
    assert("#ifdef".spec_bytes() =~= seq![0x23u8, 0x69, 0x66, 0x64, 0x65, 0x66]);
    reveal_strlit("#ifndef");
    is_ascii_spec_bytes("#ifndef");
    assert("#ifndef".spec_bytes() =~= seq![0x23u8, 0x69, 0x66, 0x6e, 0x64, 0x65, 0x66]);
    reveal_strlit("#elifdef");
    is_ascii_spec_bytes("#elifdef");
    assert("#elifdef".spec_bytes() =~= seq![0x23u8, 0x65, 0x6c, 0x69, 0x66, 0x64, 0x65, 0x66]);
    reveal_strlit("#elifndef");
    is_ascii_spec_bytes("#elifndef");
    assert("#elifndef".spec_bytes() =~= seq![0x23u8, 0x65, 0x6c, 0x69, 0x66, 0x6e, 0x64, 0x65, 0x66]);
    reveal_strlit("#define");
    is_ascii_spec_bytes("#define");
    assert("#define".spec_bytes() =~= seq![0x23u8, 0x64, 0x65, 0x66, 0x69, 0x6e, 0x65]);
    reveal_strlit("#undef");
    is_ascii_spec_bytes("#undef");
    assert("#undef".spec_bytes() =~= seq![0x23u8, 0x75, 0x6e, 0x64, 0x65, 0x66]);
    reveal_strlit("#error");
    is_ascii_spec_bytes("#error");
    assert("#error".spec_bytes() =~= seq![0x23u8, 0x65, 0x72, 0x72, 0x6f, 0x72]);
    reveal_strlit("#warning");
    is_ascii_spec_bytes("#warning");
    assert("#warning".spec_bytes() =~= seq![0x23u8, 0x77, 0x61, 0x72, 0x6e, 0x69, 0x6e, 0x67]);
}

/// `#if` and `#elif` take an expression and draw a diagnostic without one.
#[verifier::spinoff_prover]
#[verifier::rlimit(50)]
pub proof fn law_if_lines(body: Seq<u8>, offset: usize)
    requires
        is_body(body),
        offset + body.len() + 16 <= usize::MAX,
    ensures
        is_read_as(
            "#if".spec_bytes(),
            body,
            offset,
            PreprocessorDirectiveInstruction::If(body),
        ),
        is_read_as(
            "#elif".spec_bytes(),
            body,
            offset,
            PreprocessorDirectiveInstruction::ElseIf(body),
        ),
        is_told(
            "#if".spec_bytes(),
            offset,
            PreprocessorDiagnostic::MissingArgument { keyword: "if", at: (offset + 3) as usize },
        ),
        is_told(
            "#elif".spec_bytes(),
            offset,
            PreprocessorDiagnostic::MissingArgument { keyword: "elif", at: (offset + 5) as usize },
        ),
{
    lemma_keywords();
    lemma_parts("#if".spec_bytes(), body);
    lemma_parts("#elif".spec_bytes(), body);
    lemma_bare("#if".spec_bytes());
    lemma_bare("#elif".spec_bytes());
}

/// `#else` and `#endif` take nothing and draw a diagnostic with something behind them.
#[verifier::spinoff_prover]
#[verifier::rlimit(50)]
pub proof fn law_bare_lines(body: Seq<u8>, offset: usize)
    requires
        is_body(body),
        offset + body.len() + 16 <= usize::MAX,
    ensures
        directive::directive_of("#else".spec_bytes(), offset).0 matches Some(d) && d.instruction
            is Else && directive::directive_of("#else".spec_bytes(), offset).1.len() == 0,
        directive::directive_of("#endif".spec_bytes(), offset).0 matches Some(d) && d.instruction
            is EndIf && directive::directive_of("#endif".spec_bytes(), offset).1.len() == 0,
        is_told(
            line_of("#else".spec_bytes(), body),
            offset,
            PreprocessorDiagnostic::UnexpectedArgument {
                keyword: "else",
                at: ((offset + 6) as usize, body.len() as usize),
            },
        ),
        is_told(
            line_of("#endif".spec_bytes(), body),
            offset,
            PreprocessorDiagnostic::UnexpectedArgument {
                keyword: "endif",
                at: ((offset + 7) as usize, body.len() as usize),
            },
        ),
{
    lemma_keywords();
    lemma_parts("#else".spec_bytes(), body);
    lemma_parts("#endif".spec_bytes(), body);
    lemma_bare("#else".spec_bytes());
    lemma_bare("#endif".spec_bytes());
}

/// `#ifdef` takes the name of a macro and draws a diagnostic where none starts in what follows it.
#[verifier::spinoff_prover]
#[verifier::rlimit(50)]
pub proof fn law_ifdef_lines(body: Seq<u8>, offset: usize)
    requires
        is_body(body),
        offset + body.len() + 16 <= usize::MAX,
    ensures
        names_something(body) ==> is_read_as(
            "#ifdef".spec_bytes(),
            body,
            offset,
            PreprocessorDirectiveInstruction::IfDefined(body),
        ),
        !names_something(body) ==> is_told(
            line_of("#ifdef".spec_bytes(), body),
            offset,
            PreprocessorDiagnostic::InvalidVarName {
                keyword: "ifdef",
                at: ((offset + 7) as usize, body.len() as usize),
            },
        ),
{
    lemma_keywords();
    lemma_parts("#ifdef".spec_bytes(), body);
    lemma_names(body);
}

/// `#ifndef` takes the name of a macro and draws a diagnostic where none starts in what follows it.
#[verifier::spinoff_prover]
#[verifier::rlimit(50)]
pub proof fn law_ifndef_lines(body: Seq<u8>, offset: usize)
    requires
        is_body(body),
        offset + body.len() + 16 <= usize::MAX,
    ensures
        names_something(body) ==> is_read_as(
            "#ifndef".spec_bytes(),
            body,
            offset,
            PreprocessorDirectiveInstruction::IfNotDefined(body),
        ),
        !names_something(body) ==> is_told(
            line_of("#ifndef".spec_bytes(), body),
            offset,
            PreprocessorDiagnostic::InvalidVarName {
                keyword: "ifndef",
                at: ((offset + 8) as usize, body.len() as usize),
            },
        ),
{
    lemma_keywords();
    lemma_parts("#ifndef".spec_bytes(), body);
    lemma_names(body);
}

/// `#elifdef` takes the name of a macro and draws a diagnostic where none starts in what follows it.
#[verifier::spinoff_prover]
#[verifier::rlimit(50)]
pub proof fn law_elifdef_lines(body: Seq<u8>, offset: usize)
    requires
        is_body(body),
        offset + body.len() + 16 <= usize::MAX,
    ensures
        names_something(body) ==> is_read_as(
            "#elifdef".spec_bytes(),
            body,
            offset,
            PreprocessorDirectiveInstruction::ElseIfDefined(body),
        ),
        !names_something(body) ==> is_told(
            line_of("#elifdef".spec_bytes(), body),
            offset,
            PreprocessorDiagnostic::InvalidVarName {
                keyword: "elifdef",
                at: ((offset + 9) as usize, body.len() as usize),
            },
        ),
{
    lemma_keywords();
    lemma_parts("#elifdef".spec_bytes(), body);
    lemma_names(body);
}

/// `#elifndef` takes the name of a macro and draws a diagnostic where none starts in what follows it.
#[verifier::spinoff_prover]
#[verifier::rlimit(50)]
pub proof fn law_elifndef_lines(body: Seq<u8>, offset: usize)
    requires
        is_body(body),
        offset + body.len() + 16 <= usize::MAX,
    ensures
        names_something(body) ==> is_read_as(
            "#elifndef".spec_bytes(),
            body,
            offset,
            PreprocessorDirectiveInstruction::ElseIfNotDefined(body),
        ),
        !names_something(body) ==> is_told(
            line_of("#elifndef".spec_bytes(), body),
            offset,
            PreprocessorDiagnostic::InvalidVarName {
                keyword: "elifndef",
                at: ((offset + 10) as usize, body.len() as usize),
            },
        ),
{
    lemma_keywords();
    lemma_parts("#elifndef".spec_bytes(), body);
    lemma_names(body);
}

/// `#undef` takes the name of a macro and draws a diagnostic where none starts in what follows it.
#[verifier::spinoff_prover]
#[verifier::rlimit(50)]
pub proof fn law_undef_lines(body: Seq<u8>, offset: usize)
    requires
        is_body(body),
        offset + body.len() + 16 <= usize::MAX,
    ensures
        names_something(body) ==> is_read_as(
            "#undef".spec_bytes(),
            body,
            offset,
            PreprocessorDirectiveInstruction::Undefine(body),
        ),
        !names_something(body) ==> is_told(
            line_of("#undef".spec_bytes(), body),
            offset,
            PreprocessorDiagnostic::InvalidVarName {
                keyword: "undef",
                at: ((offset + 7) as usize, body.len() as usize),
            },
        ),
{
    lemma_keywords();
    lemma_parts("#undef".spec_bytes(), body);
    lemma_names(body);
}

proof fn lemma_names(body: Seq<u8>)
    ensures
        names_something(body) <==> macros::has_name(body),
{
    if names_something(body) {
        let k = choose|k: int|
            0 <= k < body.len() && (#[trigger] body[k] == 0x5f || 0x41 <= body[k] <= 0x5a || 0x61
                <= body[k] <= 0x7a);
        assert(text::is_name_start(body[k]));
    }
    if macros::has_name(body) {
        let k = choose|k: int| 0 <= k < body.len() && text::is_name_start(#[trigger] body[k]);
        assert(body[k] == 0x5f || 0x41 <= body[k] <= 0x5a || 0x61 <= body[k] <= 0x7a);
    }
}

/// `#define` takes the text of a macro, at the place behind its space.
#[verifier::spinoff_prover]
#[verifier::rlimit(50)]
pub proof fn law_define_lines(body: Seq<u8>, offset: usize)
    requires
        is_body(body),
        offset + body.len() + 16 <= usize::MAX,
    ensures
        ({
            let (m, said) = macros::defined_by(body, (offset + 8) as usize);
            let (d, told) = directive::directive_of(
                line_of("#define".spec_bytes(), body),
                offset,
            );
            &&& d is Some <==> m is Some
            &&& d matches Some(d) ==> d.instruction == InstructionModel::Define(m->0)
            &&& told.len() == said.len()
            &&& forall|k: int|
                0 <= k < said.len() ==> #[trigger] told[k] == DiagnosticModel::Macro(said[k])
        }),
{
    lemma_keywords();
    lemma_parts("#define".spec_bytes(), body);
}

/// `#error` and `#warning` take a string.
#[verifier::spinoff_prover]
#[verifier::rlimit(50)]
pub proof fn law_message_lines(body: Seq<u8>, offset: usize, s: Seq<u8>)
    requires
        is_body(body),
        offset + body.len() + 16 <= usize::MAX,
        json::json5_string(body) == Ok::<Seq<u8>, json::Json5Error<Seq<u8>>>(s),
    ensures
        is_read_as(
            "#error".spec_bytes(),
            body,
            offset,
            PreprocessorDirectiveInstruction::Error(s),
        ),
        is_read_as(
            "#warning".spec_bytes(),
            body,
            offset,
            PreprocessorDirectiveInstruction::Warning(s),
        ),
{
    lemma_keywords();
    lemma_parts("#error".spec_bytes(), body);
    lemma_parts("#warning".spec_bytes(), body);
}

} // verus!
