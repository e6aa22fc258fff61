//! What each directive does to the macros and to the blocks that are open.

use crate::preprocessor::directive;
use crate::preprocessor::directive::{
    DiagnosticModel, DirectiveModel, PreprocessorDiagnostic, PreprocessorDirectiveInstruction,
};
use crate::preprocessor::expr;
use crate::preprocessor::macros;
use crate::preprocessor::macros::{MacroDiagnostic, MacroModel};
use crate::preprocessor::state;
use crate::preprocessor::state::{ActivityState, StateModel};
use vstd::prelude::*;

verus! {

// ---------------------------------------------------------------------------------------------
// Macros

/// `#define` makes a macro what it says, whatever the macro was before, and leaves the other
/// macros and the blocks alone. It draws a diagnostic exactly where there was one of that name,
/// with the place of the old one.
pub proof fn law_define(st: StateModel, d: DirectiveModel, m: MacroModel, other: Seq<u8>)
    requires
        d.instruction == PreprocessorDirectiveInstruction::<Seq<u8>, MacroModel>::Define(m),
    ensures
        state::executed(st, d) matches Some((after, said)) && {
            &&& after.activity == st.activity
            &&& after.defines.contains_key(m.name) && after.defines[m.name] == m
            &&& other != m.name ==> {
                &&& after.defines.contains_key(other) == st.defines.contains_key(other)
                &&& st.defines.contains_key(other) ==> after.defines[other] == st.defines[other]
            }
            &&& !st.defines.contains_key(m.name) ==> said.len() == 0
            &&& st.defines.contains_key(m.name) ==> said.len() == 1 && (said[0] matches
                PreprocessorDiagnostic::DuplicateDefine { name, at, original } && {
                let was = st.defines[m.name].declaration_range;
                &&& name == st.defines[m.name].name
                &&& original.offset == was.0 && original.len == was.1
                &&& at.offset <= d.keyword_span.offset && at.offset <= m.declaration_range.0
                &&& at.offset == d.keyword_span.offset || at.offset == m.declaration_range.0
            })
        },
{
}

/// `#undef` takes away the macro of that name and nothing else, and says nothing.
pub proof fn law_undefine(st: StateModel, d: DirectiveModel, name: Seq<u8>, other: Seq<u8>)
    requires
        d.instruction == PreprocessorDirectiveInstruction::<Seq<u8>, MacroModel>::Undefine(name),
    ensures
        state::executed(st, d) matches Some((after, said)) && {
            &&& said.len() == 0
            &&& after.activity == st.activity
            &&& after.defines.contains_key(other) <==> other != name && st.defines.contains_key(
                other,
            )
            &&& after.defines.contains_key(other) ==> after.defines[other] == st.defines[other]
        },
{
}

/// `#define` and the `#undef` of the same name leave a name that was not defined as it was.
pub proof fn law_define_then_undefine(
    st: StateModel,
    d: DirectiveModel,
    u: DirectiveModel,
    m: MacroModel,
)
    requires
        d.instruction == PreprocessorDirectiveInstruction::<Seq<u8>, MacroModel>::Define(m),
        u.instruction == PreprocessorDirectiveInstruction::<Seq<u8>, MacroModel>::Undefine(m.name),
        !st.defines.contains_key(m.name),
    ensures
        state::executed(st, d) matches Some((mid, _)) && state::executed(mid, u) == Some(
            (st, Seq::<DiagnosticModel>::empty()),
        ),
{
    let mid = (state::executed(st, d)->0).0;
    let after = (state::executed(mid, u)->0).0;
    assert(after.defines =~= st.defines);
    assert(after =~= st);
}

/// `#warning` and `#error` say their message at its place and change nothing.
pub proof fn law_messages(st: StateModel, d: DirectiveModel, message: Seq<u8>)
    ensures
        d.instruction == PreprocessorDirectiveInstruction::<Seq<u8>, MacroModel>::Warning(message)
            ==> state::executed(st, d) == Some(
            (
                st,
                seq![
                    PreprocessorDiagnostic::<Seq<u8>>::UserWarning { message, at: d.body_span },
                ],
            ),
        ),
        d.instruction == PreprocessorDirectiveInstruction::<Seq<u8>, MacroModel>::Error(message)
            ==> state::executed(st, d) == Some(
            (
                st,
                seq![PreprocessorDiagnostic::<Seq<u8>>::UserError { message, at: d.body_span }],
            ),
        ),
{
}

// ---------------------------------------------------------------------------------------------
// Blocks

/// The condition of `#ifdef` and its like is whether the macro is defined, that of `#ifndef` and
/// its like whether it is not, so of the two on the same name exactly one holds.
pub proof fn law_defined_conditions(
    defines: Map<Seq<u8>, MacroModel>,
    name: Seq<u8>,
    offset: usize,
)
    ensures
        ({
            let yes = Some((defines.contains_key(name), Seq::<DiagnosticModel>::empty()));
            let no = Some((!defines.contains_key(name), Seq::<DiagnosticModel>::empty()));
            &&& state::resolved(
                defines,
                PreprocessorDirectiveInstruction::IfDefined(name),
                offset,
            ) == yes
            &&& state::resolved(
                defines,
                PreprocessorDirectiveInstruction::ElseIfDefined(name),
                offset,
            ) == yes
            &&& state::resolved(
                defines,
                PreprocessorDirectiveInstruction::IfNotDefined(name),
                offset,
            ) == no
            &&& state::resolved(
                defines,
                PreprocessorDirectiveInstruction::ElseIfNotDefined(name),
                offset,
            ) == no
        }),
{
}

/// The condition of `#if` and `#elif` is the value of the expression with its macros expanded: it
/// holds where that is not 0. An expression that is wrong does not hold and is told; what is said
/// about its macros comes first.
pub proof fn law_expression_conditions(
    defines: Map<Seq<u8>, MacroModel>,
    s: Seq<u8>,
    offset: usize,
    t: Seq<u8>,
    offsets: Seq<usize>,
    said: Seq<MacroDiagnostic>,
)
    requires
        macros::expand_all(defines, s, offset) == Some((t, offsets, said)),
    ensures
        ({
            let i = state::resolved(defines, PreprocessorDirectiveInstruction::If(s), offset);
            let e = state::resolved(defines, PreprocessorDirectiveInstruction::ElseIf(s), offset);
            let told = directive::macro_diagnostics(said);
            &&& i == e
            &&& match expr::evaluated(t, offsets, defines.dom()) {
                Some(Ok(v)) => i == Some((v != 0, told)),
                Some(Err(d)) => i matches Some((holds, more)) && !holds && more.len() == told.len()
                    + 1 && more.drop_last() == told && more.last() == DiagnosticModel::Expr(d),
                None => i is None,
            }
        }),
{
    let i = state::resolved(defines, PreprocessorDirectiveInstruction::If(s), offset);
    if i is Some {
        let told = directive::macro_diagnostics(said);
        let more = (i->0).1;
        if more.len() > told.len() {
            assert(more.drop_last() =~= told);
        }
    }
}

/// A directive that belongs to a block.
pub open spec fn is_inner(d: DirectiveModel) -> bool {
    d.instruction is ElseIf || d.instruction is ElseIfDefined || d.instruction is ElseIfNotDefined
        || d.instruction is Else || d.instruction is EndIf
}

/// Outside of any block, a directive that belongs to one is told by its keyword and changes
/// nothing.
pub proof fn law_outside_of_blocks(st: StateModel, d: DirectiveModel)
    requires
        st.activity.len() > 0,
        st.activity.last() is Root,
        is_inner(d),
    ensures
        state::executed(st, d) == Some(
            (
                st,
                seq![
                    PreprocessorDiagnostic::<Seq<u8>>::MissingIf {
                        keyword: d.instruction.spec_keyword(),
                        at: d.keyword_span,
                    },
                ],
            ),
        ),
{
}

/// Whatever a directive does, it opens one level, closes the last one, or turns the last one into
/// another; the levels outside of it and, where it is about blocks, the macros stay.
pub proof fn law_levels(st: StateModel, d: DirectiveModel)
    requires
        st.nested(),
        state::executed(st, d) is Some,
    ensures
        ({
            let (after, said) = state::executed(st, d)->0;
            let n = st.activity.len() as int;
            let inside = !(st.activity.last() is Root);
            let opener = d.instruction is If || d.instruction is IfDefined || d.instruction
                is IfNotDefined;
            &&& opener ==> after.activity.len() == n + 1 && after.activity.drop_last()
                == st.activity && !(after.activity.last() is Root)
            &&& d.instruction is EndIf && inside ==> after.activity == st.activity.drop_last()
                && said.len() == 0
            &&& is_inner(d) && !(d.instruction is EndIf) && inside ==> after.activity.len() == n
                && after.activity.drop_last() == st.activity.drop_last() && !(after.activity.last()
                is Root)
            &&& !opener && !is_inner(d) ==> after.activity == st.activity
            &&& opener || is_inner(d) ==> after.defines == st.defines
        }),
{
    let (after, said) = state::executed(st, d)->0;
    if after.activity.len() == st.activity.len() + 1 {
        assert(after.activity.drop_last() =~= st.activity);
    }
    if after.activity.len() == st.activity.len() {
        assert(after.activity.drop_last() =~= st.activity.drop_last());
    }
}

/// The block of a level is told by the last directive of it: its keyword and its place.
pub proof fn law_level_names_directive(st: StateModel, d: DirectiveModel)
    requires
        st.nested(),
        state::executed(st, d) is Some,
        d.instruction is If || d.instruction is IfDefined || d.instruction is IfNotDefined || (
        is_inner(d) && !(d.instruction is EndIf) && !(st.activity.last() is Root)),
    ensures
        ({
            let level = (state::executed(st, d)->0).0.activity.last();
            &&& level.block().keyword == d.instruction.spec_keyword()
            &&& level.block().keyword_span == d.keyword_span
        }),
{
}

/// At the end of a source every level but the root draws a diagnostic with the keyword and the
/// place of its directive, the innermost one first, and nothing else does.
pub proof fn law_unterminated(st: StateModel, k: int)
    requires
        st.nested(),
    ensures
        state::unterminated(st.activity).len() == st.activity.len() - 1,
        0 <= k < st.activity.len() - 1 ==> {
            let level = st.activity[st.activity.len() - 1 - k];
            state::unterminated(st.activity)[k] == (PreprocessorDiagnostic::<
                Seq<u8>,
            >::Unterminated { keyword: level.block().keyword, at: level.block().keyword_span })
        },
{
    lemma_unterminated(st.activity, k);
}

proof fn lemma_unterminated(a: Seq<ActivityState>, k: int)
    requires
        a.len() > 0,
        forall|i: int| 0 <= i < a.len() ==> ((#[trigger] a[i]) is Root <==> i == 0),
    ensures
        state::unterminated(a).len() == a.len() - 1,
        0 <= k < a.len() - 1 ==> {
            let level = a[a.len() - 1 - k];
            state::unterminated(a)[k] == (PreprocessorDiagnostic::<Seq<u8>>::Unterminated {
                keyword: level.block().keyword,
                at: level.block().keyword_span,
            })
        },
    decreases a.len(),
{
    if a.len() > 1 {
        assert(a[a.len() - 1] is Root <==> a.len() - 1 == 0);
        lemma_unterminated(a.drop_last(), k - 1);
    } else {
        assert(a[0] is Root);
    }
}

} // verus!
