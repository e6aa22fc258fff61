//! What holds of directives and of the blocks that they make.

use crate::preprocessor::directive;
use crate::preprocessor::directive::{
    DiagnosticModel, DirectiveModel, InstructionModel, PreprocessorDirectiveInstruction,
};
use crate::preprocessor::state;
use crate::preprocessor::state::StateModel;
use crate::text;
use vstd::prelude::*;
use vstd::string::*;

verus! {

// ---------------------------------------------------------------------------------------------
// Keywords

/// The directives are of the same sort.
pub open spec fn same_sort(a: InstructionModel, b: InstructionModel) -> bool {
    match a {
        PreprocessorDirectiveInstruction::If(_) => b is If,
        PreprocessorDirectiveInstruction::ElseIf(_) => b is ElseIf,
        PreprocessorDirectiveInstruction::Else => b is Else,
        PreprocessorDirectiveInstruction::EndIf => b is EndIf,
        PreprocessorDirectiveInstruction::IfDefined(_) => b is IfDefined,
        PreprocessorDirectiveInstruction::IfNotDefined(_) => b is IfNotDefined,
        PreprocessorDirectiveInstruction::ElseIfDefined(_) => b is ElseIfDefined,
        PreprocessorDirectiveInstruction::ElseIfNotDefined(_) => b is ElseIfNotDefined,
        PreprocessorDirectiveInstruction::Define(_) => b is Define,
        PreprocessorDirectiveInstruction::Undefine(_) => b is Undefine,
        PreprocessorDirectiveInstruction::Error(_) => b is Error,
        PreprocessorDirectiveInstruction::Warning(_) => b is Warning,
    }
}

/// Directives of different sorts have different keywords.
pub proof fn law_keywords_differ(a: InstructionModel, b: InstructionModel)
    ensures
        a.spec_keyword()@ == b.spec_keyword()@ <==> same_sort(a, b),
{
    reveal_strlit("if");
    reveal_strlit("elif");
    reveal_strlit("else");
    reveal_strlit("endif");
    reveal_strlit("ifdef");
    reveal_strlit("ifndef");
    reveal_strlit("elifdef");
    reveal_strlit("elifndef");
    reveal_strlit("define");
    reveal_strlit("undef");
    reveal_strlit("error");
    reveal_strlit("warning");
    let x = a.spec_keyword()@;
    let y = b.spec_keyword()@;
    if x.len() == y.len() && !same_sort(a, b) {
        assert(x[0] != y[0] || x[1] != y[1] || x[2] != y[2]);
    }
}

proof fn lemma_marked(word: &'static str, marked: &'static str)
    requires
        word.is_ascii(),
        marked.is_ascii(),
        marked@ =~= seq!['#'] + word@,
    ensures
        marked.spec_bytes() == seq![0x23u8] + word.spec_bytes(),
{
    is_ascii_spec_bytes(marked);
    is_ascii_spec_bytes(word);
    assert(marked.spec_bytes() =~= seq![0x23u8] + word.spec_bytes()) by {
        assert forall|k: int| 1 <= k < marked@.len() implies marked.spec_bytes()[k]
            == word.spec_bytes()[k - 1] by {
            assert(marked@[k] == word@[k - 1]);
        }
    }
}

proof fn lemma_all_marked()
    ensures
        "#if".spec_bytes() == seq![0x23u8] + "if".spec_bytes(),
        "#elif".spec_bytes() == seq![0x23u8] + "elif".spec_bytes(),
        "#else".spec_bytes() == seq![0x23u8] + "else".spec_bytes(),
        "#endif".spec_bytes() == seq![0x23u8] + "endif".spec_bytes(),
        "#ifdef".spec_bytes() == seq![0x23u8] + "ifdef".spec_bytes(),
        "#ifndef".spec_bytes() == seq![0x23u8] + "ifndef".spec_bytes(),
        "#elifdef".spec_bytes() == seq![0x23u8] + "elifdef".spec_bytes(),
        "#elifndef".spec_bytes() == seq![0x23u8] + "elifndef".spec_bytes(),
        "#define".spec_bytes() == seq![0x23u8] + "define".spec_bytes(),
        "#undef".spec_bytes() == seq![0x23u8] + "undef".spec_bytes(),
        "#error".spec_bytes() == seq![0x23u8] + "error".spec_bytes(),
        "#warning".spec_bytes() == seq![0x23u8] + "warning".spec_bytes(),
{
    reveal_strlit("if");
    reveal_strlit("#if");
    lemma_marked("if", "#if");
    reveal_strlit("elif");
    reveal_strlit("#elif");
    lemma_marked("elif", "#elif");
    reveal_strlit("else");
    reveal_strlit("#else");
    lemma_marked("else", "#else");
    reveal_strlit("endif");
    reveal_strlit("#endif");
    lemma_marked("endif", "#endif");
    reveal_strlit("ifdef");
    reveal_strlit("#ifdef");
    lemma_marked("ifdef", "#ifdef");
    reveal_strlit("ifndef");
    reveal_strlit("#ifndef");
    lemma_marked("ifndef", "#ifndef");
    reveal_strlit("elifdef");
    reveal_strlit("#elifdef");
    lemma_marked("elifdef", "#elifdef");
    reveal_strlit("elifndef");
    reveal_strlit("#elifndef");
    lemma_marked("elifndef", "#elifndef");
    reveal_strlit("define");
    reveal_strlit("#define");
    lemma_marked("define", "#define");
    reveal_strlit("undef");
    reveal_strlit("#undef");
    lemma_marked("undef", "#undef");
    reveal_strlit("error");
    reveal_strlit("#error");
    lemma_marked("error", "#error");
    reveal_strlit("warning");
    reveal_strlit("#warning");
    lemma_marked("warning", "#warning");
}

proof fn lemma_plain_keyword(keyword: Seq<u8>, body: Seq<u8>, body_offset: usize)
    ensures
        directive::plain_directive(keyword, body, body_offset) matches Some(Ok(i)) ==> seq![0x23u8]
            + i.spec_keyword().spec_bytes() == keyword,
{
    lemma_all_marked();
}

/// The keyword of a directive, behind a `#`, is what stands on its line before the first space,
/// or the whole line where there is no space.
#[verifier::spinoff_prover]
#[verifier::rlimit(100)]
pub proof fn law_keyword_is_first_word(b: Seq<u8>, offset: usize)
    ensures
        directive::directive_of(b, offset).0 matches Some(d) ==> seq![0x23u8]
            + d.instruction.spec_keyword().spec_bytes() == b.subrange(
            0,
            text::find_byte(b, 0x20, 0, b.len() as int),
        ),
{
    let (k, i, j) = directive::directive_parts(b);
    let mark = seq![0x23u8];
    text::lemma_find_byte(b, 0x20, 0, b.len() as int);
    assert("#define".spec_bytes() == mark + "define".spec_bytes() && "#error".spec_bytes() == mark
        + "error".spec_bytes() && "#warning".spec_bytes() == mark + "warning".spec_bytes()) by {
        lemma_all_marked();
    }
    lemma_plain_keyword(b.subrange(0, k), b.subrange(i, j), (offset + i) as usize);
}

// ---------------------------------------------------------------------------------------------
// Blocks

/// The state after some directives, and the diagnostics that they draw; `None` where one of them
/// needs a condition that cannot be told.
pub open spec fn all_executed(st: StateModel, ds: Seq<DirectiveModel>) -> Option<
    (StateModel, Seq<DiagnosticModel>),
>
    decreases ds.len(),
{
    if ds.len() == 0 {
        Some((st, Seq::empty()))
    } else {
        match all_executed(st, ds.drop_last()) {
            None => None,
            Some((before, said)) => match state::executed(before, ds.last()) {
                None => None,
                Some((after, diags)) => Some((after, said + diags)),
            },
        }
    }
}

/// One of the first `k` conditions holds.
pub open spec fn one_holds(conditions: Seq<bool>, k: int) -> bool {
    exists|j: int| 0 <= j < k && #[trigger] conditions[j]
}

/// The directives open a block and start further branches of it, and each of their conditions can
/// be told without a diagnostic.
pub open spec fn is_chain(
    st: StateModel,
    ds: Seq<DirectiveModel>,
    conditions: Seq<bool>,
) -> bool {
    &&& ds.len() > 0
    &&& ds.len() == conditions.len()
    &&& state::opens_block(ds[0].instruction)
    &&& forall|k: int| 0 < k < ds.len() ==> state::continues_block((#[trigger] ds[k]).instruction)
    &&& forall|k: int|
        0 <= k < ds.len() ==> state::resolved(
            st.defines,
            (#[trigger] ds[k]).instruction,
            ds[k].body_span.offset,
        ) == Some((conditions[k], Seq::<DiagnosticModel>::empty()))
}

/// What holds behind the branch `k` of a block: it counts just when its condition holds and none
/// before it does.
spec fn in_branch(st: StateModel, after: StateModel, conditions: Seq<bool>, k: int) -> bool {
    let level = after.activity.last();
    &&& after.defines == st.defines
    &&& after.activity.len() == st.activity.len() + 1
    &&& after.activity.drop_last() == st.activity
    &&& level is ResolvedTrue <==> conditions[k] && !one_holds(conditions, k)
    &&& level is ResolvedFalse <==> !one_holds(conditions, k + 1)
    &&& !(level is Root)
}

proof fn lemma_opening(st: StateModel, d: DirectiveModel, holds: bool)
    requires
        st.active(),
        state::opens_block(d.instruction),
        state::resolved(st.defines, d.instruction, d.body_span.offset) == Some(
            (holds, Seq::<DiagnosticModel>::empty()),
        ),
    ensures
        state::executed(st, d) matches Some((after, said)) && said.len() == 0 && after.defines
            == st.defines && after.activity.len() == st.activity.len() + 1
            && after.activity.drop_last() == st.activity && (if holds {
            after.activity.last() is ResolvedTrue
        } else {
            after.activity.last() is ResolvedFalse
        }),
{
    let after = (state::executed(st, d)->0).0;
    assert(after.activity.drop_last() =~= st.activity);
}

proof fn lemma_continuing(st: StateModel, d: DirectiveModel, holds: bool)
    requires
        st.activity.len() > 0,
        !(st.activity.last() is Root),
        state::continues_block(d.instruction),
        state::resolved(st.defines, d.instruction, d.body_span.offset) == Some(
            (holds, Seq::<DiagnosticModel>::empty()),
        ),
    ensures
        state::executed(st, d) matches Some((after, said)) && said.len() == 0 && after.defines
            == st.defines && after.activity.len() == st.activity.len()
            && after.activity.drop_last() == st.activity.drop_last() && (if !(
        st.activity.last() is ResolvedFalse) {
            after.activity.last() is InactivePendingEndif
        } else if holds {
            after.activity.last() is ResolvedTrue
        } else {
            after.activity.last() is ResolvedFalse
        }),
{
    let after = (state::executed(st, d)->0).0;
    assert(after.activity.drop_last() =~= st.activity.drop_last());
}

proof fn lemma_one_more(conditions: Seq<bool>, k: int)
    requires
        0 <= k < conditions.len(),
    ensures
        one_holds(conditions, k + 1) == (one_holds(conditions, k) || conditions[k]),
{
    if conditions[k] {
        assert(0 <= k < k + 1 && conditions[k]);
    }
    if one_holds(conditions, k) {
        let j = choose|j: int| 0 <= j < k && #[trigger] conditions[j];
        assert(0 <= j < k + 1 && conditions[j]);
    }
}

proof fn lemma_executed_last(st: StateModel, ds: Seq<DirectiveModel>, k: int)
    requires
        0 <= k < ds.len(),
    ensures
        all_executed(st, ds.subrange(0, k + 1)) == (match all_executed(st, ds.subrange(0, k)) {
            None => None,
            Some((before, said)) => match state::executed(before, ds[k]) {
                None => None,
                Some((after, diags)) => Some((after, said + diags)),
            },
        }),
{
    let now = ds.subrange(0, k + 1);
    assert(now.drop_last() =~= ds.subrange(0, k));
    assert(now.last() == ds[k]);
}

#[verifier::spinoff_prover]
#[verifier::rlimit(40)]
proof fn lemma_chain(st: StateModel, ds: Seq<DirectiveModel>, conditions: Seq<bool>, k: int)
    requires
        st.active(),
        is_chain(st, ds, conditions),
        0 <= k < ds.len(),
    ensures
        all_executed(st, ds.subrange(0, k + 1)) matches Some((after, said)) && said.len() == 0
            && in_branch(st, after, conditions, k),
    decreases k,
{
    lemma_executed_last(st, ds, k);
    lemma_one_more(conditions, k);
    if k == 0 {
        assert(ds.subrange(0, 0) =~= Seq::empty());
        assert(!one_holds(conditions, 0));
        lemma_opening(st, ds[0], conditions[0]);
    } else {
        lemma_chain(st, ds, conditions, k - 1);
        lemma_one_more(conditions, k - 1);
        let mid = (all_executed(st, ds.subrange(0, k))->0).0;
        lemma_continuing(mid, ds[k], conditions[k]);
    }
}

/// In a block that counts, the code behind the branch `k` counts just when the condition of that
/// branch holds and none before it does, and nothing is said. So at most one branch counts.
pub proof fn law_branches_of_a_block(
    st: StateModel,
    ds: Seq<DirectiveModel>,
    conditions: Seq<bool>,
    k: int,
)
    requires
        st.active(),
        is_chain(st, ds, conditions),
        0 <= k < ds.len(),
    ensures
        all_executed(st, ds.subrange(0, k + 1)) matches Some((after, said)) && said.len() == 0
            && after.active() == (conditions[k] && !one_holds(conditions, k)),
{
    lemma_chain(st, ds, conditions, k);
}

/// Behind `#else` the code counts just when no condition of the block holds, and `#endif` leads
/// back to the state before the block, with `#else` or without it; nothing is said.
pub proof fn law_end_of_a_block(
    st: StateModel,
    ds: Seq<DirectiveModel>,
    conditions: Seq<bool>,
    otherwise: DirectiveModel,
    endif: DirectiveModel,
)
    requires
        st.nested(),
        st.active(),
        is_chain(st, ds, conditions),
        otherwise.instruction is Else,
        endif.instruction is EndIf,
    ensures
        all_executed(st, ds.push(otherwise)) matches Some((after, said)) && said.len() == 0
            && after.active() == !one_holds(conditions, ds.len() as int),
        all_executed(st, ds.push(otherwise).push(endif)) == Some(
            (st, Seq::<DiagnosticModel>::empty()),
        ),
        all_executed(st, ds.push(endif)) == Some((st, Seq::<DiagnosticModel>::empty())),
{
    let n = ds.len() as int;
    lemma_chain(st, ds, conditions, n - 1);
    assert(ds.subrange(0, n) =~= ds);
    let mid = (all_executed(st, ds)->0).0;
    let last = ds.push(otherwise);
    assert(last.drop_last() =~= ds);
    assert(last.last() == otherwise);
    let after = (state::executed(mid, otherwise)->0).0;
    assert(after.activity.drop_last() =~= st.activity);
    let closed = ds.push(endif);
    assert(closed.drop_last() =~= ds);
    assert(closed.last() == endif);
    assert(all_executed(st, closed) == Some((st, Seq::<DiagnosticModel>::empty()))) by {
        assert((state::executed(mid, endif)->0).0 =~= st);
        assert((all_executed(st, closed)->0).1 =~= Seq::<DiagnosticModel>::empty());
    }
    let all = last.push(endif);
    assert(all.drop_last() =~= last);
    assert(all.last() == endif);
    assert(all_executed(st, all) == Some((st, Seq::<DiagnosticModel>::empty()))) by {
        assert((state::executed(after, endif)->0).0 =~= st);
        assert((all_executed(st, all)->0).1 =~= Seq::<DiagnosticModel>::empty());
    }
}

} // verus!
