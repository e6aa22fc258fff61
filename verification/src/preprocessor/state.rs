//! The state of the preprocessor: the macros that are defined and the conditional blocks that
//! are open.

use crate::preprocessor::directive;
use crate::preprocessor::directive::{
    DiagnosticModel, DirectiveModel, InstructionModel, PreprocessorDiagnostic,
    PreprocessorDirective, PreprocessorDirectiveInstruction,
};
use crate::preprocessor::expr;
use crate::preprocessor::expr_laws;
use crate::preprocessor::macros;
use crate::preprocessor::macros::{MacroDefine, MacroDiagnostic, MacroModel};
use crate::preprocessor::table::MacroTable;
use crate::text;
use crate::utils;
use crate::utils::{AsSpan, Combine, SourceSpan};
use vstd::prelude::*;
use vstd::string::*;

verus! {

/// The directive that a conditional block, or a branch of it, starts with.
#[derive(Clone, Copy, Debug, PartialEq, Eq)]
pub struct OpenBlock {
    pub keyword: &'static str,
    pub keyword_span: SourceSpan,
}

/// What a level of nesting lets through.
#[derive(Clone, Copy, Debug, PartialEq, Eq)]
pub enum ActivityState {
    /// The outermost level, which no conditional encloses.
    Root,
    /// A branch that is taken.
    ResolvedTrue(OpenBlock),
    /// A branch that is not taken, where a later one may be.
    ResolvedFalse(OpenBlock),
    /// A branch that is not taken, where no later one can be.
    InactivePendingEndif(OpenBlock),
}

impl ActivityState {
    pub open spec fn spec_active(self) -> bool {
        self is Root || self is ResolvedTrue
    }

    /// Whether the code at this level counts.
    pub fn active(self) -> (r: bool)
        ensures
            r == self.spec_active(),
    {
        match self {
            ActivityState::Root | ActivityState::ResolvedTrue(_) => true,
            _ => false,
        }
    }

    /// The directive that the level was opened with.
    pub open spec fn block(self) -> OpenBlock {
        match self {
            ActivityState::Root => arbitrary(),
            ActivityState::ResolvedTrue(block) => block,
            ActivityState::ResolvedFalse(block) => block,
            ActivityState::InactivePendingEndif(block) => block,
        }
    }
}

/// The macros and the levels of nesting, the innermost one last.
#[verifier::ext_equal]
pub struct StateModel {
    pub defines: Map<Seq<u8>, MacroModel>,
    pub activity: Seq<ActivityState>,
}

// ---------------------------------------------------------------------------------------------
// Model

impl StateModel {
    /// The state that the preprocessor starts in.
    pub open spec fn fresh() -> StateModel {
        StateModel { defines: Map::empty(), activity: seq![ActivityState::Root] }
    }

    /// The code at the innermost level counts.
    pub open spec fn active(self) -> bool {
        self.activity.last().spec_active()
    }

    /// The outermost level, and no other, is the root.
    pub open spec fn nested(self) -> bool {
        &&& self.activity.len() > 0
        &&& forall|i: int|
            0 <= i < self.activity.len() ==> ((#[trigger] self.activity[i]) is Root <==> i == 0)
    }

    pub open spec fn opened(self, level: ActivityState) -> StateModel {
        StateModel { activity: self.activity.push(level), ..self }
    }

    pub open spec fn switched(self, level: ActivityState) -> StateModel {
        StateModel { activity: self.activity.drop_last().push(level), ..self }
    }
}

/// Whether the condition of a directive holds, and the diagnostics that it draws; `None` where
/// the expansion of the condition never ends or its arithmetic has no value.
pub open spec fn resolved(
    defines: Map<Seq<u8>, MacroModel>,
    instruction: InstructionModel,
    offset: usize,
) -> Option<(bool, Seq<DiagnosticModel>)> {
    match instruction {
        PreprocessorDirectiveInstruction::If(s) => condition_value(defines, s, offset),
        PreprocessorDirectiveInstruction::ElseIf(s) => condition_value(defines, s, offset),
        PreprocessorDirectiveInstruction::IfDefined(s) => Some(
            (defines.contains_key(s), Seq::empty()),
        ),
        PreprocessorDirectiveInstruction::ElseIfDefined(s) => Some(
            (defines.contains_key(s), Seq::empty()),
        ),
        PreprocessorDirectiveInstruction::IfNotDefined(s) => Some(
            (!defines.contains_key(s), Seq::empty()),
        ),
        PreprocessorDirectiveInstruction::ElseIfNotDefined(s) => Some(
            (!defines.contains_key(s), Seq::empty()),
        ),
        _ => Some((false, Seq::empty())),
    }
}

/// Whether an expression, after its macros have been expanded, has a value other than 0. One
/// that has no value because it is wrong does not hold.
pub open spec fn condition_value(
    defines: Map<Seq<u8>, MacroModel>,
    condition: Seq<u8>,
    offset: usize,
) -> Option<(bool, Seq<DiagnosticModel>)> {
    match macros::expand_all(defines, condition, offset) {
        None => None,
        Some((expanded, offsets, diags)) => {
            let said = directive::macro_diagnostics(diags);
            match expr::evaluated(expanded, offsets, defines.dom()) {
                None => None,
                Some(Ok(value)) => Some((value != 0, said)),
                Some(Err(d)) => Some((false, said.push(PreprocessorDiagnostic::Expr(d)))),
            }
        },
    }
}

/// The directive opens a conditional block.
pub open spec fn opens_block(i: InstructionModel) -> bool {
    i is If || i is IfDefined || i is IfNotDefined
}

/// The directive starts another branch with a condition.
pub open spec fn continues_block(i: InstructionModel) -> bool {
    i is ElseIf || i is ElseIfDefined || i is ElseIfNotDefined
}

/// The condition of the directive decides what follows.
pub open spec fn needs_condition(st: StateModel, d: DirectiveModel) -> bool {
    ||| opens_block(d.instruction) && st.active()
    ||| continues_block(d.instruction) && st.activity.last() is ResolvedFalse
}

/// The state with a macro defined, and the diagnostic that there was one of that name.
pub open spec fn with_define(st: StateModel, m: MacroModel, at: SourceSpan) -> (
    StateModel,
    Seq<DiagnosticModel>,
) {
    (
        StateModel { defines: st.defines.insert(m.name, m), ..st },
        if st.defines.contains_key(m.name) {
            let old_define = st.defines[m.name];
            seq![PreprocessorDiagnostic::DuplicateDefine {
                name: old_define.name,
                at,
                original: old_define.declaration_range.span(),
            }]
        } else {
            Seq::empty()
        },
    )
}

/// The state after a directive, and the diagnostics that it draws; `None` where its condition is
/// needed and cannot be told.
pub open spec fn executed(st: StateModel, d: DirectiveModel) -> Option<
    (StateModel, Seq<DiagnosticModel>),
> {
    let block = OpenBlock {
        keyword: d.instruction.spec_keyword(),
        keyword_span: d.keyword_span,
    };
    let missing = seq![PreprocessorDiagnostic::MissingIf {
        keyword: d.instruction.spec_keyword(),
        at: d.keyword_span,
    }];
    let last = st.activity.last();
    if opens_block(d.instruction) {
        if !st.active() {
            Some((st.opened(ActivityState::InactivePendingEndif(block)), Seq::empty()))
        } else {
            match resolved(st.defines, d.instruction, d.body_span.offset) {
                None => None,
                Some((true, diags)) => Some((st.opened(ActivityState::ResolvedTrue(block)), diags)),
                Some((false, diags)) => Some(
                    (st.opened(ActivityState::ResolvedFalse(block)), diags),
                ),
            }
        }
    } else if continues_block(d.instruction) {
        match last {
            ActivityState::Root => Some((st, missing)),
            ActivityState::ResolvedTrue(_) => Some(
                (st.switched(ActivityState::InactivePendingEndif(block)), Seq::empty()),
            ),
            ActivityState::InactivePendingEndif(_) => Some(
                (st.switched(ActivityState::InactivePendingEndif(block)), Seq::empty()),
            ),
            ActivityState::ResolvedFalse(_) => match resolved(
                st.defines,
                d.instruction,
                d.body_span.offset,
            ) {
                None => None,
                Some((true, diags)) => Some(
                    (st.switched(ActivityState::ResolvedTrue(block)), diags),
                ),
                Some((false, diags)) => Some(
                    (st.switched(ActivityState::ResolvedFalse(block)), diags),
                ),
            },
        }
    } else {
        Some(
            match d.instruction {
                PreprocessorDirectiveInstruction::Else => match last {
                    ActivityState::Root => (st, missing),
                    ActivityState::ResolvedFalse(_) => (
                        st.switched(ActivityState::ResolvedTrue(block)),
                        Seq::empty(),
                    ),
                    _ => (
                        st.switched(ActivityState::InactivePendingEndif(block)),
                        Seq::empty(),
                    ),
                },
                PreprocessorDirectiveInstruction::EndIf => if last is Root {
                    (st, missing)
                } else {
                    (
                        StateModel { activity: st.activity.drop_last(), ..st },
                        Seq::empty(),
                    )
                },
                PreprocessorDirectiveInstruction::Define(m) => with_define(
                    st,
                    m,
                    utils::joined_span(d.keyword_span, m.declaration_range.span()),
                ),
                PreprocessorDirectiveInstruction::Undefine(name) => (
                    StateModel { defines: st.defines.remove(name), ..st },
                    Seq::empty(),
                ),
                PreprocessorDirectiveInstruction::Warning(message) => (
                    st,
                    seq![PreprocessorDiagnostic::UserWarning { message, at: d.body_span }],
                ),
                PreprocessorDirectiveInstruction::Error(message) => (
                    st,
                    seq![PreprocessorDiagnostic::UserError { message, at: d.body_span }],
                ),
                _ => (st, Seq::empty()),
            },
        )
    }
}

/// The diagnostics for the levels that are still open, the innermost one first.
pub open spec fn unterminated(activity: Seq<ActivityState>) -> Seq<DiagnosticModel>
    decreases activity.len(),
{
    if activity.len() == 0 || activity.last() is Root {
        Seq::empty()
    } else {
        let block = activity.last().block();
        seq![PreprocessorDiagnostic::Unterminated {
            keyword: block.keyword,
            at: block.keyword_span,
        }] + unterminated(activity.drop_last())
    }
}

// ---------------------------------------------------------------------------------------------
// Laws

/// Every directive leaves the outermost level, and no other, the root.
pub proof fn law_directive_keeps_nesting(st: StateModel, d: DirectiveModel)
    requires
        st.nested(),
        executed(st, d) is Some,
    ensures
        (executed(st, d)->0).0.nested(),
{
    let after = (executed(st, d)->0).0;
    assert forall|i: int| 0 <= i < after.activity.len() implies ((#[trigger] after.activity[i])
        is Root <==> i == 0) by {
        if i < st.activity.len() {
            assert(st.activity[i] is Root <==> i == 0);
        }
        assert(st.activity[st.activity.len() - 1] is Root <==> st.activity.len() == 1);
    }
}

/// A directive that opens a block and the `#endif` behind it leave the levels as they were.
pub proof fn law_endif_closes(st: StateModel, d: DirectiveModel, endif: DirectiveModel)
    requires
        st.nested(),
        opens_block(d.instruction),
        endif.instruction is EndIf,
        executed(st, d) is Some,
    ensures
        executed((executed(st, d)->0).0, endif) == Some((st, Seq::<DiagnosticModel>::empty())),
{
    let mid = (executed(st, d)->0).0;
    assert(mid.activity.drop_last() =~= st.activity);
}

/// In a block that is not taken, an inner block is not taken either, whatever its condition.
pub proof fn law_inactive_stays_inactive(st: StateModel, d: DirectiveModel)
    requires
        !st.active(),
        opens_block(d.instruction),
    ensures
        executed(st, d) is Some,
        !(executed(st, d)->0).0.active(),
        (executed(st, d)->0).1.len() == 0,
{
}

/// Of the branches of a block, no branch is taken after one was.
pub proof fn law_one_branch_is_taken(st: StateModel, d: DirectiveModel)
    requires
        st.activity.len() > 0,
        st.activity.last() is ResolvedTrue || st.activity.last() is InactivePendingEndif,
        continues_block(d.instruction) || d.instruction is Else,
    ensures
        executed(st, d) is Some,
        !(executed(st, d)->0).0.active(),
        (executed(st, d)->0).0.activity.last() is InactivePendingEndif,
{
}

/// A macro that a directive has undefined is not defined.
pub proof fn law_undef(st: StateModel, d: DirectiveModel, name: Seq<u8>)
    requires
        d.instruction == PreprocessorDirectiveInstruction::<Seq<u8>, MacroModel>::Undefine(name),
    ensures
        !(executed(st, d)->0).0.defines.contains_key(name),
{
}

// ---------------------------------------------------------------------------------------------
// The preprocessor

#[derive(Debug)]
pub struct PreprocessorState {
    defines: MacroTable,
    activity: Vec<ActivityState>,
}

impl View for PreprocessorState {
    type V = StateModel;

    closed spec fn view(&self) -> StateModel {
        StateModel { defines: self.defines@, activity: self.activity@ }
    }
}

impl Clone for PreprocessorState {
    fn clone(&self) -> (r: Self)
        ensures
            self.wf() ==> r.wf() && r@ == self@,
    {
        let mut activity: Vec<ActivityState> = Vec::new();
        let mut i: usize = 0;
        while i < self.activity.len()
            invariant
                i <= self.activity@.len(),
                activity@ == self.activity@.subrange(0, i as int),
            decreases self.activity@.len() - i,
        {
            activity.push(self.activity[i]);
            i += 1;
            assert(activity@ =~= self.activity@.subrange(0, i as int));
        }
        assert(activity@ =~= self.activity@);
        PreprocessorState { defines: self.defines.clone(), activity }
    }
}

impl PreprocessorState {
    /// The invariant: the levels are nested in the root, and the macros have names of their own.
    pub closed spec fn wf(&self) -> bool {
        self.defines.wf() && self@.nested()
    }

    /// What the invariant says of the view.
    pub proof fn lemma_wf(&self)
        requires
            self.wf(),
        ensures
            self@.nested(),
    {
    }

    /// No macro is defined and no block is open.
    pub fn new() -> (r: Self)
        ensures
            r.wf(),
            r@ == StateModel::fresh(),
    {
        let mut activity: Vec<ActivityState> = Vec::new();
        activity.push(ActivityState::Root);
        let r = PreprocessorState { defines: MacroTable::new(), activity };
        assert(r@ =~= StateModel::fresh());
        r
    }

    /// Whether the code that follows counts.
    pub fn active(&self) -> (r: bool)
        requires
            self.wf(),
        ensures
            r == self@.active(),
    {
        self.activity[self.activity.len() - 1].active()
    }

    /// Expands the macros in a line at `offset` of the source. Each byte of the result comes with
    /// the offset that it comes from. The expansion has to come to an end.
    pub fn preprocess_line(
        &self,
        s: &str,
        offset: usize,
        diags: &mut Vec<PreprocessorDiagnostic>,
    ) -> (r: (String, Vec<usize>))
        requires
            self.wf(),
            macros::expand_all(self@.defines, s.spec_bytes(), offset) is Some,
        ensures
            ({
                let e = macros::expand_all(self@.defines, s.spec_bytes(), offset)->0;
                &&& text::bytes_of(r.0) == e.0
                &&& r.1@ == e.1
                &&& r.1@.len() == text::bytes_of(r.0).len()
                &&& directive::diagnostics(final(diags)@) == directive::diagnostics(old(diags)@)
                    + directive::macro_diagnostics(e.2)
            }),
    {
        let mut said: Vec<MacroDiagnostic> = Vec::new();
        let r = MacroDefine::expand_all_in(s, offset, &self.defines, &mut said);
        assert(said@ =~= (macros::expand_all(self@.defines, s.spec_bytes(), offset)->0).2);
        directive::push_macro_diagnostics(diags, &said);
        r
    }

    /// Expands the macros in a line as `preprocess_line` does, in no more than `limit` steps;
    /// `None` when that does not do.
    pub fn preprocess_within(
        &self,
        s: &str,
        offset: usize,
        limit: usize,
        diags: &mut Vec<PreprocessorDiagnostic>,
    ) -> (r: Option<(String, Vec<usize>)>)
        requires
            self.wf(),
        ensures
            r is Some <==> macros::expand_steps(
                self@.defines,
                macros::unexpanded(s.spec_bytes(), offset),
                limit as nat,
            ) is Some,
            r matches Some((t, o)) ==> {
                let e = macros::expand_all(self@.defines, s.spec_bytes(), offset);
                &&& e is Some
                &&& text::bytes_of(t) == (e->0).0
                &&& o@ == (e->0).1
                &&& o@.len() == text::bytes_of(t).len()
                &&& directive::diagnostics(final(diags)@) == directive::diagnostics(old(diags)@)
                    + directive::macro_diagnostics((e->0).2)
            },
            r is None ==> final(diags)@ == old(diags)@,
    {
        let mut said: Vec<MacroDiagnostic> = Vec::new();
        match MacroDefine::expand_within(s, offset, &self.defines, limit, &mut said) {
            None => None,
            Some(r) => {
                assert(said@ =~= (macros::expand_all(self@.defines, s.spec_bytes(), offset)->0).2);
                directive::push_macro_diagnostics(diags, &said);
                Some(r)
            },
        }
    }

    /// Whether a condition holds; with a limit on the steps of its expansion, `None` when it
    /// cannot be told within it.
    fn condition(
        &self,
        condition: &str,
        offset: usize,
        limit: Option<usize>,
        diags: &mut Vec<PreprocessorDiagnostic>,
    ) -> (r: Option<bool>)
        requires
            self.wf(),
            limit is None ==> condition_value(self@.defines, condition.spec_bytes(), offset)
                is Some,
        ensures
            limit is None ==> r is Some,
            limit matches Some(n) ==> (r is Some <==> told_within(
                self@.defines,
                condition.spec_bytes(),
                offset,
                n,
            )),
            r matches Some(holds) ==> {
                let c = condition_value(self@.defines, condition.spec_bytes(), offset);
                &&& c is Some
                &&& holds == (c->0).0
                &&& directive::diagnostics(final(diags)@) == directive::diagnostics(old(diags)@)
                    + (c->0).1
            },
            r is None ==> final(diags)@ == old(diags)@,
    {
        let mut said: Vec<PreprocessorDiagnostic> = Vec::new();
        let (expanded, offsets) = match limit {
            None => self.preprocess_line(condition, offset, &mut said),
            Some(n) => match self.preprocess_within(condition, offset, n, &mut said) {
                None => {
                    return None;
                },
                Some(r) => r,
            },
        };
        proof {
            expr_laws::law_errors_can_be_placed(
                text::bytes_of(expanded),
                offsets@,
                self.defines@.dom(),
            );
        }
        match expr::checked_evaluate(expanded.as_str(), offsets.as_slice(), &self.defines) {
            None => None,
            Some(Ok(value)) => {
                let ghost c = condition_value(self@.defines, condition.spec_bytes(), offset);
                assert(directive::diagnostics(said@) =~= (c->0).1);
                append(diags, &mut said);
                Some(value != 0)
            },
            Some(Err(d)) => {
                let ghost c = condition_value(self@.defines, condition.spec_bytes(), offset);
                let ghost before = said@;
                said.push(PreprocessorDiagnostic::Expr(d));
                assert(directive::diagnostics(said@) =~= directive::diagnostics(before).push(
                    PreprocessorDiagnostic::Expr(d@),
                ));
                assert(directive::diagnostics(said@) =~= (c->0).1);
                append(diags, &mut said);
                Some(false)
            },
        }
    }

    fn resolve(
        &self,
        instruction: &PreprocessorDirectiveInstruction,
        offset: usize,
        limit: Option<usize>,
        diags: &mut Vec<PreprocessorDiagnostic>,
    ) -> (r: Option<bool>)
        requires
            self.wf(),
            limit is None ==> resolved(self@.defines, instruction@, offset) is Some,
        ensures
            limit is None ==> r is Some,
            limit matches Some(n) ==> (r is Some <==> resolved_within(
                self@.defines,
                instruction@,
                offset,
                n,
            )),
            r matches Some(holds) ==> {
                let c = resolved(self@.defines, instruction@, offset);
                &&& c is Some
                &&& holds == (c->0).0
                &&& directive::diagnostics(final(diags)@) == directive::diagnostics(old(diags)@)
                    + (c->0).1
            },
            r is None ==> final(diags)@ == old(diags)@,
    {
        let ghost nothing = Seq::<DiagnosticModel>::empty();
        assert(directive::diagnostics(diags@) =~= directive::diagnostics(old(diags)@) + nothing);
        match instruction {
            PreprocessorDirectiveInstruction::If(s) => self.condition(
                s.as_str(),
                offset,
                limit,
                diags,
            ),
            PreprocessorDirectiveInstruction::ElseIf(s) => self.condition(
                s.as_str(),
                offset,
                limit,
                diags,
            ),
            PreprocessorDirectiveInstruction::IfDefined(s) => Some(
                self.defines.contains_key(s.as_str()),
            ),
            PreprocessorDirectiveInstruction::ElseIfDefined(s) => Some(
                self.defines.contains_key(s.as_str()),
            ),
            PreprocessorDirectiveInstruction::IfNotDefined(s) => Some(
                !self.defines.contains_key(s.as_str()),
            ),
            PreprocessorDirectiveInstruction::ElseIfNotDefined(s) => Some(
                !self.defines.contains_key(s.as_str()),
            ),
            _ => Some(false),
        }
    }

    fn set_last(&mut self, level: ActivityState)
        requires
            old(self).defines.wf(),
            old(self)@.activity.len() > 0,
        ensures
            final(self).defines.wf(),
            final(self)@ == old(self)@.switched(level),
    {
        let n: usize = self.activity.len() - 1;
        self.activity[n] = level;
        assert(self@.activity =~= old(self)@.switched(level).activity);
    }

    fn insert_define(
        &mut self,
        define: MacroDefine,
        at: SourceSpan,
        diags: &mut Vec<PreprocessorDiagnostic>,
    )
        requires
            old(self).wf(),
        ensures
            final(self).wf(),
            final(self)@ == with_define(old(self)@, define@, at).0,
            directive::diagnostics(final(diags)@) == directive::diagnostics(old(diags)@)
                + with_define(old(self)@, define@, at).1,
    {
        let ghost m = define@;
        let name = define.name.clone();
        match self.defines.insert(name, define) {
            None => {},
            Some(old_define) => {
                diags.push(
                    PreprocessorDiagnostic::DuplicateDefine {
                        name: old_define.name,
                        at,
                        original: old_define.declaration_range.as_span(),
                    },
                );
            },
        }
        assert(directive::diagnostics(diags@) =~= directive::diagnostics(old(diags)@)
            + with_define(old(self)@, m, at).1);
        assert(self@ =~= with_define(old(self)@, m, at).0);
    }

    /// Defines a macro outside of any directive.
    pub fn define(&mut self, define: MacroDefine, diags: &mut Vec<PreprocessorDiagnostic>)
        requires
            old(self).wf(),
        ensures
            final(self).wf(),
            final(self)@ == with_define(
                old(self)@,
                define@,
                define@.declaration_range.span(),
            ).0,
            directive::diagnostics(final(diags)@) == directive::diagnostics(old(diags)@)
                + with_define(old(self)@, define@, define@.declaration_range.span()).1,
    {
        let at = define.declaration_range.as_span();
        self.insert_define(define, at, diags);
    }

    /// Carries out a directive; with a limit on the steps of an expansion, `false` when its
    /// condition is needed and cannot be told within it.
    fn exec_limited(
        &mut self,
        d: PreprocessorDirective,
        limit: Option<usize>,
        diags: &mut Vec<PreprocessorDiagnostic>,
    ) -> (r: bool)
        requires
            old(self).wf(),
            limit is None ==> executed(old(self)@, d@) is Some,
        ensures
            final(self).wf(),
            limit is None ==> r,
            limit matches Some(n) ==> r == executed_within(old(self)@, d@, n),
            r ==> {
                let e = executed(old(self)@, d@);
                &&& e is Some
                &&& final(self)@ == (e->0).0
                &&& directive::diagnostics(final(diags)@) == directive::diagnostics(old(diags)@)
                    + (e->0).1
            },
            !r ==> final(self)@ == old(self)@ && final(diags)@ == old(diags)@,
    {
        let ghost st = self@;
        let ghost model = d@;
        let ghost said = directive::diagnostics(diags@);
        proof {
            if executed(st, model) is Some {
                law_directive_keeps_nesting(st, model);
            }
            assert(said + Seq::<DiagnosticModel>::empty() =~= said);
        }
        let keyword = d.instruction.keyword();
        let block = OpenBlock { keyword, keyword_span: d.keyword_span };
        let last = self.activity[self.activity.len() - 1];
        let opens = matches!(
            &d.instruction,
            PreprocessorDirectiveInstruction::If(_)
            | PreprocessorDirectiveInstruction::IfDefined(_)
            | PreprocessorDirectiveInstruction::IfNotDefined(_)
        );
        let continues = matches!(
            &d.instruction,
            PreprocessorDirectiveInstruction::ElseIf(_)
            | PreprocessorDirectiveInstruction::ElseIfDefined(_)
            | PreprocessorDirectiveInstruction::ElseIfNotDefined(_)
        );
        if opens {
            if !last.active() {
                self.activity.push(ActivityState::InactivePendingEndif(block));
                assert(self@ =~= (executed(st, model)->0).0);
                return true;
            }
            return match self.resolve(&d.instruction, d.body_span.offset, limit, diags) {
                None => false,
                Some(holds) => {
                    if holds {
                        self.activity.push(ActivityState::ResolvedTrue(block));
                    } else {
                        self.activity.push(ActivityState::ResolvedFalse(block));
                    }
                    assert(self@ =~= (executed(st, model)->0).0);
                    true
                },
            };
        }
        if continues {
            return match last {
                ActivityState::Root => {
                    diags.push(PreprocessorDiagnostic::MissingIf { keyword, at: d.keyword_span });
                    assert(directive::diagnostics(diags@) =~= said + (executed(st, model)->0).1);
                    true
                },
                ActivityState::ResolvedTrue(_) | ActivityState::InactivePendingEndif(_) => {
                    self.set_last(ActivityState::InactivePendingEndif(block));
                    assert(directive::diagnostics(diags@) =~= said + (executed(st, model)->0).1);
                    true
                },
                ActivityState::ResolvedFalse(_) => match self.resolve(
                    &d.instruction,
                    d.body_span.offset,
                    limit,
                    diags,
                ) {
                    None => false,
                    Some(holds) => {
                        if holds {
                            self.set_last(ActivityState::ResolvedTrue(block));
                        } else {
                            self.set_last(ActivityState::ResolvedFalse(block));
                        }
                        true
                    },
                },
            };
        }
        match d.instruction {
            PreprocessorDirectiveInstruction::Else => match last {
                ActivityState::Root => {
                    diags.push(PreprocessorDiagnostic::MissingIf { keyword, at: d.keyword_span });
                },
                ActivityState::ResolvedFalse(_) => {
                    self.set_last(ActivityState::ResolvedTrue(block));
                },
                _ => {
                    self.set_last(ActivityState::InactivePendingEndif(block));
                },
            },
            PreprocessorDirectiveInstruction::EndIf => match last {
                ActivityState::Root => {
                    diags.push(PreprocessorDiagnostic::MissingIf { keyword, at: d.keyword_span });
                },
                _ => {
                    self.activity.pop();
                    assert(self@.activity =~= st.activity.drop_last());
                },
            },
            PreprocessorDirectiveInstruction::Define(m) => {
                let at = d.keyword_span.combine(m.declaration_range);
                self.insert_define(m, at, diags);
            },
            PreprocessorDirectiveInstruction::Undefine(name) => {
                self.defines.remove(name.as_str());
            },
            PreprocessorDirectiveInstruction::Warning(message) => {
                diags.push(PreprocessorDiagnostic::UserWarning { message, at: d.body_span });
            },
            PreprocessorDirectiveInstruction::Error(message) => {
                diags.push(PreprocessorDiagnostic::UserError { message, at: d.body_span });
            },
            _ => {},
        }
        assert(self@ =~= (executed(st, model)->0).0);
        assert(directive::diagnostics(diags@) =~= said + (executed(st, model)->0).1);
        true
    }

    /// Carries out a directive. Where its condition is needed, it has to be one that can be told.
    pub fn exec(
        &mut self,
        directive: PreprocessorDirective,
        diags: &mut Vec<PreprocessorDiagnostic>,
    )
        requires
            old(self).wf(),
            executed(old(self)@, directive@) is Some,
        ensures
            final(self).wf(),
            final(self)@ == (executed(old(self)@, directive@)->0).0,
            directive::diagnostics(final(diags)@) == directive::diagnostics(old(diags)@) + (
            executed(old(self)@, directive@)->0).1,
    {
        self.exec_limited(directive, None, diags);
    }

    /// Carries out a directive as `exec` does, if its condition is not needed or can be told with
    /// no more than `limit` steps of expansion. `false`, with nothing changed, when not.
    pub fn checked_exec(
        &mut self,
        directive: PreprocessorDirective,
        limit: usize,
        diags: &mut Vec<PreprocessorDiagnostic>,
    ) -> (r: bool)
        requires
            old(self).wf(),
        ensures
            final(self).wf(),
            r == executed_within(old(self)@, directive@, limit),
            r ==> {
                let e = executed(old(self)@, directive@);
                &&& e is Some
                &&& final(self)@ == (e->0).0
                &&& directive::diagnostics(final(diags)@) == directive::diagnostics(old(diags)@)
                    + (e->0).1
            },
            !r ==> final(self)@ == old(self)@ && final(diags)@ == old(diags)@,
    {
        self.exec_limited(directive, Some(limit), diags)
    }

    /// Resets the preprocessor to a fresh state, with a diagnostic for each block that is still
    /// open.
    pub fn end(&mut self, diags: &mut Vec<PreprocessorDiagnostic>)
        requires
            old(self).wf(),
        ensures
            final(self).wf(),
            final(self)@ == StateModel::fresh(),
            directive::diagnostics(final(diags)@) == directive::diagnostics(old(diags)@)
                + unterminated(old(self)@.activity),
    {
        let ghost said = directive::diagnostics(diags@);
        loop
            invariant
                self.wf(),
                directive::diagnostics(diags@) + unterminated(self@.activity) == said
                    + unterminated(old(self)@.activity),
            ensures
                self.wf(),
                self@.activity.len() == 1,
                directive::diagnostics(diags@) == said + unterminated(old(self)@.activity),
            decreases self@.activity.len(),
        {
            let ghost before = directive::diagnostics(diags@);
            let ghost levels = self@.activity;
            assert(levels[levels.len() - 1] is Root <==> levels.len() == 1);
            let last = self.activity[self.activity.len() - 1];
            let block = match last {
                ActivityState::Root => {
                    assert(directive::diagnostics(diags@) + unterminated(levels)
                        =~= directive::diagnostics(diags@));
                    break;
                },
                ActivityState::ResolvedTrue(block) => block,
                ActivityState::ResolvedFalse(block) => block,
                ActivityState::InactivePendingEndif(block) => block,
            };
            self.activity.pop();
            diags.push(
                PreprocessorDiagnostic::Unterminated {
                    keyword: block.keyword,
                    at: block.keyword_span,
                },
            );
            proof {
                assert(self@.activity =~= levels.drop_last());
                assert forall|i: int| 0 <= i < self@.activity.len() implies ((
                #[trigger] self@.activity[i]) is Root <==> i == 0) by {
                    assert(levels[i] is Root <==> i == 0);
                }
                assert(directive::diagnostics(diags@) + unterminated(self@.activity) =~= before
                    + unterminated(levels));
            }
        }
        self.defines.clear();
        assert(self@.activity[0] is Root);
        assert(self@ =~= StateModel::fresh());
    }
}

impl Default for PreprocessorState {
    fn default() -> (r: Self)
        ensures
            r.wf(),
            r@ == StateModel::fresh(),
    {
        PreprocessorState::new()
    }
}

fn append(diags: &mut Vec<PreprocessorDiagnostic>, from: &mut Vec<PreprocessorDiagnostic>)
    ensures
        directive::diagnostics(final(diags)@) == directive::diagnostics(old(diags)@)
            + directive::diagnostics(old(from)@),
{
    diags.append(from);
    assert(directive::diagnostics(diags@) =~= directive::diagnostics(old(diags)@)
        + directive::diagnostics(old(from)@));
}

/// The value of the condition can be told with no more than `limit` steps of expansion.
pub open spec fn told_within(
    defines: Map<Seq<u8>, MacroModel>,
    condition: Seq<u8>,
    offset: usize,
    limit: usize,
) -> bool {
    &&& macros::expand_steps(defines, macros::unexpanded(condition, offset), limit as nat) is Some
    &&& condition_value(defines, condition, offset) is Some
}

pub open spec fn resolved_within(
    defines: Map<Seq<u8>, MacroModel>,
    instruction: InstructionModel,
    offset: usize,
    limit: usize,
) -> bool {
    match instruction {
        PreprocessorDirectiveInstruction::If(s) => told_within(defines, s, offset, limit),
        PreprocessorDirectiveInstruction::ElseIf(s) => told_within(defines, s, offset, limit),
        _ => true,
    }
}

/// The directive does not need its condition, or its value can be told with no more than `limit`
/// steps of expansion.
pub open spec fn executed_within(st: StateModel, d: DirectiveModel, limit: usize) -> bool {
    needs_condition(st, d) ==> resolved_within(
        st.defines,
        d.instruction,
        d.body_span.offset,
        limit,
    )
}

} // verus!
