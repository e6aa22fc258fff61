//! The steps of one build through its source.

use crate::numbers;
use crate::option;
use crate::option::{BuildId, NxpchOption, OutputFormat, TargetBuildMatrixEntry, UserSetting};
use crate::parse::address::CodeAddress;
use crate::parse::code;
use crate::parse::code::{CodeOutput, Label};
use crate::parse::state;
use crate::parse::state::{
    EnvModel, ForkModel, RanModel, SplitModel, SubModel, FALLBACK_MOD_VERSION,
};
use crate::parse::types;
use crate::parse::types::{
    BuildTarget, FloatReading, ForcedBuildOption, Halt, HaltModel, ParseDiagnostic, ParsingResult,
};
use crate::pre_parse;
use crate::pre_parse::PreParsedStatement;
use crate::preprocessor::directive;
use crate::preprocessor::directive::{PreprocessorDiagnostic, PreprocessorDirective};
use crate::preprocessor::macros;
use crate::preprocessor::macros::MacroDefine;
use crate::preprocessor::state::{PreprocessorState, StateModel};
use crate::text;
use crate::utils::SourceSpan;
use std::ops::Range;
use vstd::prelude::*;
use vstd::string::*;

verus! {

/// One of the ways on from a state that splits.
pub enum Fork<'a> {
    Target(BuildTarget),
    Build(&'a TargetBuildMatrixEntry, SourceSpan),
    Setting(&'a UserSetting),
}

impl<'a> View for Fork<'a> {
    type V = ForkModel;

    open spec fn view(&self) -> ForkModel {
        match *self {
            Fork::Target(target) => ForkModel::Target(target),
            Fork::Build(entry, at) => ForkModel::Build(entry@, at),
            Fork::Setting(setting) => ForkModel::Setting(setting@),
        }
    }
}

pub open spec fn fork_models(v: Seq<Fork>) -> Seq<ForkModel> {
    Seq::new(v.len(), |i: int| v[i]@)
}

pub open spec fn layer_models(v: Seq<Vec<Fork>>) -> Seq<Seq<ForkModel>> {
    Seq::new(v.len(), |i: int| fork_models(v[i]@))
}

/// What is known of a build while its source is read.
pub struct ParseSubState {
    preprocessor: PreprocessorState,
    build_target: BuildTarget,
    mod_name: Option<String>,
    mod_version: Option<String>,
    target_build: Option<(BuildId, SourceSpan)>,
    user_settings: Vec<String>,
    forced_output_format: Option<(OutputFormat, SourceSpan)>,
    output: CodeOutput,
    code_multi: Option<CodeAddress>,
    code_multi_ended: Option<usize>,
}

pub open spec fn opt_address(a: Option<CodeAddress>) -> Option<u32> {
    match a {
        None => None,
        Some(a) => Some(a@),
    }
}

impl View for ParseSubState {
    type V = SubModel;

    closed spec fn view(&self) -> SubModel {
        SubModel {
            pre: self.preprocessor@,
            build_target: self.build_target,
            mod_name: types::opt_text(self.mod_name),
            mod_version: types::opt_text(self.mod_version),
            target_build: self.target_build,
            user_settings: types::texts(self.user_settings@),
            forced_output_format: self.forced_output_format,
            code: types::code_models(self.output.code@),
            labels: code::labels_view(self.output.labels@),
            multi: opt_address(self.code_multi),
            multi_ended: self.code_multi_ended,
        }
    }
}

pub open spec fn state_models(v: Seq<ParseSubState>) -> Seq<SubModel> {
    Seq::new(v.len(), |i: int| v[i]@)
}

pub open spec fn all_wf(v: Seq<ParseSubState>) -> bool {
    forall|i: int| 0 <= i < v.len() ==> (#[trigger] v[i]).wf()
}

fn copy_text(s: &Option<String>) -> (r: Option<String>)
    ensures
        types::opt_text(r) == types::opt_text(*s),
{
    match s {
        None => None,
        Some(s) => Some(s.clone()),
    }
}

fn copy_labels(from: &Vec<Label>) -> (r: Vec<Label>)
    ensures
        code::labels_view(r@) == code::labels_view(from@),
{
    let mut r: Vec<Label> = Vec::new();
    let mut i: usize = 0;
    while i < from.len()
        invariant
            i <= from@.len(),
            r@.len() == i,
            forall|k: int| 0 <= k < i ==> (#[trigger] r@[k])@ == from@[k]@,
        decreases from@.len() - i,
    {
        let label = &from[i];
        r.push(Label { name: label.name.clone(), span: label.span, address: label.address });
        i += 1;
    }
    assert(code::labels_view(r@) =~= code::labels_view(from@));
    r
}

impl Clone for ParseSubState {
    fn clone(&self) -> (r: Self)
        ensures
            self.wf() ==> r.wf() && r@ == self@,
    {
        ParseSubState {
            preprocessor: self.preprocessor.clone(),
            build_target: self.build_target,
            mod_name: copy_text(&self.mod_name),
            mod_version: copy_text(&self.mod_version),
            target_build: self.target_build,
            user_settings: types::copy_texts(&self.user_settings),
            forced_output_format: self.forced_output_format,
            output: CodeOutput {
                code: types::copy_code(&self.output.code),
                labels: copy_labels(&self.output.labels),
            },
            code_multi: self.code_multi,
            code_multi_ended: self.code_multi_ended,
        }
    }
}

impl ParseSubState {
    pub closed spec fn wf(&self) -> bool {
        self.preprocessor.wf()
    }

    pub fn new() -> (r: Self)
        ensures
            r.wf(),
            r@ == SubModel::fresh(),
    {
        let r = ParseSubState {
            preprocessor: PreprocessorState::new(),
            build_target: BuildTarget::Emulator,
            mod_name: None,
            mod_version: None,
            target_build: None,
            user_settings: Vec::new(),
            forced_output_format: None,
            output: CodeOutput { code: Vec::new(), labels: Vec::new() },
            code_multi: None,
            code_multi_ended: None,
        };
        assert(r@ =~= SubModel::fresh());
        r
    }

    /// The build that the state has come to; none where it has no build id.
    pub fn finish(self) -> (r: Option<ParsingResult>)
        ensures
            r is Some <==> state::finished(self@) is Some,
            r matches Some(result) ==> result@ == state::finished(self@)->0,
    {
        reveal(state::finished);
        let target_build = match self.target_build {
            None => {
                return None;
            },
            Some((id, _)) => id,
        };
        let mod_version = match self.mod_version {
            Some(version) => version,
            None => text::own(FALLBACK_MOD_VERSION),
        };
        let forced_output_format = match self.forced_output_format {
            Some((format, _)) => Some(format),
            None => None,
        };
        let mut labels: Vec<(String, CodeAddress)> = Vec::new();
        let mut i: usize = 0;
        let found = self.output.labels;
        while i < found.len()
            invariant
                i <= found@.len(),
                labels@.len() == i,
                forall|k: int|
                    0 <= k < i ==> text::bytes_of((#[trigger] labels@[k]).0) == found@[k]@.name
                        && labels@[k].1@ == found@[k]@.address,
            decreases found@.len() - i,
        {
            labels.push((found[i].name.clone(), found[i].address));
            i += 1;
        }
        assert(types::label_models(labels@) =~= state::bare_labels(code::labels_view(found@)));
        Some(
            ParsingResult {
                build_target: self.build_target,
                mod_name: self.mod_name,
                mod_version,
                target_build,
                forced_output_format,
                user_settings: self.user_settings,
                code: self.output.code,
                labels,
            },
        )
    }

    /// The build is given up.
    fn early_exit(&mut self) -> (r: bool)
        ensures
            !r,
            final(self).wf() == old(self).wf(),
            final(self)@ == old(self)@.exited(),
    {
        self.target_build = None;
        assert(self@ =~= old(self)@.exited());
        false
    }

    fn end_multi_code(&mut self, line_start: usize)
        ensures
            final(self).wf() == old(self).wf(),
            final(self)@ == old(self)@.multi_cleared(line_start),
    {
        if self.code_multi.is_some() {
            self.code_multi_ended = Some(line_start);
        }
        self.code_multi = None;
        assert(self@ =~= old(self)@.multi_cleared(line_start));
    }

    pub fn define_all(&mut self, defines: &Vec<MacroDefine>, diags: &mut Vec<ParseDiagnostic>)
        requires
            old(self).wf(),
        ensures
            ({
                let models = option::macro_models(defines@);
                let (pre, ds) = state::defined_all(old(self)@.pre, models, models.len() as int);
                &&& final(self).wf()
                &&& final(self)@ == SubModel { pre, ..old(self)@ }
                &&& types::parse_diagnostics(final(diags)@) == types::parse_diagnostics(
                    old(diags)@,
                ) + types::from_preprocessor(ds)
            }),
    {
        let ghost models = option::macro_models(defines@);
        let ghost pre = self@.pre;
        let mut said: Vec<PreprocessorDiagnostic> = Vec::new();
        assert(directive::diagnostics(said@) =~= Seq::empty());
        let mut i: usize = 0;
        while i < defines.len()
            invariant
                i <= defines@.len(),
                models == option::macro_models(defines@),
                self.wf(),
                pre == old(self)@.pre,
                (self@.pre, directive::diagnostics(said@)) == state::defined_all(
                    pre,
                    models,
                    i as int,
                ),
                self@ == (SubModel { pre: self@.pre, ..old(self)@ }),
            decreases defines@.len() - i,
        {
            let ghost before = self@;
            self.preprocessor.define(defines[i].clone(), &mut said);
            assert(models[i as int] == defines@[i as int]@);
            assert(self@ =~= SubModel { pre: self@.pre, ..before });
            i += 1;
        }
        types::tell_all(diags, said);
    }

    /// Goes a way.
    fn go(&mut self, way: &Fork, diags: &mut Vec<ParseDiagnostic>)
        requires
            old(self).wf(),
        ensures
            final(self).wf(),
            final(self)@ == state::forked(way@, old(self)@).0,
            types::parse_diagnostics(final(diags)@) == types::parse_diagnostics(old(diags)@)
                + state::forked(way@, old(self)@).1,
    {
        let ghost goal = state::forked(way@, self@);
        match way {
            Fork::Target(target) => {
                self.build_target = *target;
                let name = match target {
                    BuildTarget::Emulator => "EMULATOR",
                    BuildTarget::Hardware => "HARDWARE",
                };
                let mut defines: Vec<MacroDefine> = Vec::new();
                defines.push(MacroDefine::create_const(name, "1"));
                assert(option::macro_models(defines@) =~= seq![state::target_macro(*target)]);
                self.define_all(&defines, diags);
            },
            Fork::Build(entry, at) => {
                self.target_build = Some((entry.id, *at));
                self.define_all(&entry.defines, diags);
            },
            Fork::Setting(setting) => {
                let ghost before = self.user_settings@;
                self.user_settings.push(setting.name.clone());
                assert(types::texts(self.user_settings@) =~= types::texts(before).push(
                    setting@.name,
                ));
                self.define_all(&setting.defines, diags);
            },
        }
        assert(self@ =~= goal.0);
    }

    /// Splits over some ways: `self` goes the first one, and the states that go the others are
    /// appended to `new_states`. `false`, with the build given up, where there is no way on.
    pub fn make_forks(
        &mut self,
        new_states: &mut Vec<Self>,
        ways: &Vec<Fork>,
        diags: &mut Vec<ParseDiagnostic>,
    ) -> (r: bool)
        requires
            old(self).wf(),
            all_wf(old(new_states)@),
        ensures
            final(self).wf(),
            all_wf(final(new_states)@),
            ({
                let s = state::split_state(old(self)@, fork_models(ways@));
                &&& r == s.goes_on
                &&& final(self)@ == s.state
                &&& state_models(final(new_states)@) == state_models(old(new_states)@) + s.others
                &&& types::parse_diagnostics(final(diags)@) == types::parse_diagnostics(
                    old(diags)@,
                ) + s.diags
            }),
    {
        let ghost st = self@;
        let ghost models = fork_models(ways@);
        let ghost said = types::parse_diagnostics(diags@);
        let ghost had = state_models(new_states@);
        assert(said + Seq::empty() =~= said);
        assert(had + Seq::empty() =~= had);
        if ways.len() == 0 {
            return self.early_exit();
        }
        let mut i: usize = 1;
        while i < ways.len()
            invariant
                1 <= i <= ways@.len(),
                self.wf(),
                self@ == st,
                models == fork_models(ways@),
                all_wf(new_states@),
                state_models(new_states@) == had + state::other_forks(st, models, i as int).0,
                types::parse_diagnostics(diags@) == said + state::other_forks(
                    st,
                    models,
                    i as int,
                ).1,
            decreases ways@.len() - i,
        {
            let mut other = self.clone();
            other.go(&ways[i], diags);
            let ghost before = new_states@;
            new_states.push(other);
            i += 1;
            proof {
                let f = state::forked(models[i - 1], st);
                assert(state_models(new_states@) =~= state_models(before).push(f.0));
                assert(state_models(new_states@) =~= had + state::other_forks(
                    st,
                    models,
                    i as int,
                ).0);
                assert(types::parse_diagnostics(diags@) =~= said + state::other_forks(
                    st,
                    models,
                    i as int,
                ).1);
            }
        }
        self.go(&ways[0], diags);
        assert(types::parse_diagnostics(diags@) =~= said + state::split_state(st, models).diags);
        true
    }

    /// Splits over some layers of ways, at each of them into its ways. Returns the states besides
    /// `self`; none, with the build given up, where a layer has no way on.
    fn make_deep_forks(
        &mut self,
        layers: &Vec<Vec<Fork>>,
        diags: &mut Vec<ParseDiagnostic>,
    ) -> (r: Option<Vec<Self>>)
        requires
            old(self).wf(),
        ensures
            final(self).wf(),
            ({
                let s = state::split_deep(
                    old(self)@,
                    layer_models(layers@),
                    layers@.len() as int,
                );
                &&& r is Some <==> s.goes_on
                &&& final(self)@ == s.state
                &&& r matches Some(v) ==> all_wf(v@) && state_models(v@) == s.others
                &&& r is None ==> s.others.len() == 0
                &&& types::parse_diagnostics(final(diags)@) == types::parse_diagnostics(
                    old(diags)@,
                ) + s.diags
            }),
    {
        let ghost st = self@;
        let ghost models = layer_models(layers@);
        let ghost said = types::parse_diagnostics(diags@);
        let mut states: Vec<Self> = Vec::new();
        let mut i: usize = 0;
        assert(state_models(states@) =~= Seq::empty());
        assert(said + Seq::empty() =~= said);
        while i < layers.len()
            invariant
                i <= layers@.len(),
                self.wf(),
                all_wf(states@),
                models == layer_models(layers@),
                st == old(self)@,
                said == types::parse_diagnostics(old(diags)@),
                ({
                    let s = state::split_deep(st, models, i as int);
                    &&& s.goes_on
                    &&& self@ == s.state
                    &&& state_models(states@) == s.others
                    &&& types::parse_diagnostics(diags@) == said + s.diags
                }),
            decreases layers@.len() - i,
        {
            let ways = &layers[i];
            let ghost way_models = fork_models(ways@);
            assert(models[i as int] == way_models);
            let ghost before = state::split_deep(st, models, i as int);
            if ways.len() == 0 {
                self.early_exit();
                proof {
                    lemma_given_up(st, models, i + 1, layers@.len() as int);
                }
                return None;
            }
            let mut more: Vec<Self> = Vec::new();
            assert(state_models(more@) =~= Seq::empty());
            let ghost olds = states@;
            let ghost told = types::parse_diagnostics(diags@);
            assert(told + Seq::empty() =~= told);
            let mut k: usize = 0;
            while k < states.len()
                invariant
                    k <= states@.len(),
                    states@.len() == olds.len(),
                    ways@.len() > 0,
                    way_models == fork_models(ways@),
                    all_wf(states@),
                    all_wf(more@),
                    state_models(olds) == before.others,
                    forall|j: int| k <= j < states@.len() ==> (#[trigger] states@[j]) == olds[j],
                    ({
                        let s = state::split_states(before.others, way_models, k as int);
                        &&& s.0.len() == k
                        &&& forall|j: int| 0 <= j < k ==> (#[trigger] states@[j])@ == s.0[j]
                        &&& state_models(more@) == s.1
                        &&& types::parse_diagnostics(diags@) == told + s.2
                    }),
                decreases states@.len() - k,
            {
                let ghost so_far = types::parse_diagnostics(diags@);
                assert(states@[k as int] == olds[k as int]);
                assert(state_models(olds)[k as int] == olds[k as int]@);
                states[k].make_forks(&mut more, ways, diags);
                k += 1;
                proof {
                    let s = state::split_states(before.others, way_models, k as int);
                    assert(types::parse_diagnostics(diags@) =~= told + s.2);
                }
            }
            self.make_forks(&mut more, ways, diags);
            let ghost firsts = states@;
            states.append(&mut more);
            i += 1;
            proof {
                let s = state::split_deep(st, models, i as int);
                let spread = state::split_states(
                    before.others,
                    way_models,
                    before.others.len() as int,
                );
                let own = state::split_state(before.state, way_models);
                assert(state_models(firsts) =~= spread.0);
                assert(state_models(states@) =~= spread.0 + (spread.1 + own.others));
                assert(types::parse_diagnostics(diags@) =~= said + s.diags);
            }
        }
        Some(states)
    }
}

/// A build that was given up at a layer stays given up.
proof fn lemma_given_up(st: SubModel, layers: Seq<Seq<ForkModel>>, n: int, m: int)
    requires
        0 <= n <= m,
        !state::split_deep(st, layers, n).goes_on,
    ensures
        state::split_deep(st, layers, m) == state::split_deep(st, layers, n),
    decreases m,
{
    if n < m {
        lemma_given_up(st, layers, n, m - 1);
    }
}

// ---------------------------------------------------------------------------------------------
// Ways

fn find_builds<'a>(
    entries: &'a Vec<TargetBuildMatrixEntry>,
    forced: Option<BuildId>,
    at: SourceSpan,
) -> (r: Vec<Fork<'a>>)
    ensures
        fork_models(r@) == state::allowed_builds(
            option::entry_models(entries@),
            forced,
            at,
            entries@.len() as int,
        ),
{
    let ghost models = option::entry_models(entries@);
    let mut r: Vec<Fork<'a>> = Vec::new();
    assert(fork_models(r@) =~= Seq::empty());
    let mut i: usize = 0;
    while i < entries.len()
        invariant
            i <= entries@.len(),
            models == option::entry_models(entries@),
            fork_models(r@) == state::allowed_builds(models, forced, at, i as int),
        decreases entries@.len() - i,
    {
        let allowed = match forced {
            None => true,
            Some(id) => id == entries[i].id,
        };
        let ghost before = r@;
        if allowed {
            r.push(Fork::Build(&entries[i], at));
            assert(fork_models(r@) =~= fork_models(before).push(
                ForkModel::Build(models[i as int], at),
            ));
        }
        i += 1;
    }
    r
}

fn layer_exists(settings: &Vec<UserSetting>, layer: u8) -> (r: bool)
    ensures
        r == state::has_layer(option::setting_models(settings@), layer as int),
{
    let ghost models = option::setting_models(settings@);
    let mut i: usize = 0;
    while i < settings.len()
        invariant
            i <= settings@.len(),
            models == option::setting_models(settings@),
            forall|k: int| 0 <= k < i ==> (#[trigger] models[k]).layer != layer,
        decreases settings@.len() - i,
    {
        assert(models[i as int].layer == settings@[i as int].layer);
        if settings[i].layer == layer {
            return true;
        }
        i += 1;
    }
    false
}

fn find_settings<'a>(settings: &'a Vec<UserSetting>, layer: u8, only: Option<&String>) -> (r: Vec<
    Fork<'a>,
>)
    ensures
        fork_models(r@) == state::allowed_settings(
            option::setting_models(settings@),
            layer as int,
            match only {
                None => None,
                Some(name) => Some(text::bytes_of(*name)),
            },
            settings@.len() as int,
        ),
{
    let ghost models = option::setting_models(settings@);
    let ghost only_name = match only {
        None => None,
        Some(name) => Some(text::bytes_of(*name)),
    };
    let mut r: Vec<Fork<'a>> = Vec::new();
    assert(fork_models(r@) =~= Seq::empty());
    let mut i: usize = 0;
    while i < settings.len()
        invariant
            i <= settings@.len(),
            models == option::setting_models(settings@),
            only_name == match only {
                None => None,
                Some(name) => Some(text::bytes_of(*name)),
            },
            fork_models(r@) == state::allowed_settings(
                models,
                layer as int,
                only_name,
                i as int,
            ),
        decreases settings@.len() - i,
    {
        let setting = &settings[i];
        assert(models[i as int] == setting@);
        let allowed = setting.layer == layer && match only {
            None => true,
            Some(name) => text::bytes_eq(
                setting.name.as_str().as_bytes(),
                name.as_str().as_bytes(),
            ),
        };
        let ghost before = r@;
        if allowed {
            r.push(Fork::Setting(setting));
            assert(fork_models(r@) =~= fork_models(before).push(ForkModel::Setting(setting@)));
        }
        i += 1;
    }
    r
}

fn find_layers<'a>(settings: &'a Vec<UserSetting>, options: &Vec<String>, from: usize) -> (r: Vec<
    Vec<Fork<'a>>,
>)
    ensures
        layer_models(r@) == state::setting_layers(
            option::setting_models(settings@),
            types::texts(options@),
            from as int,
            256,
        ),
{
    let ghost models = option::setting_models(settings@);
    let ghost names = types::texts(options@);
    let mut r: Vec<Vec<Fork<'a>>> = Vec::new();
    assert(layer_models(r@) =~= Seq::empty());
    let mut layer: u16 = 0;
    while layer < 256
        invariant
            layer <= 256,
            r@.len() <= layer,
            models == option::setting_models(settings@),
            names == types::texts(options@),
            layer_models(r@) == state::setting_layers(models, names, from as int, layer as int),
        decreases 256 - layer,
    {
        let number: u8 = layer as u8;
        assert(number == layer) by (bit_vector)
            requires
                layer < 256,
                number == layer as u8,
        ;
        if layer_exists(settings, number) {
            let only = if from < options.len() && r.len() < options.len() - from {
                Some(&options[from + r.len()])
            } else {
                None
            };
            let ways = find_settings(settings, number, only);
            let ghost before = r@;
            r.push(ways);
            assert(layer_models(r@) =~= layer_models(before).push(fork_models(ways@)));
        }
        layer += 1;
    }
    r
}

// ---------------------------------------------------------------------------------------------
// Steps

/// What the statements are read against.
pub struct Context<'a> {
    pub forced: &'a ForcedBuildOption,
    pub floats: &'a Vec<FloatReading>,
    pub limit: usize,
}

impl<'a> Context<'a> {
    /// The context is what `env` says besides the statements.
    pub open spec fn is_of(&self, env: EnvModel) -> bool {
        &&& env.forced == self.forced@
        &&& env.floats == types::reading_models(self.floats@)
        &&& env.limit == self.limit
    }
}

impl ParseSubState {
    fn option_step(
        &mut self,
        forced: &ForcedBuildOption,
        option: &NxpchOption,
        at: SourceSpan,
        new_states: &mut Vec<Self>,
        diags: &mut Vec<ParseDiagnostic>,
    ) -> (r: bool)
        requires
            old(self).wf(),
            old(new_states)@.len() == 0,
        ensures
            final(self).wf(),
            all_wf(final(new_states)@),
            ({
                let s = state::option_step(forced@, old(self)@, option@, at);
                &&& r == s.goes_on
                &&& final(self)@ == s.state
                &&& state_models(final(new_states)@) == s.others
                &&& types::parse_diagnostics(final(diags)@) == types::parse_diagnostics(
                    old(diags)@,
                ) + s.diags
            }),
    {
        let ghost st = self@;
        let ghost said = types::parse_diagnostics(diags@);
        assert(said + Seq::empty() =~= said);
        assert(state_models(new_states@) =~= Seq::empty());
        let ghost goal = state::option_step(forced@, st, option@, at);
        if !self.preprocessor.active() {
            return true;
        }
        match option {
            NxpchOption::ModName(name) => {
                self.mod_name = Some(name.0.clone());
                assert(self@ =~= goal.state);
                true
            },
            NxpchOption::ModVersion(version) => {
                self.mod_version = Some(version.0.clone());
                assert(self@ =~= goal.state);
                true
            },
            NxpchOption::TargetBuild(build) => {
                if let Some((_, original)) = self.target_build {
                    types::tell(diags, ParseDiagnostic::DuplicateBuildId { at, original });
                    return true;
                }
                if let Some(id) = forced.build_id {
                    if build.0 != id {
                        return self.early_exit();
                    }
                }
                self.target_build = Some((build.0, at));
                assert(self@ =~= goal.state);
                true
            },
            NxpchOption::TargetBuilds(builds) => {
                if let Some((_, original)) = self.target_build {
                    types::tell(diags, ParseDiagnostic::DuplicateBuildId { at, original });
                    return true;
                }
                let ways = find_builds(&builds.0, forced.build_id, at);
                self.make_forks(new_states, &ways, diags)
            },
            NxpchOption::UserSettings(settings) => {
                let layers = find_layers(
                    &settings.0,
                    &forced.options,
                    self.user_settings.len(),
                );
                match self.make_deep_forks(&layers, diags) {
                    Some(states) => {
                        *new_states = states;
                        true
                    },
                    None => false,
                }
            },
            NxpchOption::OutputFormat(format) => {
                match self.forced_output_format {
                    Some((_, original)) => {
                        types::tell(diags, ParseDiagnostic::DuplicateOutputFormat { at, original });
                    },
                    None => {
                        self.forced_output_format = Some((format.0, at));
                        assert(self@ =~= goal.state);
                    },
                }
                true
            },
            NxpchOption::PointerOffset(_) => true,
        }
    }

    fn directive_step(
        &mut self,
        directive: &PreprocessorDirective,
        limit: usize,
        diags: &mut Vec<ParseDiagnostic>,
    ) -> (r: Option<Halt>)
        requires
            old(self).wf(),
        ensures
            final(self).wf(),
            ({
                let s = state::directive_step(limit, old(self)@, directive@);
                &&& r matches Some(h) ==> s == Err::<SplitModel, HaltModel>(h@)
                &&& r is None ==> {
                    &&& s matches Ok(s)
                    &&& s.goes_on
                    &&& s.others.len() == 0
                    &&& final(self)@ == s.state
                    &&& types::parse_diagnostics(final(diags)@) == types::parse_diagnostics(
                        old(diags)@,
                    ) + s.diags
                }
            }),
    {
        let ghost st = self@;
        let mut said: Vec<PreprocessorDiagnostic> = Vec::new();
        assert(directive::diagnostics(said@) =~= Seq::empty());
        if !self.preprocessor.checked_exec(directive.clone(), limit, &mut said) {
            return Some(Halt::NoCondition);
        }
        proof {
            let ds = (crate::preprocessor::state::executed(st.pre, directive@)->0).1;
            assert(Seq::empty() + ds =~= ds);
            assert(self@ =~= SubModel { pre: self@.pre, ..st });
        }
        types::tell_all(diags, said);
        None
    }

    /// Adds what a line of code makes.
    fn add_line(
        &mut self,
        source_offset: usize,
        address: CodeAddress,
        line: &str,
        line_span: SourceSpan,
        floats: &Vec<FloatReading>,
        diags: &mut Vec<ParseDiagnostic>,
    ) -> (r: Result<Option<CodeAddress>, Halt>)
        requires
            old(self).wf(),
        ensures
            final(self).wf(),
            ({
                let parsed = code::line_parsed(
                    old(self)@.labels,
                    source_offset,
                    address@,
                    line.spec_bytes(),
                    line_span,
                    types::reading_models(floats@),
                );
                &&& r matches Err(h) ==> parsed == Err::<code::LineModel, HaltModel>(h@)
                &&& r matches Ok(next) ==> {
                    &&& parsed matches Ok(l)
                    &&& final(self)@ == old(self)@.with_line(l)
                    &&& opt_address(next) == l.next
                    &&& types::parse_diagnostics(final(diags)@) == types::parse_diagnostics(
                        old(diags)@,
                    ) + l.diags
                }
            }),
    {
        let ghost st = self@;
        let r = self.output.parse_code(source_offset, address, line, line_span, floats, diags);
        proof {
            let parsed = code::line_parsed(
                st.labels,
                source_offset,
                address@,
                line.spec_bytes(),
                line_span,
                types::reading_models(floats@),
            );
            if r is Ok {
                assert(self@ =~= st.with_line(parsed->Ok_0));
            }
        }
        r
    }

    fn assign_step(
        &mut self,
        t: &str,
        offsets: &Vec<usize>,
        k: usize,
        line_start: usize,
        line_span: SourceSpan,
        floats: &Vec<FloatReading>,
        diags: &mut Vec<ParseDiagnostic>,
    ) -> (r: Option<Halt>)
        requires
            old(self).wf(),
            k < t.spec_bytes().len(),
            t.spec_bytes()[k as int] == 0x3d,
            offsets@.len() == t.spec_bytes().len(),
        ensures
            final(self).wf(),
            ({
                let s = state::assign_step(
                    types::reading_models(floats@),
                    old(self)@,
                    t.spec_bytes(),
                    offsets@,
                    k as int,
                    line_start,
                    line_span,
                );
                &&& r matches Some(h) ==> s == Err::<SplitModel, HaltModel>(h@)
                &&& r is None ==> {
                    &&& s matches Ok(s)
                    &&& s.goes_on
                    &&& s.others.len() == 0
                    &&& final(self)@ == s.state
                    &&& types::parse_diagnostics(final(diags)@) == types::parse_diagnostics(
                        old(diags)@,
                    ) + s.diags
                }
            }),
    {
        let b = t.as_bytes();
        let end: usize = b.len();
        let ghost st = self@;
        let ghost said = types::parse_diagnostics(diags@);
        assert(said + Seq::empty() =~= said);
        self.end_multi_code(line_start);
        let ghost cleared = self@;
        let target_end = text::space_start(b, 0, k);
        let value = text::space_end(b, k + 1, end);
        proof {
            text::lemma_str_valid(t@);
            text::lemma_ascii_boundary(b@, k as int);
            text::lemma_drop_space(b@, 0, k as int);
            text::lemma_skip_space(b@, k + 1, end as int);
        }
        let target = text::slice(t, 0, target_end);
        let is_origin = text::bytes_eq(target.as_bytes(), ".origin".as_bytes());
        let (a, a_end) = if is_origin { (value, end) } else { (0, target_end) };
        if a >= end {
            return Some(Halt::NoValue);
        }
        let at = SourceSpan { offset: offsets[a], len: a_end - a };
        let address = match numbers::read_u32(text::slice(t, a, a_end)) {
            None => {
                return Some(Halt::BadSign);
            },
            Some(Err(e)) => {
                types::tell(
                    diags,
                    ParseDiagnostic::InvalidCodeAddress { cause: text::own(e.message()), at },
                );
                return None;
            },
            Some(Ok(address)) => address,
        };
        let address = match CodeAddress::new(address) {
            None => {
                types::tell(diags, ParseDiagnostic::UnsupportedCodeAddress { at });
                return None;
            },
            Some(address) => address,
        };
        if is_origin {
            self.code_multi = Some(address);
            assert(self@ =~= SubModel { multi: Some(address@), ..cleared });
            return None;
        }
        if value >= end {
            return Some(Halt::NoValue);
        }
        match self.add_line(
            offsets[value],
            address,
            text::slice(t, value, end),
            line_span,
            floats,
            diags,
        ) {
            Err(h) => Some(h),
            Ok(_) => None,
        }
    }

    fn follow_step(
        &mut self,
        t: &str,
        span: SourceSpan,
        line_span: SourceSpan,
        floats: &Vec<FloatReading>,
        diags: &mut Vec<ParseDiagnostic>,
    ) -> (r: Option<Halt>)
        requires
            old(self).wf(),
        ensures
            final(self).wf(),
            ({
                let s = state::follow_step(
                    types::reading_models(floats@),
                    old(self)@,
                    t.spec_bytes(),
                    span,
                    line_span,
                );
                &&& r matches Some(h) ==> s == Err::<SplitModel, HaltModel>(h@)
                &&& r is None ==> {
                    &&& s matches Ok(s)
                    &&& s.goes_on
                    &&& s.others.len() == 0
                    &&& final(self)@ == s.state
                    &&& types::parse_diagnostics(final(diags)@) == types::parse_diagnostics(
                        old(diags)@,
                    ) + s.diags
                }
            }),
    {
        let address = match self.code_multi {
            None => {
                types::tell(
                    diags,
                    ParseDiagnostic::NoOriginCode {
                        at: span,
                        cleared_from: self.code_multi_ended,
                    },
                );
                return None;
            },
            Some(address) => address,
        };
        let ghost st = self@;
        match self.add_line(span.offset, address, t, line_span, floats, diags) {
            Err(h) => Some(h),
            Ok(next) => {
                let ghost added = self@;
                self.code_multi = next;
                if next.is_none() {
                    self.code_multi_ended = Some(line_span.offset);
                }
                assert(self@ =~= SubModel {
                    multi: opt_address(next),
                    multi_ended: if next is None {
                        Some(line_span.offset)
                    } else {
                        st.multi_ended
                    },
                    ..added
                });
                None
            },
        }
    }

    fn code_step(
        &mut self,
        ctx: &Context,
        line: &str,
        span: SourceSpan,
        line_span: SourceSpan,
        diags: &mut Vec<ParseDiagnostic>,
        Ghost(env): Ghost<EnvModel>,
    ) -> (r: Option<Halt>)
        requires
            old(self).wf(),
            ctx.is_of(env),
        ensures
            final(self).wf(),
            ({
                let s = state::code_step(env, old(self)@, line.spec_bytes(), span, line_span);
                &&& r matches Some(h) ==> s == Err::<SplitModel, HaltModel>(h@)
                &&& r is None ==> {
                    &&& s matches Ok(s)
                    &&& s.goes_on
                    &&& s.others.len() == 0
                    &&& final(self)@ == s.state
                    &&& types::parse_diagnostics(final(diags)@) == types::parse_diagnostics(
                        old(diags)@,
                    ) + s.diags
                }
            }),
    {
        let ghost said = types::parse_diagnostics(diags@);
        assert(said + Seq::empty() =~= said);
        if !self.preprocessor.active() {
            return None;
        }
        let mut told: Vec<PreprocessorDiagnostic> = Vec::new();
        assert(directive::diagnostics(told@) =~= Seq::empty());
        let (t, offsets) = match self.preprocessor.preprocess_within(
            line,
            span.offset,
            ctx.limit,
            &mut told,
        ) {
            None => {
                return Some(Halt::NoExpansion);
            },
            Some(r) => r,
        };
        let ghost first = types::from_preprocessor(directive::diagnostics(told@));
        proof {
            let e = macros::expand_all(self@.pre.defines, line.spec_bytes(), span.offset)->0;
            let ds = directive::macro_diagnostics(e.2);
            assert(Seq::empty() + ds =~= ds);
        }
        types::tell_all(diags, told);
        let b = t.as_str().as_bytes();
        let end: usize = b.len();
        let k = text::byte_position(b, 0x3d, 0, end);
        proof {
            text::lemma_find_byte(b@, 0x3d, 0, end as int);
        }
        let ghost so_far = types::parse_diagnostics(diags@);
        let r = if k < end && text::byte_position(b, 0x22, 0, k) >= k {
            self.assign_step(
                t.as_str(),
                &offsets,
                k,
                span.offset,
                line_span,
                ctx.floats,
                diags,
            )
        } else {
            self.follow_step(t.as_str(), span, line_span, ctx.floats, diags)
        };
        proof {
            if r is None {
                let all = types::parse_diagnostics(diags@);
                let rest = all.subrange(so_far.len() as int, all.len() as int);
                assert(all =~= said + (first + rest));
                let s = state::code_step(env, old(self)@, line.spec_bytes(), span, line_span);
                assert((s->Ok_0).diags =~= first + rest);
            }
        }
        r
    }
}

/// What a state comes to.
pub struct Ran {
    pub states: Vec<ParseSubState>,
    pub next: usize,
    pub result: Option<ParsingResult>,
}

impl Ran {
    pub open spec fn is_of(&self, m: RanModel) -> bool {
        &&& all_wf(self.states@)
        &&& state_models(self.states@) == m.states
        &&& self.next == m.next
        &&& self.result is Some <==> m.result is Some
        &&& self.result matches Some(r) ==> r@ == m.result->0
    }
}

pub open spec fn env_of(
    ctx: &Context,
    statements: Seq<(Range<usize>, PreParsedStatement)>,
) -> EnvModel {
    EnvModel {
        statements: pre_parse::statement_models(statements),
        forced: ctx.forced@,
        floats: types::reading_models(ctx.floats@),
        limit: ctx.limit,
    }
}

impl ParseSubState {
    fn statement_step(
        &mut self,
        ctx: &Context,
        statement: &(Range<usize>, PreParsedStatement),
        new_states: &mut Vec<Self>,
        diags: &mut Vec<ParseDiagnostic>,
        Ghost(env): Ghost<EnvModel>,
    ) -> (r: Result<bool, Halt>)
        requires
            old(self).wf(),
            old(new_states)@.len() == 0,
            ctx.is_of(env),
        ensures
            final(self).wf(),
            all_wf(final(new_states)@),
            ({
                let s = state::statement_step(
                    env,
                    old(self)@,
                    pre_parse::placed_model(*statement),
                );
                &&& r matches Err(h) ==> s == Err::<SplitModel, HaltModel>(h@)
                &&& r matches Ok(goes_on) ==> {
                    &&& s matches Ok(s)
                    &&& goes_on == s.goes_on
                    &&& final(self)@ == s.state
                    &&& state_models(final(new_states)@) == s.others
                    &&& types::parse_diagnostics(final(diags)@) == types::parse_diagnostics(
                        old(diags)@,
                    ) + s.diags
                }
            }),
    {
        reveal(state::statement_step);
        assert(state_models(new_states@) =~= Seq::empty());
        let halt = match &statement.1 {
            PreParsedStatement::Option(option, at) => {
                return Ok(self.option_step(ctx.forced, option, *at, new_states, diags));
            },
            PreParsedStatement::Preprocessor(directive) => {
                self.directive_step(directive, ctx.limit, diags)
            },
            PreParsedStatement::Code(line, span) => {
                let range = &statement.0;
                let len: usize = if range.start < range.end {
                    range.end - range.start
                } else {
                    0
                };
                let line_span = SourceSpan { offset: range.start, len };
                self.code_step(ctx, line.as_str(), *span, line_span, diags, Ghost(env))
            },
        };
        proof {
            let s = state::statement_step(env, old(self)@, pre_parse::placed_model(*statement));
            if halt is None {
                assert((s->Ok_0).others =~= Seq::empty());
            }
        }
        match halt {
            Some(h) => Err(h),
            None => Ok(true),
        }
    }

    fn end(&mut self, diags: &mut Vec<ParseDiagnostic>)
        requires
            old(self).wf(),
        ensures
            final(self).wf(),
            state::finished(final(self)@) == state::finished(old(self)@),
            types::parse_diagnostics(final(diags)@) == types::parse_diagnostics(old(diags)@)
                + state::end_diagnostics(old(self)@),
    {
        reveal(state::finished);
        reveal(state::end_diagnostics);
        let ghost st = self@;
        let ghost said = types::parse_diagnostics(diags@);
        let mut told: Vec<PreprocessorDiagnostic> = Vec::new();
        assert(directive::diagnostics(told@) =~= Seq::empty());
        self.preprocessor.end(&mut told);
        let ghost blocks = crate::preprocessor::state::unterminated(st.pre.activity);
        assert(directive::diagnostics(told@) =~= blocks);
        types::tell_all(diags, told);
        assert(self@ =~= SubModel { pre: StateModel::fresh(), ..st });
        if self.output.code.len() > 0 || self.output.labels.len() > 0 {
            if self.mod_version.is_none() {
                types::tell(diags, ParseDiagnostic::MissingModVersion);
            }
            if self.target_build.is_none() {
                types::tell(diags, ParseDiagnostic::MissingBuildId);
            }
        }
        assert(types::parse_diagnostics(diags@) =~= said + state::end_diagnostics(st));
    }

    /// Reads the statements from index `from` on, until the state splits or comes to an end.
    pub fn run(
        self,
        ctx: &Context,
        statements: &Vec<(Range<usize>, PreParsedStatement)>,
        from: usize,
        diags: &mut Vec<ParseDiagnostic>,
    ) -> (r: Result<Ran, Halt>)
        requires
            self.wf(),
            from <= statements@.len(),
        ensures
            ({
                let m = state::ran(env_of(ctx, statements@), self@, from as int);
                &&& r matches Err(h) ==> m == Err::<RanModel, HaltModel>(h@)
                &&& r matches Ok(ran) ==> {
                    &&& m matches Ok(m)
                    &&& ran.is_of(m)
                    &&& ran.states@.len() > 0 ==> from < ran.next <= statements@.len()
                    &&& types::parse_diagnostics(final(diags)@) == types::parse_diagnostics(
                        old(diags)@,
                    ) + m.diags
                }
            }),
    {
        let ghost env = env_of(ctx, statements@);
        let ghost goal = state::ran(env, self@, from as int);
        let ghost before = types::parse_diagnostics(diags@);
        let ghost mut said: Seq<types::ParseDiagnosticModel> = Seq::empty();
        let mut st = self;
        let mut i: usize = from;
        proof {
            assert(before + said =~= before);
            if goal is Ok {
                assert(said + (goal->Ok_0).diags =~= (goal->Ok_0).diags);
            }
        }
        loop
            invariant
                st.wf(),
                from <= i <= statements@.len(),
                env == env_of(ctx, statements@),
                goal == state::ran(env, self@, from as int),
                goal == state::said_before(said, state::ran(env, st@, i as int)),
                before == types::parse_diagnostics(old(diags)@),
                types::parse_diagnostics(diags@) == before + said,
            decreases statements@.len() - i,
        {
            if i >= statements.len() {
                st.end(diags);
                let result = st.finish();
                assert(before + (goal->Ok_0).diags =~= types::parse_diagnostics(diags@));
                let r = Ran { states: Vec::new(), next: i, result };
                assert(state_models(r.states@) =~= Seq::empty());
                return Ok(r);
            }
            let ghost old_st = st@;
            let mut others: Vec<ParseSubState> = Vec::new();
            let step = st.statement_step(ctx, &statements[i], &mut others, diags, Ghost(env));
            assert(env.statements[i as int] == pre_parse::placed_model(statements@[i as int]));
            i += 1;
            match step {
                Err(h) => {
                    return Err(h);
                },
                Ok(goes_on) => {
                    let ghost s = state::statement_step(
                        env,
                        old_st,
                        env.statements[i - 1],
                    )->Ok_0;
                    let ghost earlier = said;
                    proof {
                        assert(types::parse_diagnostics(diags@) =~= before + (said + s.diags));
                        said = said + s.diags;
                    }
                    if !goes_on {
                        let result = st.finish();
                        let r = Ran { states: Vec::new(), next: i, result };
                        assert(state_models(r.states@) =~= Seq::empty());
                        return Ok(r);
                    }
                    if others.len() > 0 {
                        let ghost had = others@;
                        others.push(st);
                        let r = Ran { states: others, next: i, result: None };
                        assert(state_models(r.states@) =~= s.others.push(s.state)) by {
                            assert(state_models(had) == s.others);
                        }
                        assert(s.others.len() > 0) by {
                            assert(state_models(had).len() == had.len());
                        }
                        return Ok(r);
                    }
                    proof {
                        assert(s.others.len() == 0) by {
                            assert(state_models(others@).len() == others@.len());
                        }
                        state::lemma_step_on(env, old_st, i - 1, earlier);
                    }
                },
            }
        }
    }
}

} // verus!
