//! The state of one build while its source is read.

use crate::numbers;
use crate::option::{BuildId, EntryModel, OptionModel, OutputFormat, SettingModel};
use crate::parse::address::CodeAddress;
use crate::parse::code;
use crate::parse::code::{LabelModel, LineModel};
use crate::parse::types;
use crate::parse::types::{
    BuildTarget, CodeModel, ForcedModel, Halt, HaltModel, ParseDiagnostic, ParseDiagnosticModel,
    ReadingModel, ResultModel,
};
use crate::pre_parse::{PlacedModel, StatementModel};
use crate::preprocessor::directive;
use crate::preprocessor::directive::DirectiveModel;
use crate::preprocessor::macros;
use crate::preprocessor::macros::MacroModel;
use crate::preprocessor::state;
use crate::preprocessor::state::StateModel;
use crate::text;
use crate::utils;
use crate::utils::{AsSpan, SourceSpan};
use vstd::prelude::*;
use vstd::string::*;

verus! {

// ---------------------------------------------------------------------------------------------
// Model

/// What is known of a build while its source is read.
#[verifier::ext_equal]
pub struct SubModel {
    pub pre: StateModel,
    pub build_target: BuildTarget,
    pub mod_name: Option<Seq<u8>>,
    pub mod_version: Option<Seq<u8>>,
    pub target_build: Option<(BuildId, SourceSpan)>,
    pub user_settings: Seq<Seq<u8>>,
    pub forced_output_format: Option<(OutputFormat, SourceSpan)>,
    pub code: Seq<CodeModel>,
    pub labels: Seq<LabelModel>,
    /// The address of the next line, where lines follow an origin.
    pub multi: Option<u32>,
    /// Where the last origin lost its effect.
    pub multi_ended: Option<usize>,
}

impl SubModel {
    pub open spec fn fresh() -> SubModel {
        SubModel {
            pre: StateModel::fresh(),
            build_target: BuildTarget::Emulator,
            mod_name: None,
            mod_version: None,
            target_build: None,
            user_settings: Seq::empty(),
            forced_output_format: None,
            code: Seq::empty(),
            labels: Seq::empty(),
            multi: None,
            multi_ended: None,
        }
    }

    /// The build is given up.
    pub open spec fn exited(self) -> SubModel {
        SubModel { target_build: None, ..self }
    }

    pub open spec fn with_line(self, line: LineModel) -> SubModel {
        SubModel {
            code: self.code + code::opt_seq(line.code),
            labels: self.labels + code::opt_seq(line.label),
            ..self
        }
    }

    /// A line with an equals sign ends the effect of an origin.
    pub open spec fn multi_cleared(self, line_start: usize) -> SubModel {
        SubModel {
            multi: None,
            multi_ended: if self.multi is Some {
                Some(line_start)
            } else {
                self.multi_ended
            },
            ..self
        }
    }
}

/// The version of a mod that does not say its own.
pub const FALLBACK_MOD_VERSION: &'static str = "0.1.0";

/// The labels without their places.
pub open spec fn bare_labels(labels: Seq<LabelModel>) -> Seq<(Seq<u8>, u32)> {
    Seq::new(labels.len(), |i: int| (labels[i].name, labels[i].address))
}

/// The build that a state has come to; none where it has no build id.
#[verifier::opaque]
pub open spec fn finished(st: SubModel) -> Option<ResultModel> {
    match st.target_build {
        None => None,
        Some((target_build, _)) => Some(
            ResultModel {
                build_target: st.build_target,
                mod_name: st.mod_name,
                mod_version: match st.mod_version {
                    Some(v) => v,
                    None => FALLBACK_MOD_VERSION.spec_bytes(),
                },
                target_build,
                forced_output_format: match st.forced_output_format {
                    Some((f, _)) => Some(f),
                    None => None,
                },
                user_settings: st.user_settings,
                code: st.code,
                labels: bare_labels(st.labels),
            },
        ),
    }
}

/// The state after some macros have been defined, and what is said about them.
pub open spec fn defined_all(pre: StateModel, defines: Seq<MacroModel>, n: int) -> (
    StateModel,
    Seq<directive::DiagnosticModel>,
)
    decreases n,
{
    if n <= 0 {
        (pre, Seq::empty())
    } else {
        let (p, ds) = defined_all(pre, defines, n - 1);
        let m = defines[n - 1];
        let (q, d) = state::with_define(p, m, m.declaration_range.span());
        (q, ds + d)
    }
}

/// One of the ways on from a state that splits.
#[verifier::ext_equal]
pub enum ForkModel {
    Target(BuildTarget),
    Build(EntryModel, SourceSpan),
    Setting(SettingModel),
}

/// The name of the macro that a build for a target has.
pub open spec fn target_macro(target: BuildTarget) -> MacroModel {
    MacroModel {
        name: match target {
            BuildTarget::Emulator => "EMULATOR".spec_bytes(),
            BuildTarget::Hardware => "HARDWARE".spec_bytes(),
        },
        args: None,
        expansion: "1".spec_bytes(),
        declaration_range: (0, 0),
        expansion_offset: 0,
    }
}

pub open spec fn fork_defines(f: ForkModel) -> Seq<MacroModel> {
    match f {
        ForkModel::Target(target) => seq![target_macro(target)],
        ForkModel::Build(entry, _) => entry.defines,
        ForkModel::Setting(setting) => setting.defines,
    }
}

/// The state that goes a way, and what is said about the macros on it.
pub open spec fn forked(f: ForkModel, st: SubModel) -> (SubModel, Seq<ParseDiagnosticModel>) {
    let defines = fork_defines(f);
    let (pre, ds) = defined_all(st.pre, defines, defines.len() as int);
    let went = match f {
        ForkModel::Target(target) => SubModel { build_target: target, ..st },
        ForkModel::Build(entry, at) => SubModel { target_build: Some((entry.id, at)), ..st },
        ForkModel::Setting(setting) => SubModel {
            user_settings: st.user_settings.push(setting.name),
            ..st
        },
    };
    (SubModel { pre, ..went }, types::from_preprocessor(ds))
}

/// The states that go the second to the `n`th of some ways.
pub open spec fn other_forks(st: SubModel, ways: Seq<ForkModel>, n: int) -> (
    Seq<SubModel>,
    Seq<ParseDiagnosticModel>,
)
    decreases n,
{
    if n <= 1 {
        (Seq::empty(), Seq::empty())
    } else {
        let (ss, ds) = other_forks(st, ways, n - 1);
        let (s, d) = forked(ways[n - 1], st);
        (ss.push(s), ds + d)
    }
}

/// What comes of a state that splits: the one that goes the first way, and the others.
#[verifier::ext_equal]
pub struct SplitModel {
    pub goes_on: bool,
    pub state: SubModel,
    pub others: Seq<SubModel>,
    pub diags: Seq<ParseDiagnosticModel>,
}

/// A state splits; it is given up where there is no way on.
pub open spec fn split_state(st: SubModel, ways: Seq<ForkModel>) -> SplitModel {
    if ways.len() == 0 {
        SplitModel {
            goes_on: false,
            state: st.exited(),
            others: Seq::empty(),
            diags: Seq::empty(),
        }
    } else {
        let (others, ds) = other_forks(st, ways, ways.len() as int);
        let (first, d) = forked(ways[0], st);
        SplitModel { goes_on: true, state: first, others, diags: ds + d }
    }
}

/// The first `n` of some states, each split: those that go the first way, and the others.
pub open spec fn split_states(states: Seq<SubModel>, ways: Seq<ForkModel>, n: int) -> (
    Seq<SubModel>,
    Seq<SubModel>,
    Seq<ParseDiagnosticModel>,
)
    decreases n,
{
    if n <= 0 {
        (Seq::empty(), Seq::empty(), Seq::empty())
    } else {
        let (firsts, others, ds) = split_states(states, ways, n - 1);
        let s = split_state(states[n - 1], ways);
        (firsts.push(s.state), others + s.others, ds + s.diags)
    }
}

/// A state splits over the first `n` layers, at each of them into the ways of the layer.
pub open spec fn split_deep(st: SubModel, layers: Seq<Seq<ForkModel>>, n: int) -> SplitModel
    decreases n,
{
    if n <= 0 {
        SplitModel { goes_on: true, state: st, others: Seq::empty(), diags: Seq::empty() }
    } else {
        let before = split_deep(st, layers, n - 1);
        let ways = layers[n - 1];
        if !before.goes_on {
            before
        } else if ways.len() == 0 {
            SplitModel {
                goes_on: false,
                state: before.state.exited(),
                others: Seq::empty(),
                diags: before.diags,
            }
        } else {
            let (firsts, more, ds) = split_states(
                before.others,
                ways,
                before.others.len() as int,
            );
            let own = split_state(before.state, ways);
            SplitModel {
                goes_on: true,
                state: own.state,
                others: firsts + (more + own.others),
                diags: before.diags + (ds + own.diags),
            }
        }
    }
}

/// The builds of a list that are not ruled out, among the first `n`.
pub open spec fn allowed_builds(
    entries: Seq<EntryModel>,
    forced: Option<BuildId>,
    at: SourceSpan,
    n: int,
) -> Seq<ForkModel>
    decreases n,
{
    if n <= 0 {
        Seq::empty()
    } else {
        let before = allowed_builds(entries, forced, at, n - 1);
        if forced is None || forced == Some(entries[n - 1].id) {
            before.push(ForkModel::Build(entries[n - 1], at))
        } else {
            before
        }
    }
}

/// Some setting has the layer.
pub open spec fn has_layer(settings: Seq<SettingModel>, layer: int) -> bool {
    exists|i: int| 0 <= i < settings.len() && (#[trigger] settings[i]).layer == layer
}

/// The settings of a layer among the first `n`, with the only name that is allowed, where there
/// is one.
pub open spec fn allowed_settings(
    settings: Seq<SettingModel>,
    layer: int,
    only: Option<Seq<u8>>,
    n: int,
) -> Seq<ForkModel>
    decreases n,
{
    if n <= 0 {
        Seq::empty()
    } else {
        let before = allowed_settings(settings, layer, only, n - 1);
        let s = settings[n - 1];
        if s.layer == layer && (only is None || only == Some(s.name)) {
            before.push(ForkModel::Setting(s))
        } else {
            before
        }
    }
}

/// The name that is forced on the setting at an index.
pub open spec fn forced_name(options: Seq<Seq<u8>>, index: int) -> Option<Seq<u8>> {
    if 0 <= index < options.len() {
        Some(options[index])
    } else {
        None
    }
}

/// The layers below `n` that have settings, each with those of them that are allowed. The first
/// layer takes the name forced at index `from`.
pub open spec fn setting_layers(
    settings: Seq<SettingModel>,
    options: Seq<Seq<u8>>,
    from: int,
    n: int,
) -> Seq<Seq<ForkModel>>
    decreases n,
{
    if n <= 0 {
        Seq::empty()
    } else {
        let before = setting_layers(settings, options, from, n - 1);
        if has_layer(settings, n - 1) {
            before.push(
                allowed_settings(
                    settings,
                    n - 1,
                    forced_name(options, from + before.len()),
                    settings.len() as int,
                ),
            )
        } else {
            before
        }
    }
}

/// A state that goes on as it is.
pub open spec fn goes_on(st: SubModel, diags: Seq<ParseDiagnosticModel>) -> SplitModel {
    SplitModel { goes_on: true, state: st, others: Seq::empty(), diags }
}

/// What an option with its name at `at` makes of a state.
pub open spec fn option_step(
    forced: ForcedModel,
    st: SubModel,
    o: OptionModel,
    at: SourceSpan,
) -> SplitModel {
    if !st.pre.active() {
        goes_on(st, Seq::empty())
    } else {
        match o {
            OptionModel::ModName(name) => goes_on(
                SubModel { mod_name: Some(name), ..st },
                Seq::empty(),
            ),
            OptionModel::ModVersion(version) => goes_on(
                SubModel { mod_version: Some(version), ..st },
                Seq::empty(),
            ),
            OptionModel::TargetBuild(id) => match st.target_build {
                Some((_, original)) => goes_on(
                    st,
                    seq![ParseDiagnostic::DuplicateBuildId { at, original }],
                ),
                None => if forced.build_id is Some && forced.build_id != Some(id) {
                    SplitModel {
                        goes_on: false,
                        state: st.exited(),
                        others: Seq::empty(),
                        diags: Seq::empty(),
                    }
                } else {
                    goes_on(SubModel { target_build: Some((id, at)), ..st }, Seq::empty())
                },
            },
            OptionModel::TargetBuilds(entries) => match st.target_build {
                Some((_, original)) => goes_on(
                    st,
                    seq![ParseDiagnostic::DuplicateBuildId { at, original }],
                ),
                None => split_state(
                    st,
                    allowed_builds(entries, forced.build_id, at, entries.len() as int),
                ),
            },
            OptionModel::UserSettings(settings) => {
                let layers = setting_layers(
                    settings,
                    forced.options,
                    st.user_settings.len() as int,
                    256,
                );
                split_deep(st, layers, layers.len() as int)
            },
            OptionModel::OutputFormat(format) => match st.forced_output_format {
                Some((_, original)) => goes_on(
                    st,
                    seq![ParseDiagnostic::DuplicateOutputFormat { at, original }],
                ),
                None => goes_on(
                    SubModel { forced_output_format: Some((format, at)), ..st },
                    Seq::empty(),
                ),
            },
            OptionModel::PointerOffset(_) => goes_on(st, Seq::empty()),
        }
    }
}

/// What a directive makes of a state.
pub open spec fn directive_step(limit: usize, st: SubModel, d: DirectiveModel) -> Result<
    SplitModel,
    HaltModel,
> {
    if !state::executed_within(st.pre, d, limit) {
        Err(Halt::NoCondition)
    } else {
        match state::executed(st.pre, d) {
            None => Err(Halt::NoCondition),
            Some((pre, ds)) => Ok(
                goes_on(SubModel { pre, ..st }, types::from_preprocessor(ds)),
            ),
        }
    }
}

/// What a line of the form `target = value` makes of a state, where `k` is the offset of the
/// equals sign. Each byte of the line comes with its offset in the source.
pub open spec fn assign_step(
    floats: Seq<ReadingModel>,
    st: SubModel,
    t: Seq<u8>,
    offsets: Seq<usize>,
    k: int,
    line_start: usize,
    line_span: SourceSpan,
) -> Result<SplitModel, HaltModel> {
    let end = t.len() as int;
    let cleared = st.multi_cleared(line_start);
    let target_end = text::drop_space(t, 0, k);
    let value = text::skip_space(t, k + 1, end);
    let is_origin = t.subrange(0, target_end) == ".origin".spec_bytes();
    let (a, a_end) = if is_origin {
        (value, end)
    } else {
        (0, target_end)
    };
    if a >= end {
        Err(Halt::NoValue)
    } else {
        let at = SourceSpan { offset: offsets[a], len: (a_end - a) as usize };
        match numbers::unsigned_u32(t.subrange(a, a_end)) {
            None => Err(Halt::BadSign),
            Some(Err(e)) => Ok(
                goes_on(
                    cleared,
                    seq![
                        ParseDiagnostic::InvalidCodeAddress {
                            cause: e.spec_message().spec_bytes(),
                            at,
                        },
                    ],
                ),
            ),
            Some(Ok(address)) => if address > CodeAddress::MAX_ALLOWED_ADDR {
                Ok(goes_on(cleared, seq![ParseDiagnostic::UnsupportedCodeAddress { at }]))
            } else if is_origin {
                Ok(goes_on(SubModel { multi: Some(address), ..cleared }, Seq::empty()))
            } else if value >= end {
                Err(Halt::NoValue)
            } else {
                match code::line_parsed(
                    cleared.labels,
                    offsets[value],
                    address,
                    t.subrange(value, end),
                    line_span,
                    floats,
                ) {
                    Err(h) => Err(h),
                    Ok(line) => Ok(goes_on(cleared.with_line(line), line.diags)),
                }
            },
        }
    }
}

/// What a line of code that is no assignment makes of a state.
pub open spec fn follow_step(
    floats: Seq<ReadingModel>,
    st: SubModel,
    t: Seq<u8>,
    span: SourceSpan,
    line_span: SourceSpan,
) -> Result<SplitModel, HaltModel> {
    match st.multi {
        None => Ok(
            goes_on(
                st,
                seq![ParseDiagnostic::NoOriginCode { at: span, cleared_from: st.multi_ended }],
            ),
        ),
        Some(address) => match code::line_parsed(
            st.labels,
            span.offset,
            address,
            t,
            line_span,
            floats,
        ) {
            Err(h) => Err(h),
            Ok(line) => Ok(
                goes_on(
                    SubModel {
                        multi: line.next,
                        multi_ended: if line.next is None {
                            Some(line_span.offset)
                        } else {
                            st.multi_ended
                        },
                        ..st.with_line(line)
                    },
                    line.diags,
                ),
            ),
        },
    }
}

/// The offset of the equals sign of an assignment: the first one, if no quote stands before it.
pub open spec fn assign_sign(t: Seq<u8>) -> Option<int> {
    let k = text::find_byte(t, 0x3d, 0, t.len() as int);
    if k < t.len() && text::find_byte(t, 0x22, 0, k) >= k {
        Some(k)
    } else {
        None
    }
}

/// What a line of code makes of a state.
pub open spec fn code_step(
    env: EnvModel,
    st: SubModel,
    line: Seq<u8>,
    span: SourceSpan,
    line_span: SourceSpan,
) -> Result<SplitModel, HaltModel> {
    if !st.pre.active() {
        Ok(goes_on(st, Seq::empty()))
    } else if macros::expand_steps(
        st.pre.defines,
        macros::unexpanded(line, span.offset),
        env.limit as nat,
    ) is None {
        Err(Halt::NoExpansion)
    } else {
        let (t, offsets, said) = macros::expand_all(st.pre.defines, line, span.offset)->0;
        let told = types::from_preprocessor(directive::macro_diagnostics(said));
        let step = match assign_sign(t) {
            Some(k) => assign_step(env.floats, st, t, offsets, k, span.offset, line_span),
            None => follow_step(env.floats, st, t, span, line_span),
        };
        match step {
            Err(h) => Err(h),
            Ok(s) => Ok(SplitModel { diags: told + s.diags, ..s }),
        }
    }
}

/// What the statements are read against: what is forced, what floating-point numbers are known,
/// and how many steps an expansion may take.
#[verifier::ext_equal]
pub struct EnvModel {
    pub statements: Seq<PlacedModel>,
    pub forced: ForcedModel,
    pub floats: Seq<ReadingModel>,
    pub limit: usize,
}

/// What a statement makes of a state.
#[verifier::opaque]
pub open spec fn statement_step(env: EnvModel, st: SubModel, s: PlacedModel) -> Result<
    SplitModel,
    HaltModel,
> {
    match s.statement {
        StatementModel::Option(o, at) => Ok(option_step(env.forced, st, o, at)),
        StatementModel::Preprocessor(d) => directive_step(env.limit, st, d),
        StatementModel::Code(line, span) => code_step(
            env,
            st,
            line,
            span,
            SourceSpan { offset: s.start, len: utils::range_len(s.start, s.end) },
        ),
    }
}

/// What is said at the end of the source.
#[verifier::opaque]
pub open spec fn end_diagnostics(st: SubModel) -> Seq<ParseDiagnosticModel> {
    let open_blocks = types::from_preprocessor(state::unterminated(st.pre.activity));
    if st.code.len() == 0 && st.labels.len() == 0 {
        open_blocks
    } else {
        open_blocks + (if st.mod_version is None {
            seq![ParseDiagnostic::MissingModVersion]
        } else {
            Seq::empty()
        }) + (if st.target_build is None {
            seq![ParseDiagnostic::MissingBuildId]
        } else {
            Seq::empty()
        })
    }
}

/// What a state comes to: the states that it splits into, with the index of the statement that
/// they go on at, or the build that it has come to.
#[verifier::ext_equal]
pub struct RanModel {
    pub states: Seq<SubModel>,
    pub next: int,
    pub result: Option<ResultModel>,
    pub diags: Seq<ParseDiagnosticModel>,
}

/// What a state comes to from statement `i` on.
pub open spec fn ran(env: EnvModel, st: SubModel, i: int) -> Result<RanModel, HaltModel>
    decreases env.statements.len() - i,
{
    if i < 0 || i >= env.statements.len() {
        Ok(
            RanModel {
                states: Seq::empty(),
                next: i,
                result: finished(st),
                diags: end_diagnostics(st),
            },
        )
    } else {
        match statement_step(env, st, env.statements[i]) {
            Err(h) => Err(h),
            Ok(s) => if !s.goes_on {
                Ok(
                    RanModel {
                        states: Seq::empty(),
                        next: i + 1,
                        result: finished(s.state),
                        diags: s.diags,
                    },
                )
            } else if s.others.len() > 0 {
                Ok(
                    RanModel {
                        states: s.others.push(s.state),
                        next: i + 1,
                        result: None,
                        diags: s.diags,
                    },
                )
            } else {
                match ran(env, s.state, i + 1) {
                    Err(h) => Err(h),
                    Ok(r) => Ok(RanModel { diags: s.diags + r.diags, ..r }),
                }
            },
        }
    }
}

/// What was said before, in front of what a state comes to.
pub open spec fn said_before(
    said: Seq<ParseDiagnosticModel>,
    r: Result<RanModel, HaltModel>,
) -> Result<RanModel, HaltModel> {
    match r {
        Err(h) => Err(h),
        Ok(r) => Ok(RanModel { diags: said + r.diags, ..r }),
    }
}

/// A state and the index of the statement that it goes on at.
#[verifier::ext_equal]
pub struct ActiveModel {
    pub state: SubModel,
    pub next: int,
}

pub open spec fn active_models(states: Seq<SubModel>, next: int) -> Seq<ActiveModel> {
    Seq::new(states.len(), |i: int| ActiveModel { state: states[i], next })
}

/// What a round of the states comes to: the states of the next round, and the builds.
#[verifier::ext_equal]
pub struct RoundModel {
    pub active: Seq<ActiveModel>,
    pub results: Seq<ResultModel>,
    pub diags: Seq<ParseDiagnosticModel>,
}

/// What the first `n` states of a round come to.
pub open spec fn round(env: EnvModel, active: Seq<ActiveModel>, n: int) -> Result<
    RoundModel,
    HaltModel,
>
    decreases n,
{
    if n <= 0 {
        Ok(RoundModel { active: Seq::empty(), results: Seq::empty(), diags: Seq::empty() })
    } else {
        match round(env, active, n - 1) {
            Err(h) => Err(h),
            Ok(before) => match ran(env, active[n - 1].state, active[n - 1].next) {
                Err(h) => Err(h),
                Ok(r) => Ok(
                    RoundModel {
                        active: before.active + active_models(r.states, r.next),
                        results: before.results + code::opt_seq(r.result),
                        diags: before.diags + r.diags,
                    },
                ),
            },
        }
    }
}

/// The builds that the states come to in no more than `left` rounds, and what is said on the way.
pub open spec fn rounds(env: EnvModel, active: Seq<ActiveModel>, left: nat) -> Result<
    (Seq<ResultModel>, Seq<ParseDiagnosticModel>),
    HaltModel,
>
    decreases left,
{
    if active.len() == 0 || left == 0 {
        Ok((Seq::empty(), Seq::empty()))
    } else {
        match round(env, active, active.len() as int) {
            Err(h) => Err(h),
            Ok(r) => match rounds(env, r.active, (left - 1) as nat) {
                Err(h) => Err(h),
                Ok((results, diags)) => Ok((r.results + results, r.diags + diags)),
            },
        }
    }
}

/// The state with the macros from outside of the source.
pub open spec fn with_initial(defines: Seq<MacroModel>) -> (SubModel, Seq<ParseDiagnosticModel>) {
    let (pre, ds) = defined_all(StateModel::fresh(), defines, defines.len() as int);
    (SubModel { pre, ..SubModel::fresh() }, types::from_preprocessor(ds))
}

pub open spec fn target_forks(targets: Seq<BuildTarget>) -> Seq<ForkModel> {
    Seq::new(targets.len(), |i: int| ForkModel::Target(targets[i]))
}

/// The builds that a source makes for some targets, with macros from outside of it, and what is
/// said about it. A source of `n` statements takes no more than `n + 1` rounds.
pub open spec fn parsed(
    env: EnvModel,
    defines: Seq<MacroModel>,
    targets: Seq<BuildTarget>,
) -> Result<(Seq<ResultModel>, Seq<ParseDiagnosticModel>), HaltModel> {
    let (start, said) = with_initial(defines);
    let s = split_state(start, target_forks(targets));
    let first = active_models(seq![s.state] + s.others, 0);
    match rounds(env, first, env.statements.len() + 1) {
        Err(h) => Err(h),
        Ok((results, diags)) => Ok((results, said + s.diags + diags)),
    }
}

/// A step that neither splits a state nor ends it.
pub proof fn lemma_step_on(env: EnvModel, st: SubModel, i: int, said: Seq<ParseDiagnosticModel>)
    requires
        0 <= i < env.statements.len(),
        statement_step(env, st, env.statements[i]) matches Ok(s) && s.goes_on && s.others.len()
            == 0,
    ensures
        ({
            let s = statement_step(env, st, env.statements[i])->Ok_0;
            said_before(said, ran(env, st, i)) == said_before(
                said + s.diags,
                ran(env, s.state, i + 1),
            )
        }),
{
    let s = statement_step(env, st, env.statements[i])->Ok_0;
    let rest = ran(env, s.state, i + 1);
    if rest is Ok {
        let d = (rest->Ok_0).diags;
        assert(said + (s.diags + d) =~= (said + s.diags) + d);
    }
}

} // verus!
