//! What holds of every build of every source.

use crate::option::{EntryModel, OptionModel, SettingModel};
use crate::parse::address::CodeAddress;
use crate::parse::code;
use crate::parse::state;
use crate::parse::state::{ActiveModel, EnvModel, ForkModel, SplitModel, SubModel};
use crate::parse::types::{BuildTarget, CodeModel, ForcedModel, HaltModel, ResultModel};
use crate::pre_parse::{PlacedModel, StatementModel};
use crate::preprocessor::macros::MacroModel;
use crate::utils::SourceSpan;
use vstd::prelude::*;

verus! {

/// The settings are those that are forced, as far as there are any.
pub open spec fn settings_obey(forced: ForcedModel, settings: Seq<Seq<u8>>) -> bool {
    forall|j: int|
        0 <= j < settings.len() && j < forced.options.len() ==> (#[trigger] settings[j])
            == forced.options[j]
}

/// All the code lies at addresses that fit.
pub open spec fn addresses_fit(code: Seq<CodeModel>) -> bool {
    forall|j: int|
        0 <= j < code.len() ==> (#[trigger] code[j]).address <= CodeAddress::MAX_ALLOWED_ADDR
}

/// What holds of a build at every statement.
pub open spec fn sound(forced: ForcedModel, targets: Seq<BuildTarget>, st: SubModel) -> bool {
    &&& st.target_build matches Some((id, _)) ==> forced.build_id is None || forced.build_id
        == Some(id)
    &&& targets.len() > 0 ==> targets.contains(st.build_target)
    &&& settings_obey(forced, st.user_settings)
    &&& code::distinct(st.labels)
    &&& addresses_fit(st.code)
    &&& st.multi matches Some(a) ==> a <= CodeAddress::MAX_ALLOWED_ADDR
}

pub open spec fn all_sound(forced: ForcedModel, targets: Seq<BuildTarget>, ss: Seq<SubModel>) -> bool {
    forall|i: int| 0 <= i < ss.len() ==> sound(forced, targets, #[trigger] ss[i])
}

/// The way leads to a sound state from each sound state that has `count` settings.
spec fn way_sound(forced: ForcedModel, targets: Seq<BuildTarget>, f: ForkModel, count: int) -> bool {
    match f {
        ForkModel::Target(t) => targets.contains(t),
        ForkModel::Build(entry, _) => forced.build_id is None || forced.build_id == Some(entry.id),
        ForkModel::Setting(s) => count < forced.options.len() ==> s.name == forced.options[count],
    }
}

spec fn ways_sound(
    forced: ForcedModel,
    targets: Seq<BuildTarget>,
    ways: Seq<ForkModel>,
    count: int,
) -> bool {
    forall|i: int| 0 <= i < ways.len() ==> way_sound(forced, targets, #[trigger] ways[i], count)
}

proof fn lemma_forked(forced: ForcedModel, targets: Seq<BuildTarget>, f: ForkModel, st: SubModel)
    requires
        sound(forced, targets, st),
        way_sound(forced, targets, f, st.user_settings.len() as int),
    ensures
        sound(forced, targets, state::forked(f, st).0),
        state::forked(f, st).0.user_settings.len() == st.user_settings.len() + (if f is Setting {
            1int
        } else {
            0
        }),
{
}

proof fn lemma_other_forks(
    forced: ForcedModel,
    targets: Seq<BuildTarget>,
    st: SubModel,
    ways: Seq<ForkModel>,
    n: int,
)
    requires
        sound(forced, targets, st),
        ways_sound(forced, targets, ways, st.user_settings.len() as int),
        n <= ways.len(),
    ensures
        all_sound(forced, targets, state::other_forks(st, ways, n).0),
        forall|i: int|
            0 <= i < state::other_forks(st, ways, n).0.len() ==> (#[trigger] state::other_forks(
                st,
                ways,
                n,
            ).0[i]) == state::forked(ways[i + 1], st).0,
        n >= 1 ==> state::other_forks(st, ways, n).0.len() == n - 1,
    decreases n,
{
    if n > 1 {
        lemma_other_forks(forced, targets, st, ways, n - 1);
        lemma_forked(forced, targets, ways[n - 1], st);
    }
}

/// All ways are settings.
spec fn are_settings(ways: Seq<ForkModel>) -> bool {
    forall|i: int| 0 <= i < ways.len() ==> (#[trigger] ways[i]) is Setting
}

spec fn all_count(ss: Seq<SubModel>, count: int) -> bool {
    forall|i: int| 0 <= i < ss.len() ==> (#[trigger] ss[i]).user_settings.len() == count
}

proof fn lemma_split_state(
    forced: ForcedModel,
    targets: Seq<BuildTarget>,
    st: SubModel,
    ways: Seq<ForkModel>,
)
    requires
        sound(forced, targets, st),
        ways_sound(forced, targets, ways, st.user_settings.len() as int),
    ensures
        sound(forced, targets, state::split_state(st, ways).state),
        all_sound(forced, targets, state::split_state(st, ways).others),
        are_settings(ways) && ways.len() > 0 ==> {
            let count = st.user_settings.len() as int + 1;
            &&& state::split_state(st, ways).state.user_settings.len() == count
            &&& all_count(state::split_state(st, ways).others, count)
        },
{
    if ways.len() > 0 {
        lemma_other_forks(forced, targets, st, ways, ways.len() as int);
        lemma_forked(forced, targets, ways[0], st);
        if are_settings(ways) {
            let others = state::split_state(st, ways).others;
            assert forall|i: int| 0 <= i < others.len() implies (
            #[trigger] others[i]).user_settings.len() == st.user_settings.len() + 1 by {
                assert(ways[i + 1] is Setting);
                lemma_forked(forced, targets, ways[i + 1], st);
            }
        }
    }
}

proof fn lemma_split_states(
    forced: ForcedModel,
    targets: Seq<BuildTarget>,
    states: Seq<SubModel>,
    ways: Seq<ForkModel>,
    count: int,
    n: int,
)
    requires
        all_sound(forced, targets, states),
        all_count(states, count),
        ways_sound(forced, targets, ways, count),
        are_settings(ways),
        ways.len() > 0,
        0 <= n <= states.len(),
    ensures
        ({
            let s = state::split_states(states, ways, n);
            &&& all_sound(forced, targets, s.0)
            &&& all_sound(forced, targets, s.1)
            &&& all_count(s.0, count + 1)
            &&& all_count(s.1, count + 1)
        }),
    decreases n,
{
    if n > 0 {
        lemma_split_states(forced, targets, states, ways, count, n - 1);
        assert(sound(forced, targets, states[n - 1]));
        assert(states[n - 1].user_settings.len() == count);
        lemma_split_state(forced, targets, states[n - 1], ways);
    }
}

/// Each of the layers has only the settings that are forced at its place.
spec fn layers_sound(
    forced: ForcedModel,
    targets: Seq<BuildTarget>,
    layers: Seq<Seq<ForkModel>>,
    from: int,
) -> bool {
    forall|i: int|
        0 <= i < layers.len() ==> ways_sound(forced, targets, #[trigger] layers[i], from + i)
            && are_settings(layers[i])
}

proof fn lemma_split_deep(
    forced: ForcedModel,
    targets: Seq<BuildTarget>,
    st: SubModel,
    layers: Seq<Seq<ForkModel>>,
    n: int,
)
    requires
        sound(forced, targets, st),
        layers_sound(forced, targets, layers, st.user_settings.len() as int),
        0 <= n <= layers.len(),
    ensures
        ({
            let s = state::split_deep(st, layers, n);
            &&& sound(forced, targets, s.state)
            &&& all_sound(forced, targets, s.others)
            &&& s.goes_on ==> s.state.user_settings.len() == st.user_settings.len() + n
            &&& s.goes_on ==> all_count(s.others, st.user_settings.len() + n)
        }),
    decreases n,
{
    if n > 0 {
        lemma_split_deep(forced, targets, st, layers, n - 1);
        let before = state::split_deep(st, layers, n - 1);
        let ways = layers[n - 1];
        let count = st.user_settings.len() + (n - 1);
        if before.goes_on && ways.len() > 0 {
            assert(ways_sound(forced, targets, layers[n - 1], count));
            lemma_split_states(
                forced,
                targets,
                before.others,
                ways,
                count,
                before.others.len() as int,
            );
            lemma_split_state(forced, targets, before.state, ways);
        }
    }
}

proof fn lemma_allowed_builds(
    forced: ForcedModel,
    targets: Seq<BuildTarget>,
    entries: Seq<EntryModel>,
    at: SourceSpan,
    n: int,
    count: int,
)
    ensures
        ways_sound(
            forced,
            targets,
            state::allowed_builds(entries, forced.build_id, at, n),
            count,
        ),
    decreases n,
{
    if n > 0 {
        lemma_allowed_builds(forced, targets, entries, at, n - 1, count);
    }
}

proof fn lemma_allowed_settings(
    forced: ForcedModel,
    targets: Seq<BuildTarget>,
    settings: Seq<SettingModel>,
    layer: int,
    index: int,
    n: int,
)
    requires
        0 <= index,
    ensures
        ({
            let only = state::forced_name(forced.options, index);
            let ways = state::allowed_settings(settings, layer, only, n);
            ways_sound(forced, targets, ways, index) && are_settings(ways)
        }),
    decreases n,
{
    if n > 0 {
        lemma_allowed_settings(forced, targets, settings, layer, index, n - 1);
    }
}

proof fn lemma_setting_layers(
    forced: ForcedModel,
    targets: Seq<BuildTarget>,
    settings: Seq<SettingModel>,
    from: int,
    n: int,
)
    requires
        0 <= from,
    ensures
        layers_sound(
            forced,
            targets,
            state::setting_layers(settings, forced.options, from, n),
            from,
        ),
    decreases n,
{
    if n > 0 {
        lemma_setting_layers(forced, targets, settings, from, n - 1);
        let before = state::setting_layers(settings, forced.options, from, n - 1);
        lemma_allowed_settings(
            forced,
            targets,
            settings,
            n - 1,
            from + before.len(),
            settings.len() as int,
        );
    }
}

proof fn lemma_option_step(
    forced: ForcedModel,
    targets: Seq<BuildTarget>,
    st: SubModel,
    o: OptionModel,
    at: SourceSpan,
)
    requires
        sound(forced, targets, st),
    ensures
        sound(forced, targets, state::option_step(forced, st, o, at).state),
        all_sound(forced, targets, state::option_step(forced, st, o, at).others),
{
    match o {
        OptionModel::TargetBuilds(entries) => {
            let n = entries.len() as int;
            let count = st.user_settings.len() as int;
            lemma_allowed_builds(forced, targets, entries, at, n, count);
            lemma_split_state(
                forced,
                targets,
                st,
                state::allowed_builds(entries, forced.build_id, at, n),
            );
        },
        OptionModel::UserSettings(settings) => {
            let from = st.user_settings.len() as int;
            lemma_setting_layers(forced, targets, settings, from, 256);
            let layers = state::setting_layers(settings, forced.options, from, 256);
            lemma_split_deep(forced, targets, st, layers, layers.len() as int);
        },
        _ => {},
    }
}

proof fn lemma_line(
    forced: ForcedModel,
    targets: Seq<BuildTarget>,
    env: EnvModel,
    st: SubModel,
    source_offset: usize,
    address: u32,
    code: Seq<u8>,
    line_span: SourceSpan,
)
    requires
        sound(forced, targets, st),
        address <= CodeAddress::MAX_ALLOWED_ADDR,
    ensures
        code::line_parsed(
            st.labels,
            source_offset,
            address,
            code,
            line_span,
            env.floats,
        ) matches Ok(line) ==> {
            &&& sound(forced, targets, st.with_line(line))
            &&& line.next matches Some(next) ==> next <= CodeAddress::MAX_ALLOWED_ADDR
        },
{
    code::law_labels_stay_distinct(
        st.labels,
        source_offset,
        address,
        code,
        line_span,
        env.floats,
    );
    code::law_code_fits(st.labels, source_offset, address, code, line_span, env.floats);
    match code::line_parsed(st.labels, source_offset, address, code, line_span, env.floats) {
        Ok(line) => {
            let after = st.with_line(line);
            assert forall|j: int| 0 <= j < after.code.len() implies (
            #[trigger] after.code[j]).address <= CodeAddress::MAX_ALLOWED_ADDR by {
                if j < st.code.len() {
                    assert(after.code[j] == st.code[j]);
                }
            }
        },
        Err(_) => {},
    }
}

proof fn lemma_code_step(
    targets: Seq<BuildTarget>,
    env: EnvModel,
    st: SubModel,
    line: Seq<u8>,
    span: SourceSpan,
    line_span: SourceSpan,
)
    requires
        sound(env.forced, targets, st),
    ensures
        state::code_step(env, st, line, span, line_span) matches Ok(s) ==> {
            &&& sound(env.forced, targets, s.state)
            &&& s.others.len() == 0
        },
{
    let (t, offsets, said) = crate::preprocessor::macros::expand_all(
        st.pre.defines,
        line,
        span.offset,
    )->0;
    let end = t.len() as int;
    match state::assign_sign(t) {
        Some(k) => {
            let cleared = st.multi_cleared(span.offset);
            assert(sound(env.forced, targets, cleared));
            let value = crate::text::skip_space(t, k + 1, end);
            let target_end = crate::text::drop_space(t, 0, k);
            match crate::numbers::unsigned_u32(t.subrange(0, target_end)) {
                Some(Ok(address)) => {
                    if address <= CodeAddress::MAX_ALLOWED_ADDR {
                        lemma_line(
                            env.forced,
                            targets,
                            env,
                            cleared,
                            offsets[value],
                            address,
                            t.subrange(value, end),
                            line_span,
                        );
                    }
                },
                _ => {},
            }
        },
        None => {
            if st.multi is Some {
                lemma_line(
                    env.forced,
                    targets,
                    env,
                    st,
                    span.offset,
                    st.multi->0,
                    t,
                    line_span,
                );
            }
        },
    }
}

proof fn lemma_statement_step(targets: Seq<BuildTarget>, env: EnvModel, st: SubModel, s: PlacedModel)
    requires
        sound(env.forced, targets, st),
    ensures
        state::statement_step(env, st, s) matches Ok(r) ==> {
            &&& sound(env.forced, targets, r.state)
            &&& all_sound(env.forced, targets, r.others)
        },
{
    reveal(state::statement_step);
    match s.statement {
        StatementModel::Option(o, at) => lemma_option_step(env.forced, targets, st, o, at),
        StatementModel::Preprocessor(_) => {},
        StatementModel::Code(line, span) => lemma_code_step(
            targets,
            env,
            st,
            line,
            span,
            SourceSpan { offset: s.start, len: crate::utils::range_len(s.start, s.end) },
        ),
    }
}

/// What holds of every build.
pub open spec fn result_sound(
    forced: ForcedModel,
    targets: Seq<BuildTarget>,
    r: ResultModel,
) -> bool {
    &&& forced.build_id is None || forced.build_id == Some(r.target_build)
    &&& targets.len() > 0 ==> targets.contains(r.build_target)
    &&& settings_obey(forced, r.user_settings)
    &&& forall|i: int, j: int|
        0 <= i < j < r.labels.len() ==> (#[trigger] r.labels[i]).0 != (#[trigger] r.labels[j]).0
    &&& addresses_fit(r.code)
}

pub open spec fn results_sound(
    forced: ForcedModel,
    targets: Seq<BuildTarget>,
    rs: Seq<ResultModel>,
) -> bool {
    forall|i: int| 0 <= i < rs.len() ==> result_sound(forced, targets, #[trigger] rs[i])
}

proof fn lemma_finished(forced: ForcedModel, targets: Seq<BuildTarget>, st: SubModel)
    requires
        sound(forced, targets, st),
    ensures
        state::finished(st) matches Some(r) ==> result_sound(forced, targets, r),
{
    reveal(state::finished);
    match state::finished(st) {
        Some(r) => {
            assert forall|i: int, j: int| 0 <= i < j < r.labels.len() implies (
            #[trigger] r.labels[i]).0 != (#[trigger] r.labels[j]).0 by {
                assert(st.labels[i].name != st.labels[j].name);
            }
        },
        None => {},
    }
}

proof fn lemma_ran(targets: Seq<BuildTarget>, env: EnvModel, st: SubModel, i: int)
    requires
        sound(env.forced, targets, st),
    ensures
        state::ran(env, st, i) matches Ok(r) ==> {
            &&& all_sound(env.forced, targets, r.states)
            &&& r.result matches Some(result) ==> result_sound(env.forced, targets, result)
        },
    decreases env.statements.len() - i,
{
    if i < 0 || i >= env.statements.len() {
        lemma_finished(env.forced, targets, st);
    } else {
        lemma_statement_step(targets, env, st, env.statements[i]);
        match state::statement_step(env, st, env.statements[i]) {
            Ok(s) => {
                lemma_finished(env.forced, targets, s.state);
                lemma_ran(targets, env, s.state, i + 1);
            },
            Err(_) => {},
        }
    }
}

spec fn active_sound(
    forced: ForcedModel,
    targets: Seq<BuildTarget>,
    active: Seq<ActiveModel>,
) -> bool {
    forall|i: int| 0 <= i < active.len() ==> sound(forced, targets, (#[trigger] active[i]).state)
}

proof fn lemma_round(targets: Seq<BuildTarget>, env: EnvModel, active: Seq<ActiveModel>, n: int)
    requires
        active_sound(env.forced, targets, active),
        n <= active.len(),
    ensures
        state::round(env, active, n) matches Ok(r) ==> {
            &&& active_sound(env.forced, targets, r.active)
            &&& results_sound(env.forced, targets, r.results)
        },
    decreases n,
{
    if n > 0 {
        lemma_round(targets, env, active, n - 1);
        assert(sound(env.forced, targets, active[n - 1].state));
        lemma_ran(targets, env, active[n - 1].state, active[n - 1].next);
        match (
            state::round(env, active, n - 1),
            state::ran(env, active[n - 1].state, active[n - 1].next),
        ) {
            (Ok(before), Ok(r)) => {
                let after = state::round(env, active, n)->Ok_0;
                assert forall|i: int| 0 <= i < after.active.len() implies sound(
                    env.forced,
                    targets,
                    (#[trigger] after.active[i]).state,
                ) by {
                    if i < before.active.len() {
                        assert(after.active[i] == before.active[i]);
                    } else {
                        assert(after.active[i].state == r.states[i - before.active.len()]);
                    }
                }
                assert forall|i: int| 0 <= i < after.results.len() implies result_sound(
                    env.forced,
                    targets,
                    #[trigger] after.results[i],
                ) by {
                    if i < before.results.len() {
                        assert(after.results[i] == before.results[i]);
                    }
                }
            },
            _ => {},
        }
    }
}

proof fn lemma_rounds(targets: Seq<BuildTarget>, env: EnvModel, active: Seq<ActiveModel>, left: nat)
    requires
        active_sound(env.forced, targets, active),
    ensures
        state::rounds(env, active, left) matches Ok(r) ==> results_sound(
            env.forced,
            targets,
            r.0,
        ),
    decreases left,
{
    if active.len() > 0 && left > 0 {
        lemma_round(targets, env, active, active.len() as int);
        match state::round(env, active, active.len() as int) {
            Ok(r) => {
                lemma_rounds(targets, env, r.active, (left - 1) as nat);
                match state::rounds(env, r.active, (left - 1) as nat) {
                    Ok((more, _)) => {
                        assert forall|i: int| 0 <= i < (r.results + more).len() implies result_sound(
                            env.forced,
                            targets,
                            #[trigger] (r.results + more)[i],
                        ) by {
                            if i < r.results.len() {
                                assert((r.results + more)[i] == r.results[i]);
                            } else {
                                assert((r.results + more)[i] == more[i - r.results.len()]);
                            }
                        }
                    },
                    Err(_) => {},
                }
            },
            Err(_) => {},
        }
    }
}

/// Every build is for one of the targets and for the program that is forced, has the settings
/// that are forced, has no label twice, and has no code at an address that does not fit.
pub proof fn law_builds_obey(env: EnvModel, defines: Seq<MacroModel>, targets: Seq<BuildTarget>)
    ensures
        state::parsed(env, defines, targets) matches Ok((results, _)) ==> results_sound(
            env.forced,
            targets,
            results,
        ),
{
    let (start, _) = state::with_initial(defines);
    let ways = state::target_forks(targets);
    let s = state::split_state(start, ways);
    // The first target is set before any statement is read.
    let placed = SubModel {
        build_target: if targets.len() > 0 {
            targets[0]
        } else {
            start.build_target
        },
        ..start
    };
    assert(sound(env.forced, targets, placed));
    assert(ways_sound(env.forced, targets, ways, 0));
    let n = ways.len() as int;
    if n > 0 {
        lemma_forked(env.forced, targets, ways[0], placed);
        assert(state::forked(ways[0], placed) == state::forked(ways[0], start));
        lemma_other_forks(env.forced, targets, placed, ways, n);
        lemma_same_forks(start, placed, ways, n);
    }
    let first = state::active_models(seq![s.state] + s.others, 0);
    assert(active_sound(env.forced, targets, first)) by {
        assert forall|i: int| 0 <= i < first.len() implies sound(
            env.forced,
            targets,
            (#[trigger] first[i]).state,
        ) by {
            if i > 0 {
                assert(first[i].state == s.others[i - 1]);
            }
        }
    }
    lemma_rounds(targets, env, first, env.statements.len() + 1);
}

/// The target that a state had does not show in the states that take another one.
proof fn lemma_same_forks(a: SubModel, b: SubModel, ways: Seq<ForkModel>, n: int)
    requires
        b == (SubModel { build_target: b.build_target, ..a }),
        n <= ways.len(),
        forall|i: int| 0 <= i < ways.len() ==> (#[trigger] ways[i]) is Target,
    ensures
        state::other_forks(a, ways, n) == state::other_forks(b, ways, n),
    decreases n,
{
    if n > 1 {
        lemma_same_forks(a, b, ways, n - 1);
        assert(ways[n - 1] is Target);
    }
}

proof fn lemma_ran_on(env: EnvModel, st: SubModel, i: int)
    requires
        0 <= i <= env.statements.len(),
    ensures
        state::ran(env, st, i) matches Ok(r) ==> r.states.len() > 0 ==> i < r.next
            <= env.statements.len(),
    decreases env.statements.len() - i,
{
    if i < env.statements.len() {
        match state::statement_step(env, st, env.statements[i]) {
            Ok(s) => lemma_ran_on(env, s.state, i + 1),
            Err(_) => {},
        }
    }
}

/// No state needs more than `left` rounds.
spec fn within(env: EnvModel, active: Seq<ActiveModel>, left: int) -> bool {
    forall|i: int|
        0 <= i < active.len() ==> 0 <= (#[trigger] active[i]).next <= env.statements.len()
            < active[i].next + left
}

proof fn lemma_round_on(env: EnvModel, active: Seq<ActiveModel>, left: int, n: int)
    requires
        within(env, active, left),
        n <= active.len(),
    ensures
        state::round(env, active, n) matches Ok(r) ==> within(env, r.active, left - 1),
    decreases n,
{
    if n > 0 {
        lemma_round_on(env, active, left, n - 1);
        assert(0 <= active[n - 1].next <= env.statements.len() < active[n - 1].next + left);
        lemma_ran_on(env, active[n - 1].state, active[n - 1].next);
        match (
            state::round(env, active, n - 1),
            state::ran(env, active[n - 1].state, active[n - 1].next),
        ) {
            (Ok(before), Ok(r)) => {
                let after = (state::round(env, active, n)->Ok_0).active;
                assert forall|i: int| 0 <= i < after.len() implies 0 <= (#[trigger] after[i]).next
                    <= env.statements.len() < after[i].next + (left - 1) by {
                    if i < before.active.len() {
                        assert(after[i] == before.active[i]);
                    } else {
                        assert(after[i].next == r.next);
                        assert(r.states.len() > 0);
                    }
                }
            },
            _ => {},
        }
    }
}

/// More rounds than there are statements come to nothing more: in a round every state passes a
/// statement or comes to its end.
pub proof fn law_rounds_suffice(env: EnvModel, active: Seq<ActiveModel>, left: nat, more: nat)
    requires
        forall|i: int|
            0 <= i < active.len() ==> 0 <= (#[trigger] active[i]).next <= env.statements.len()
                < active[i].next + left,
    ensures
        state::rounds(env, active, left) == state::rounds(env, active, left + more),
    decreases left,
{
    if active.len() > 0 {
        assert(0 <= active[0].next <= env.statements.len() < active[0].next + left);
        lemma_round_on(env, active, left as int, active.len() as int);
        match state::round(env, active, active.len() as int) {
            Ok(r) => {
                assert(within(env, r.active, left - 1));
                law_rounds_suffice(env, r.active, (left - 1) as nat, more);
                assert((left - 1) as nat + more == (left + more - 1) as nat);
            },
            Err(_) => {},
        }
    }
}

/// Options and code in a branch that does not count change nothing, and nothing is said about
/// them.
pub proof fn law_inactive_statements(env: EnvModel, st: SubModel, s: PlacedModel)
    requires
        !st.pre.active(),
        !(s.statement is Preprocessor),
    ensures
        state::statement_step(env, st, s) == Ok::<SplitModel, HaltModel>(
            state::goes_on(st, Seq::empty()),
        ),
{
    reveal(state::statement_step);
}

/// A state that is given up comes to no build.
pub proof fn law_given_up(st: SubModel)
    ensures
        state::finished(st.exited()) is None,
{
    reveal(state::finished);
}

} // verus!
