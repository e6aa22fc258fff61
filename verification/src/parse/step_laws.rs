//! What options, choices and lines of code do to the state of a build.

use crate::option::{BuildId, EntryModel, OptionModel, OutputFormat, SettingModel};
use crate::parse::code;
use crate::parse::state;
use crate::parse::state::{EnvModel, ForkModel, SplitModel, SubModel};
use crate::parse::types;
use crate::parse::types::{
    BuildTarget, ForcedModel, ParseDiagnostic, ParseDiagnosticModel, ReadingModel,
};
use crate::preprocessor::directive;
use crate::preprocessor::directive::DirectiveModel;
use crate::preprocessor::macros;
use crate::preprocessor::state as pre_state;
use crate::text;
use crate::utils::SourceSpan;
use vstd::prelude::*;
use vstd::string::*;

verus! {

// ---------------------------------------------------------------------------------------------
// Options

/// A step leads on to one state, with nothing said.
pub open spec fn leads_to(s: SplitModel, st: SubModel) -> bool {
    s.goes_on && s.state == st && s.others.len() == 0 && s.diags.len() == 0
}

/// The name and the version of a mod are what the last option says, and such an option changes
/// nothing else. An offset of pointers changes nothing.
pub proof fn law_name_and_version(forced: ForcedModel, st: SubModel, s: Seq<u8>, at: SourceSpan)
    requires
        st.pre.active(),
    ensures
        leads_to(
            state::option_step(forced, st, OptionModel::ModName(s), at),
            SubModel { mod_name: Some(s), ..st },
        ),
        leads_to(
            state::option_step(forced, st, OptionModel::ModVersion(s), at),
            SubModel { mod_version: Some(s), ..st },
        ),
{
}

/// The first build id that is set counts, with its place. A later one is told with both places
/// and changes nothing; and where another one is forced from outside, the first one gives the
/// build up.
pub proof fn law_first_build_counts(
    forced: ForcedModel,
    st: SubModel,
    id: BuildId,
    at: SourceSpan,
    later: BuildId,
    later_at: SourceSpan,
)
    requires
        st.pre.active(),
        st.target_build is None,
    ensures
        ({
            let first = state::option_step(forced, st, OptionModel::TargetBuild(id), at);
            let allowed = forced.build_id is None || forced.build_id == Some(id);
            &&& allowed ==> {
                let mid = SubModel { target_build: Some((id, at)), ..st };
                let second = state::option_step(
                    forced,
                    mid,
                    OptionModel::TargetBuild(later),
                    later_at,
                );
                &&& leads_to(first, mid)
                &&& second.goes_on && second.state == mid && second.others.len() == 0
                &&& second.diags == seq![
                    ParseDiagnostic::<Seq<u8>>::DuplicateBuildId { at: later_at, original: at },
                ]
            }
            &&& !allowed ==> !first.goes_on && first.others.len() == 0 && first.diags.len() == 0
                && state::finished(first.state) is None
        }),
{
    reveal(state::finished);
}

/// The first output format that is set counts. A later one is told with both places and changes
/// nothing.
pub proof fn law_first_format_counts(
    forced: ForcedModel,
    st: SubModel,
    format: OutputFormat,
    at: SourceSpan,
    later: OutputFormat,
    later_at: SourceSpan,
)
    requires
        st.pre.active(),
        st.forced_output_format is None,
    ensures
        ({
            let mid = SubModel { forced_output_format: Some((format, at)), ..st };
            let second = state::option_step(forced, mid, OptionModel::OutputFormat(later), later_at);
            &&& leads_to(state::option_step(forced, st, OptionModel::OutputFormat(format), at), mid)
            &&& second.goes_on && second.state == mid && second.others.len() == 0
            &&& second.diags == seq![
                ParseDiagnostic::<Seq<u8>>::DuplicateOutputFormat { at: later_at, original: at },
            ]
        }),
{
}

// ---------------------------------------------------------------------------------------------
// Choices

/// Going a way sets what the way is about and defines its macros, and leaves all else.
pub proof fn law_ways(
    st: SubModel,
    target: BuildTarget,
    entry: EntryModel,
    at: SourceSpan,
    setting: SettingModel,
)
    ensures
        ({
            let went = state::forked(ForkModel::Target(target), st).0;
            &&& went == (SubModel { build_target: target, pre: went.pre, ..st })
            &&& went.pre.activity == st.pre.activity
            &&& target == BuildTarget::Emulator ==> went.pre.defines.contains_key(
                "EMULATOR".spec_bytes(),
            ) && went.pre.defines["EMULATOR".spec_bytes()].expansion == "1".spec_bytes()
            &&& target == BuildTarget::Hardware ==> went.pre.defines.contains_key(
                "HARDWARE".spec_bytes(),
            ) && went.pre.defines["HARDWARE".spec_bytes()].expansion == "1".spec_bytes()
        }),
        ({
            let went = state::forked(ForkModel::Build(entry, at), st).0;
            &&& went == (SubModel { target_build: Some((entry.id, at)), pre: went.pre, ..st })
            &&& defines_last(went, entry.defines)
        }),
        ({
            let went = state::forked(ForkModel::Setting(setting), st).0;
            &&& went == (SubModel {
                user_settings: st.user_settings.push(setting.name),
                pre: went.pre,
                ..st
            })
            &&& defines_last(went, setting.defines)
        }),
{
    lemma_defined_all(st, entry.defines, entry.defines.len() as int);
    lemma_defined_all(st, setting.defines, setting.defines.len() as int);
    let own = state::fork_defines(ForkModel::Target(target));
    lemma_defined_all(st, own, 1);
    let went = state::forked(ForkModel::Target(target), st).0;
    assert(went.pre.defines.contains_key(own[0].name));
}

/// Every one of some macros is defined, as the last of them with its name says.
pub open spec fn defines_last(
    st: SubModel,
    ms: Seq<macros::MacroModel>,
) -> bool {
    forall|i: int|
        0 <= i < ms.len() ==> st.pre.defines.contains_key((#[trigger] ms[i]).name) && ((forall|
            j: int,
        |
            i < j < ms.len() ==> (#[trigger] ms[j]).name != ms[i].name) ==> st.pre.defines[ms[i].name]
            == ms[i])
}

proof fn lemma_defined_all(
    st: SubModel,
    ms: Seq<macros::MacroModel>,
    n: int,
)
    requires
        0 <= n <= ms.len(),
    ensures
        ({
            let after = state::defined_all(st.pre, ms, n).0;
            &&& after.activity == st.pre.activity
            &&& forall|i: int|
                0 <= i < n ==> after.defines.contains_key((#[trigger] ms[i]).name) && ((forall|
                    j: int,
                |
                    i < j < n ==> (#[trigger] ms[j]).name != ms[i].name)
                    ==> after.defines[ms[i].name] == ms[i])
        }),
    decreases n,
{
    if n > 0 {
        lemma_defined_all(st, ms, n - 1);
        let before = state::defined_all(st.pre, ms, n - 1).0;
        let after = state::defined_all(st.pre, ms, n).0;
        assert(after.defines == before.defines.insert(ms[n - 1].name, ms[n - 1]));
        assert forall|i: int| 0 <= i < n implies after.defines.contains_key((#[trigger] ms[i]).name)
            && ((forall|j: int| i < j < n ==> (#[trigger] ms[j]).name != ms[i].name)
            ==> after.defines[ms[i].name] == ms[i]) by {
            if i < n - 1 {
                if forall|j: int| i < j < n ==> (#[trigger] ms[j]).name != ms[i].name {
                    assert(ms[n - 1].name != ms[i].name);
                    assert(forall|j: int| i < j < n - 1 ==> (#[trigger] ms[j]).name != ms[i].name);
                }
            }
        }
    }
}

/// A build starts with the macros from outside and with nothing else known of it.
pub proof fn law_outside_macros(defines: Seq<macros::MacroModel>)
    ensures
        ({
            let st = state::with_initial(defines).0;
            &&& defines_last(st, defines)
            &&& st.pre.active()
            &&& st.mod_name is None && st.mod_version is None && st.target_build is None
            &&& st.forced_output_format is None && st.multi is None && st.multi_ended is None
            &&& st.user_settings.len() == 0 && st.code.len() == 0 && st.labels.len() == 0
        }),
{
    lemma_defined_all(SubModel::fresh(), defines, defines.len() as int);
}

/// A state that splits goes on on every way, once each and in their order, the first way in its
/// own place; without a way it is given up.
pub proof fn law_split(st: SubModel, ways: Seq<ForkModel>)
    ensures
        ({
            let s = state::split_state(st, ways);
            &&& ways.len() == 0 ==> !s.goes_on && s.others.len() == 0 && s.diags.len() == 0
                && state::finished(s.state) is None
            &&& ways.len() > 0 ==> {
                &&& s.goes_on
                &&& s.state == state::forked(ways[0], st).0
                &&& s.others.len() == ways.len() - 1
                &&& forall|i: int|
                    0 <= i < s.others.len() ==> #[trigger] s.others[i] == state::forked(
                        ways[i + 1],
                        st,
                    ).0
            }
        }),
{
    reveal(state::finished);
    if ways.len() > 0 {
        lemma_other_forks(st, ways, ways.len() as int);
    }
}

proof fn lemma_other_forks(st: SubModel, ways: Seq<ForkModel>, n: int)
    requires
        1 <= n <= ways.len(),
    ensures
        ({
            let others = state::other_forks(st, ways, n).0;
            &&& others.len() == n - 1
            &&& forall|i: int|
                0 <= i < others.len() ==> #[trigger] others[i] == state::forked(ways[i + 1], st).0
        }),
    decreases n,
{
    if n > 1 {
        lemma_other_forks(st, ways, n - 1);
    }
}

/// A build has the id that is forced, if one is.
pub open spec fn may_be_made(entry: EntryModel, forced: Option<BuildId>) -> bool {
    forced matches Some(id) ==> id == entry.id
}

proof fn lemma_push_contains(before: Seq<int>, x: int, i: int)
    ensures
        before.push(x).contains(i) <==> before.contains(i) || i == x,
{
    let after = before.push(x);
    if before.contains(i) {
        let k = choose|k: int| 0 <= k < before.len() && before[k] == i;
        assert(after[k] == i);
    }
    if i == x {
        assert(after[before.len() as int] == i);
    }
}

/// The builds of a list that may be made are those with the id that is forced, or all of them
/// where none is, in their order.
pub proof fn law_allowed_builds(
    entries: Seq<EntryModel>,
    forced: Option<BuildId>,
    at: SourceSpan,
    n: int,
) -> (picks: Seq<int>)
    requires
        0 <= n <= entries.len(),
    ensures
        ({
            let ways = state::allowed_builds(entries, forced, at, n);
            &&& ways.len() == picks.len()
            &&& forall|k: int| 0 <= k < picks.len() ==> 0 <= #[trigger] picks[k] < n
            &&& forall|j: int, k: int|
                0 <= j < k < picks.len() ==> #[trigger] picks[j] < #[trigger] picks[k]
            &&& forall|k: int|
                0 <= k < picks.len() ==> #[trigger] ways[k] == ForkModel::Build(
                    entries[picks[k]],
                    at,
                )
            &&& forall|i: int|
                0 <= i < n ==> (picks.contains(i) <==> may_be_made(#[trigger] entries[i], forced))
        }),
    decreases n,
{
    if n == 0 {
        Seq::empty()
    } else {
        let before = law_allowed_builds(entries, forced, at, n - 1);
        let fits = forced is None || forced == Some(entries[n - 1].id);
        let picks = if fits {
            before.push(n - 1)
        } else {
            before
        };
        assert forall|i: int| 0 <= i < n implies (picks.contains(i) <==> may_be_made(
            #[trigger] entries[i],
            forced,
        )) by {
            lemma_push_contains(before, n - 1, i);
            if before.contains(i) {
                let k = choose|k: int| 0 <= k < before.len() && before[k] == i;
                assert(before[k] < n - 1);
            }
        }
        picks
    }
}

/// The settings of a layer that may be chosen are those of that layer with the name that is
/// forced, or all of them where none is, in their order.
pub proof fn law_allowed_settings(
    settings: Seq<SettingModel>,
    layer: int,
    only: Option<Seq<u8>>,
    n: int,
) -> (picks: Seq<int>)
    requires
        0 <= n <= settings.len(),
    ensures
        ({
            let ways = state::allowed_settings(settings, layer, only, n);
            &&& ways.len() == picks.len()
            &&& forall|k: int| 0 <= k < picks.len() ==> 0 <= #[trigger] picks[k] < n
            &&& forall|j: int, k: int|
                0 <= j < k < picks.len() ==> #[trigger] picks[j] < #[trigger] picks[k]
            &&& forall|k: int|
                0 <= k < picks.len() ==> #[trigger] ways[k] == ForkModel::Setting(
                    settings[picks[k]],
                )
            &&& forall|i: int|
                0 <= i < n ==> (picks.contains(i) <==> (#[trigger] settings[i]).layer == layer && (
                only is None || only == Some(settings[i].name)))
        }),
    decreases n,
{
    if n == 0 {
        Seq::empty()
    } else {
        let before = law_allowed_settings(settings, layer, only, n - 1);
        let s = settings[n - 1];
        let fits = s.layer == layer && (only is None || only == Some(s.name));
        let picks = if fits {
            before.push(n - 1)
        } else {
            before
        };
        assert forall|i: int| 0 <= i < n implies (picks.contains(i) <==> (
        #[trigger] settings[i]).layer == layer && (only is None || only == Some(
            settings[i].name,
        ))) by {
            lemma_push_contains(before, n - 1, i);
            if before.contains(i) {
                let k = choose|k: int| 0 <= k < before.len() && before[k] == i;
                assert(before[k] < n - 1);
            }
        }
        picks
    }
}

/// The layers of settings are those that some setting has, from the lowest one up. The choice at
/// each is among its settings, or the one that is forced at its place among all choices.
pub proof fn law_setting_layers(
    settings: Seq<SettingModel>,
    options: Seq<Seq<u8>>,
    from: int,
    n: int,
) -> (numbers: Seq<int>)
    requires
        0 <= n,
        0 <= from,
    ensures
        ({
            let layers = state::setting_layers(settings, options, from, n);
            &&& layers.len() == numbers.len()
            &&& forall|j: int, k: int|
                0 <= j < k < numbers.len() ==> #[trigger] numbers[j] < #[trigger] numbers[k]
            &&& forall|k: int| 0 <= k < numbers.len() ==> 0 <= #[trigger] numbers[k] < n
            &&& forall|i: int|
                0 <= i < settings.len() && (#[trigger] settings[i]).layer < n ==> numbers.contains(
                    settings[i].layer as int,
                )
            &&& forall|k: int|
                0 <= k < numbers.len() ==> #[trigger] layers[k] == state::allowed_settings(
                    settings,
                    numbers[k],
                    if from + k < options.len() {
                        Some(options[from + k])
                    } else {
                        None
                    },
                    settings.len() as int,
                )
        }),
    decreases n,
{
    if n == 0 {
        Seq::empty()
    } else {
        let before = law_setting_layers(settings, options, from, n - 1);
        let has = state::has_layer(settings, n - 1);
        let numbers = if has {
            before.push(n - 1)
        } else {
            before
        };
        assert forall|i: int|
            0 <= i < settings.len() && (#[trigger] settings[i]).layer < n implies numbers.contains(
            settings[i].layer as int,
        ) by {
            if settings[i].layer == n - 1 {
                assert(has);
                assert(numbers[before.len() as int] == settings[i].layer);
            } else {
                assert(before.contains(settings[i].layer as int));
                let k = choose|k: int|
                    0 <= k < before.len() && before[k] == settings[i].layer as int;
                assert(numbers[k] == settings[i].layer);
            }
        }
        numbers
    }
}

/// A choice at each of the first `n` layers.
pub open spec fn is_pick(layers: Seq<Seq<ForkModel>>, picks: Seq<int>, n: int) -> bool {
    &&& picks.len() == n
    &&& forall|j: int| 0 <= j < n ==> 0 <= #[trigger] picks[j] < layers[j].len()
}

/// The names of the settings that are chosen.
pub open spec fn picked_names(layers: Seq<Seq<ForkModel>>, picks: Seq<int>) -> Seq<Seq<u8>> {
    Seq::new(picks.len(), |j: int| (layers[j][picks[j]]->Setting_0).name)
}

/// How many choices there are.
pub open spec fn pick_count(layers: Seq<Seq<ForkModel>>, n: int) -> nat
    decreases n,
{
    if n <= 0 {
        1
    } else {
        pick_count(layers, n - 1) * layers[n - 1].len()
    }
}

/// Every state that a split comes to.
pub open spec fn everyone(s: SplitModel) -> Seq<SubModel> {
    s.others.push(s.state)
}

/// A state has gone one of the ways from one of others.
spec fn has_gone(x: SubModel, before: Seq<SubModel>, ways: Seq<ForkModel>) -> bool {
    exists|i: int, k: int|
        0 <= i < before.len() && 0 <= k < ways.len() && x == (#[trigger] state::forked(
            ways[k],
            before[i],
        )).0
}

/// Each of some states has gone one of the ways from one of others, and each way from each of
/// those has been gone.
spec fn spread(after: Seq<SubModel>, before: Seq<SubModel>, ways: Seq<ForkModel>) -> bool {
    &&& after.len() == before.len() * ways.len()
    &&& forall|p: int| 0 <= p < after.len() ==> has_gone(#[trigger] after[p], before, ways)
    &&& forall|i: int, k: int|
        0 <= i < before.len() && 0 <= k < ways.len() ==> after.contains(
            (#[trigger] state::forked(ways[k], before[i])).0,
        )
}

#[verifier::spinoff_prover]
#[verifier::rlimit(60)]
proof fn lemma_split_states(states: Seq<SubModel>, ways: Seq<ForkModel>, n: int)
    requires
        0 <= n <= states.len(),
        ways.len() > 0,
    ensures
        ({
            let (firsts, more, ds) = state::split_states(states, ways, n);
            spread(firsts + more, states.subrange(0, n), ways)
        }),
    decreases n,
{
    let (firsts, more, ds) = state::split_states(states, ways, n);
    let all = firsts + more;
    let now = states.subrange(0, n);
    if n == 0 {
        assert(all.len() == 0);
    } else {
        lemma_split_states(states, ways, n - 1);
        let (f0, m0, d0) = state::split_states(states, ways, n - 1);
        let had = f0 + m0;
        let was = states.subrange(0, n - 1);
        let s = state::split_state(states[n - 1], ways);
        law_split(states[n - 1], ways);
        assert(all.len() == had.len() + ways.len());
        assert(had.len() + ways.len() == n * ways.len()) by (nonlinear_arith)
            requires
                had.len() == (n - 1) * ways.len(),
        ;
        assert forall|p: int| 0 <= p < all.len() implies has_gone(
            #[trigger] all[p],
            now,
            ways,
        ) by {
            if p == f0.len() {
                assert(all[p] == s.state);
                assert(all[p] == state::forked(ways[0], now[n - 1]).0);
            } else if p > f0.len() + m0.len() {
                let q = p - f0.len() - 1 - m0.len();
                assert(all[p] == s.others[q]);
                assert(all[p] == state::forked(ways[q + 1], now[n - 1]).0);
            } else {
                let q = if p < f0.len() {
                    p
                } else {
                    p - 1
                };
                assert(all[p] == had[q]);
                assert(has_gone(had[q], was, ways));
                let (i, k) = choose|i: int, k: int|
                    0 <= i < was.len() && 0 <= k < ways.len() && had[q] == (
                    #[trigger] state::forked(ways[k], was[i])).0;
                assert(now[i] == was[i]);
                assert(all[p] == state::forked(ways[k], now[i]).0);
            }
        }
        assert forall|i: int, k: int| 0 <= i < now.len() && 0 <= k < ways.len() implies all.contains(
            (#[trigger] state::forked(ways[k], now[i])).0,
        ) by {
            let x = state::forked(ways[k], now[i]).0;
            if i == n - 1 {
                if k == 0 {
                    assert(all[f0.len() as int] == x);
                } else {
                    assert(s.others[k - 1] == x);
                    assert(all[f0.len() + 1 + m0.len() + k - 1] == x);
                }
            } else {
                assert(now[i] == was[i]);
                assert(had.contains(state::forked(ways[k], was[i]).0));
                let q = choose|q: int| 0 <= q < had.len() && had[q] == x;
                if q < f0.len() {
                    assert(all[q] == x);
                } else {
                    assert(all[q + 1] == x);
                }
            }
        }
    }
}

#[verifier::spinoff_prover]
#[verifier::rlimit(60)]
proof fn lemma_spread_deep(st: SubModel, layers: Seq<Seq<ForkModel>>, n: int)
    requires
        0 < n <= layers.len(),
        layers[n - 1].len() > 0,
        state::split_deep(st, layers, n - 1).goes_on,
    ensures
        state::split_deep(st, layers, n).goes_on,
        spread(
            everyone(state::split_deep(st, layers, n)),
            everyone(state::split_deep(st, layers, n - 1)),
            layers[n - 1],
        ),
{
    let before = state::split_deep(st, layers, n - 1);
    let after = state::split_deep(st, layers, n);
    let ways = layers[n - 1];
    let m = before.others.len() as int;
    let (firsts, more, ds) = state::split_states(before.others, ways, m);
    let own = state::split_state(before.state, ways);
    lemma_split_states(before.others, ways, m);
    law_split(before.state, ways);
    assert(before.others.subrange(0, m) =~= before.others);
    let had = firsts + more;
    let all = everyone(after);
    let was = everyone(before);
    assert(all =~= had + own.others + seq![own.state]);
    assert(all.len() == was.len() * ways.len()) by (nonlinear_arith)
        requires
            all.len() == had.len() + ways.len(),
            had.len() == m * ways.len(),
            was.len() == m + 1,
    ;
    assert forall|p: int| 0 <= p < all.len() implies has_gone(#[trigger] all[p], was, ways) by {
        if p < had.len() {
            assert(all[p] == had[p]);
            assert(has_gone(had[p], before.others, ways));
            let (i, k) = choose|i: int, k: int|
                0 <= i < before.others.len() && 0 <= k < ways.len() && had[p] == (
                #[trigger] state::forked(ways[k], before.others[i])).0;
            assert(was[i] == before.others[i]);
            assert(all[p] == state::forked(ways[k], was[i]).0);
        } else if p < all.len() - 1 {
            let q = p - had.len();
            assert(all[p] == own.others[q]);
            assert(all[p] == state::forked(ways[q + 1], was[m]).0);
        } else {
            assert(all[p] == state::forked(ways[0], was[m]).0);
        }
    }
    assert forall|i: int, k: int| 0 <= i < was.len() && 0 <= k < ways.len() implies all.contains(
        (#[trigger] state::forked(ways[k], was[i])).0,
    ) by {
        let x = state::forked(ways[k], was[i]).0;
        if i < m {
            assert(was[i] == before.others[i]);
            assert(had.contains(state::forked(ways[k], before.others[i]).0));
            let q = choose|q: int| 0 <= q < had.len() && had[q] == x;
            assert(all[q] == x);
        } else if k == 0 {
            assert(all[all.len() - 1] == x);
        } else {
            assert(own.others[k - 1] == x);
            assert(all[had.len() + k - 1] == x);
        }
    }
}

/// A state that has the names of a choice behind those of `st`, and is like `st` in all else but
/// its macros.
pub open spec fn has_picked(
    x: SubModel,
    st: SubModel,
    layers: Seq<Seq<ForkModel>>,
    picks: Seq<int>,
) -> bool {
    &&& x.user_settings == st.user_settings + picked_names(layers, picks)
    &&& x == (SubModel { user_settings: x.user_settings, pre: x.pre, ..st })
}

/// A state that has made some choice.
pub open spec fn has_some_pick(
    x: SubModel,
    st: SubModel,
    layers: Seq<Seq<ForkModel>>,
    n: int,
) -> bool {
    exists|picks: Seq<int>| is_pick(layers, picks, n) && #[trigger] has_picked(x, st, layers, picks)
}

/// One of some states has made a choice.
pub open spec fn is_picked(
    all: Seq<SubModel>,
    st: SubModel,
    layers: Seq<Seq<ForkModel>>,
    picks: Seq<int>,
) -> bool {
    exists|p: int| 0 <= p < all.len() && has_picked(#[trigger] all[p], st, layers, picks)
}

proof fn lemma_pick_one(
    x: SubModel,
    y: SubModel,
    st: SubModel,
    layers: Seq<Seq<ForkModel>>,
    early: Seq<int>,
    k: int,
)
    requires
        early.len() < layers.len(),
        has_picked(x, st, layers, early),
        0 <= k < layers[early.len() as int].len(),
        layers[early.len() as int][k] is Setting,
        y == state::forked(layers[early.len() as int][k], x).0,
    ensures
        has_picked(y, st, layers, early.push(k)),
{
    let way = layers[early.len() as int][k];
    assert(picked_names(layers, early.push(k)) =~= picked_names(layers, early).push(
        (way->Setting_0).name,
    ));
    assert(y.user_settings =~= st.user_settings + picked_names(layers, early.push(k)));
}

proof fn lemma_picks_made(
    all: Seq<SubModel>,
    was: Seq<SubModel>,
    st: SubModel,
    layers: Seq<Seq<ForkModel>>,
    n: int,
    p: int,
)
    requires
        0 < n <= layers.len(),
        spread(all, was, layers[n - 1]),
        forall|k: int| 0 <= k < layers[n - 1].len() ==> (#[trigger] layers[n - 1][k]) is Setting,
        forall|i: int| 0 <= i < was.len() ==> has_some_pick(#[trigger] was[i], st, layers, n - 1),
        0 <= p < all.len(),
    ensures
        has_some_pick(all[p], st, layers, n),
{
    let ways = layers[n - 1];
    assert(has_gone(all[p], was, ways));
    let (i, k) = choose|i: int, k: int|
        0 <= i < was.len() && 0 <= k < ways.len() && all[p] == (#[trigger] state::forked(
            ways[k],
            was[i],
        )).0;
    let x = was[i];
    assert(has_some_pick(x, st, layers, n - 1));
    let early = choose|picks: Seq<int>|
        is_pick(layers, picks, n - 1) && #[trigger] has_picked(x, st, layers, picks);
    assert(layers[n - 1][k] is Setting);
    lemma_pick_one(x, all[p], st, layers, early, k);
    assert(is_pick(layers, early.push(k), n));
}

proof fn lemma_picks_occur(
    all: Seq<SubModel>,
    was: Seq<SubModel>,
    st: SubModel,
    layers: Seq<Seq<ForkModel>>,
    n: int,
    picks: Seq<int>,
)
    requires
        0 < n <= layers.len(),
        spread(all, was, layers[n - 1]),
        forall|k: int| 0 <= k < layers[n - 1].len() ==> (#[trigger] layers[n - 1][k]) is Setting,
        is_pick(layers, picks, n),
        is_picked(was, st, layers, picks.drop_last()),
    ensures
        is_picked(all, st, layers, picks),
{
    let ways = layers[n - 1];
    let early = picks.drop_last();
    let k = picks.last();
    assert(picks[n - 1] == k);
    let i = choose|i: int| 0 <= i < was.len() && has_picked(#[trigger] was[i], st, layers, early);
    assert(layers[n - 1][k] is Setting);
    let x = state::forked(ways[k], was[i]).0;
    assert(all.contains(x));
    let p = choose|p: int| 0 <= p < all.len() && all[p] == x;
    lemma_pick_one(was[i], all[p], st, layers, early, k);
    assert(early.push(k) =~= picks);
}

/// The state splits into one for every choice at the layers: as many as there are choices, each
/// with the names of the settings of a choice behind those that it had, and every choice occurs.
/// All else but the macros stays.
pub proof fn law_settings_combine(st: SubModel, layers: Seq<Seq<ForkModel>>, n: int)
    requires
        0 <= n <= layers.len(),
        forall|j: int| 0 <= j < n ==> (#[trigger] layers[j]).len() > 0,
        forall|j: int, k: int|
            0 <= j < n && 0 <= k < layers[j].len() ==> (#[trigger] layers[j][k]) is Setting,
    ensures
        ({
            let s = state::split_deep(st, layers, n);
            let all = everyone(s);
            &&& s.goes_on
            &&& all.len() == pick_count(layers, n)
            &&& forall|p: int|
                0 <= p < all.len() ==> has_some_pick(#[trigger] all[p], st, layers, n)
            &&& forall|picks: Seq<int>| #[trigger]
                is_pick(layers, picks, n) ==> is_picked(all, st, layers, picks)
        }),
    decreases n,
{
    let s = state::split_deep(st, layers, n);
    let all = everyone(s);
    if n == 0 {
        let none = Seq::<int>::empty();
        assert(is_pick(layers, none, 0));
        assert(st.user_settings + picked_names(layers, none) =~= st.user_settings);
        assert(has_picked(all[0], st, layers, none));
        assert forall|picks: Seq<int>| #[trigger] is_pick(layers, picks, 0) implies is_picked(
            all,
            st,
            layers,
            picks,
        ) by {
            assert(picks =~= none);
        }
    } else {
        law_settings_combine(st, layers, n - 1);
        let was = everyone(state::split_deep(st, layers, n - 1));
        lemma_spread_deep(st, layers, n);
        assert forall|p: int| 0 <= p < all.len() implies has_some_pick(
            #[trigger] all[p],
            st,
            layers,
            n,
        ) by {
            lemma_picks_made(all, was, st, layers, n, p);
        }
        assert forall|picks: Seq<int>| #[trigger] is_pick(layers, picks, n) implies is_picked(
            all,
            st,
            layers,
            picks,
        ) by {
            let early = picks.drop_last();
            assert forall|j: int| 0 <= j < n - 1 implies 0 <= #[trigger] early[j]
                < layers[j].len() by {
                assert(early[j] == picks[j]);
            }
            assert(is_pick(layers, early, n - 1));
            lemma_picks_occur(all, was, st, layers, n, picks);
        }
    }
}

/// An option of settings splits a build over the layers of the settings, where the names that are
/// forced count from the settings that the build has already. One of builds splits it over the
/// builds that may be made, unless it has a build id.
pub proof fn law_splitting_options(
    forced: ForcedModel,
    st: SubModel,
    settings: Seq<SettingModel>,
    entries: Seq<EntryModel>,
    at: SourceSpan,
)
    requires
        st.pre.active(),
    ensures
        ({
            let layers = state::setting_layers(
                settings,
                forced.options,
                st.user_settings.len() as int,
                256,
            );
            state::option_step(forced, st, OptionModel::UserSettings(settings), at)
                == state::split_deep(st, layers, layers.len() as int)
        }),
        st.target_build is None ==> state::option_step(
            forced,
            st,
            OptionModel::TargetBuilds(entries),
            at,
        ) == state::split_state(
            st,
            state::allowed_builds(entries, forced.build_id, at, entries.len() as int),
        ),
        st.target_build matches Some((_, original)) ==> {
            let s = state::option_step(forced, st, OptionModel::TargetBuilds(entries), at);
            &&& s.goes_on && s.state == st && s.others.len() == 0
            &&& s.diags == seq![ParseDiagnostic::<Seq<u8>>::DuplicateBuildId { at, original }]
        },
{
}

// ---------------------------------------------------------------------------------------------
// Lines

/// A line is an assignment where it has an equals sign and no quote stands before the first one.
pub proof fn law_assign_sign(t: Seq<u8>, k: int)
    requires
        0 <= k <= t.len(),
        forall|j: int| 0 <= j < k ==> #[trigger] t[j] != 0x3d,
        k == t.len() || t[k] == 0x3d,
    ensures
        k == t.len() ==> state::assign_sign(t) is None,
        k < t.len() && (forall|j: int| 0 <= j < k ==> #[trigger] t[j] != 0x22)
            ==> state::assign_sign(t) == Some(k),
        k < t.len() && (exists|j: int| 0 <= j < k && #[trigger] t[j] == 0x22) ==> state::assign_sign(
            t,
        ) is None,
{
    text::lemma_find_byte(t, 0x3d, 0, t.len() as int);
    let f = text::find_byte(t, 0x3d, 0, t.len() as int);
    if f < k {
        assert(t[f] != 0x3d);
    }
    if k < f {
        assert(t[k] != 0x3d);
    }
    text::lemma_find_byte(t, 0x22, 0, k);
}

/// A line of code that counts is read with its macros expanded: as an assignment where it is one,
/// and behind the last line otherwise. What is said about its macros comes first.
pub proof fn law_code_lines(
    env: EnvModel,
    st: SubModel,
    line: Seq<u8>,
    span: SourceSpan,
    line_span: SourceSpan,
    t: Seq<u8>,
    offsets: Seq<usize>,
)
    requires
        st.pre.active(),
        macros::expand_steps(
            st.pre.defines,
            macros::unexpanded(line, span.offset),
            env.limit as nat,
        ) is Some,
        macros::expand_all(st.pre.defines, line, span.offset) == Some(
            (t, offsets, Seq::<macros::MacroDiagnostic>::empty()),
        ),
    ensures
        ({
            let r = state::code_step(env, st, line, span, line_span);
            let own = match state::assign_sign(t) {
                Some(k) => state::assign_step(
                    env.floats,
                    st,
                    t,
                    offsets,
                    k,
                    span.offset,
                    line_span,
                ),
                None => state::follow_step(env.floats, st, t, span, line_span),
            };
            &&& r is Ok <==> own is Ok
            &&& r matches Err(h) ==> own->Err_0 == h
            &&& r matches Ok(s) ==> s.state == (own->Ok_0).state && s.diags == (own->Ok_0).diags
                && s.goes_on == (own->Ok_0).goes_on && s.others == (own->Ok_0).others
        }),
{
    let r = state::code_step(env, st, line, span, line_span);
    if r is Ok {
        let s = r->Ok_0;
        let told = types::from_preprocessor(
            directive::macro_diagnostics(Seq::<macros::MacroDiagnostic>::empty()),
        );
        assert(told.len() == 0);
        let own = match state::assign_sign(t) {
            Some(k) => state::assign_step(env.floats, st, t, offsets, k, span.offset, line_span),
            None => state::follow_step(env.floats, st, t, span, line_span),
        };
        assert(s.diags =~= (own->Ok_0).diags);
    }
}

/// A directive changes the macros and the blocks of a build as it does on its own, and nothing
/// else of the build.
pub proof fn law_directive_step(limit: usize, st: SubModel, d: DirectiveModel)
    ensures
        state::directive_step(limit, st, d) matches Ok(s) ==> {
            &&& pre_state::executed(st.pre, d) matches Some((pre, said))
            &&& s.goes_on && s.others.len() == 0
            &&& s.state == (SubModel { pre, ..st })
            &&& s.diags == types::from_preprocessor(said)
        },
        state::directive_step(limit, st, d) is Err ==> pre_state::executed(st.pre, d) is None
            || !pre_state::executed_within(st.pre, d, limit),
{
}

/// A line of code behind an origin is read at the address that the line before it led to, and
/// leads to the next. Without an origin it is told, with the place where the last one ended.
pub proof fn law_following_lines(
    floats: Seq<ReadingModel>,
    st: SubModel,
    t: Seq<u8>,
    span: SourceSpan,
    line_span: SourceSpan,
)
    ensures
        ({
            let r = state::follow_step(floats, st, t, span, line_span);
            &&& st.multi is None ==> (r matches Ok(s) && s.goes_on && s.others.len() == 0 && s.state
                == st && s.diags == seq![
                ParseDiagnostic::<Seq<u8>>::NoOriginCode { at: span, cleared_from: st.multi_ended },
            ])
            &&& st.multi matches Some(address) ==> (r matches Ok(s) ==> {
                &&& code::line_parsed(
                    st.labels,
                    span.offset,
                    address,
                    t,
                    line_span,
                    floats,
                ) matches Ok(line)
                &&& s.goes_on && s.others.len() == 0
                &&& s.diags == line.diags
                &&& s.state.multi == line.next
                &&& line.next is None ==> s.state.multi_ended == Some(line_span.offset)
                &&& line.next is Some ==> s.state.multi_ended == st.multi_ended
                &&& s.state.code.len() == st.code.len() + (if line.code is Some {
                    1int
                } else {
                    0
                })
                &&& s.state.code.subrange(0, st.code.len() as int) == st.code
                &&& line.code matches Some(c) ==> s.state.code.last() == c
                &&& s.state.labels.len() == st.labels.len() + (if line.label is Some {
                    1int
                } else {
                    0
                })
                &&& s.state.labels.subrange(0, st.labels.len() as int) == st.labels
                &&& line.label matches Some(l) ==> s.state.labels.last() == l
            })
        }),
{
    let r = state::follow_step(floats, st, t, span, line_span);
    if st.multi is Some && r is Ok {
        let s = r->Ok_0;
        assert(s.state.code.subrange(0, st.code.len() as int) =~= st.code);
        assert(s.state.labels.subrange(0, st.labels.len() as int) =~= st.labels);
    }
}

/// An assignment ends the effect of an origin, at the start of its line, unless it sets a new one.
pub proof fn law_assignment_ends_origin(
    floats: Seq<ReadingModel>,
    st: SubModel,
    t: Seq<u8>,
    offsets: Seq<usize>,
    k: int,
    line_start: usize,
    line_span: SourceSpan,
)
    ensures
        state::assign_step(floats, st, t, offsets, k, line_start, line_span) matches Ok(s) ==> {
            &&& s.goes_on && s.others.len() == 0
            &&& st.multi is Some ==> s.state.multi_ended == Some(line_start)
            &&& st.multi is None ==> s.state.multi_ended == st.multi_ended
            &&& s.state.multi is Some ==> s.state.code == st.code && s.state.labels == st.labels
                && s.diags.len() == 0
        },
{
    if let Ok(s) = state::assign_step(floats, st, t, offsets, k, line_start, line_span) {
        assert(st.code + Seq::empty() =~= st.code);
    }
}

// ---------------------------------------------------------------------------------------------
// The end

/// A state with a build id comes to a build that has what the state has, with the version `0.1.0`
/// where there is none; a state without one comes to none.
pub proof fn law_finished(st: SubModel)
    ensures
        state::finished(st) is Some <==> st.target_build is Some,
        state::finished(st) matches Some(r) ==> {
            &&& r.build_target == st.build_target
            &&& r.mod_name == st.mod_name
            &&& st.mod_version matches Some(v) ==> r.mod_version == v
            &&& st.mod_version is None ==> r.mod_version == seq![0x30u8, 0x2e, 0x31, 0x2e, 0x30]
            &&& r.target_build == (st.target_build->0).0
            &&& r.forced_output_format is Some <==> st.forced_output_format is Some
            &&& r.forced_output_format matches Some(f) ==> (st.forced_output_format->0).0 == f
            &&& r.user_settings == st.user_settings
            &&& r.code == st.code
            &&& r.labels.len() == st.labels.len()
            &&& forall|i: int|
                0 <= i < r.labels.len() ==> (#[trigger] r.labels[i]).0 == st.labels[i].name
                    && r.labels[i].1 == st.labels[i].address
        },
{
    reveal(state::finished);
    reveal_strlit("0.1.0");
    is_ascii_spec_bytes("0.1.0");
    assert("0.1.0".spec_bytes() =~= seq![0x30u8, 0x2e, 0x31, 0x2e, 0x30]);
}

/// At the end of a source its open blocks are told, and where there is any code or label also a
/// version that is missing and a build id that is missing, in this order.
pub proof fn law_end(st: SubModel)
    ensures
        ({
            let said = state::end_diagnostics(st);
            let blocks = types::from_preprocessor(pre_state::unterminated(st.pre.activity));
            let n = blocks.len() as int;
            let used = st.code.len() > 0 || st.labels.len() > 0;
            &&& said.subrange(0, n) == blocks
            &&& !used ==> said.len() == n
            &&& used ==> said.len() == n + (if st.mod_version is None {
                1int
            } else {
                0
            }) + (if st.target_build is None {
                1int
            } else {
                0
            })
            &&& used && st.mod_version is None ==> said[n] is MissingModVersion
            &&& used && st.target_build is None ==> said.last() is MissingBuildId
        }),
{
    reveal(state::end_diagnostics);
    let said = state::end_diagnostics(st);
    let blocks = types::from_preprocessor(pre_state::unterminated(st.pre.activity));
    assert(said.subrange(0, blocks.len() as int) =~= blocks);
}

/// The state of a build after the first `k` statements, where none of them splits or ends it.
pub open spec fn state_after(env: EnvModel, st: SubModel, k: int) -> SubModel
    decreases k,
{
    if k <= 0 {
        st
    } else {
        (state::statement_step(
            env,
            state_after(env, st, k - 1),
            env.statements[k - 1],
        )->Ok_0).state
    }
}

/// What is said at the first `k` statements.
pub open spec fn said_by(env: EnvModel, st: SubModel, k: int) -> Seq<ParseDiagnosticModel>
    decreases k,
{
    if k <= 0 {
        Seq::empty()
    } else {
        said_by(env, st, k - 1) + (state::statement_step(
            env,
            state_after(env, st, k - 1),
            env.statements[k - 1],
        )->Ok_0).diags
    }
}

/// The `k`th statement neither splits nor ends a build.
pub open spec fn is_plain(env: EnvModel, st: SubModel, k: int) -> bool {
    state::statement_step(env, state_after(env, st, k), env.statements[k]) matches Ok(s)
        && s.goes_on && s.others.len() == 0
}

proof fn lemma_straight(env: EnvModel, st: SubModel, k: int)
    requires
        0 <= k <= env.statements.len(),
        forall|i: int| 0 <= i < env.statements.len() ==> #[trigger] is_plain(env, st, i),
    ensures
        ({
            let n = env.statements.len() as int;
            let r = state::ran(env, state_after(env, st, k), k);
            let last = state_after(env, st, n);
            &&& r matches Ok(m)
            &&& m.states.len() == 0
            &&& m.result == state::finished(last)
            &&& said_by(env, st, k) + m.diags == said_by(env, st, n) + state::end_diagnostics(last)
        }),
    decreases env.statements.len() - k,
{
    if k < env.statements.len() {
        assert(is_plain(env, st, k));
        lemma_straight(env, st, k + 1);
        let s = state::statement_step(env, state_after(env, st, k), env.statements[k])->Ok_0;
        let later = state::ran(env, state_after(env, st, k + 1), k + 1)->Ok_0;
        assert(said_by(env, st, k) + (s.diags + later.diags) =~= said_by(env, st, k + 1)
            + later.diags);
    }
}

/// A build whose statements neither split nor end it comes to what its state is behind the last
/// of them. All that is said at them and at the end is told, in order.
pub proof fn law_straight_run(env: EnvModel, st: SubModel)
    requires
        forall|i: int| 0 <= i < env.statements.len() ==> #[trigger] is_plain(env, st, i),
    ensures
        ({
            let n = env.statements.len() as int;
            let last = state_after(env, st, n);
            state::ran(env, st, 0) matches Ok(m) && m.states.len() == 0 && m.result
                == state::finished(last) && m.diags == said_by(env, st, n)
                + state::end_diagnostics(last)
        }),
{
    lemma_straight(env, st, 0);
    let m = state::ran(env, st, 0)->Ok_0;
    assert(said_by(env, st, 0) + m.diags =~= m.diags);
}

/// A source for one target whose statements neither split nor end the build makes the one build
/// that the state behind its last statement comes to, or none without a build id. It starts with
/// the macros from outside and that of the target.
pub proof fn law_one_target(
    env: EnvModel,
    defines: Seq<macros::MacroModel>,
    target: BuildTarget,
)
    requires
        ({
            let start = state::forked(
                ForkModel::Target(target),
                state::with_initial(defines).0,
            ).0;
            forall|i: int| 0 <= i < env.statements.len() ==> #[trigger] is_plain(env, start, i)
        }),
    ensures
        ({
            let start = state::forked(
                ForkModel::Target(target),
                state::with_initial(defines).0,
            ).0;
            let last = state_after(env, start, env.statements.len() as int);
            state::parsed(env, defines, seq![target]) matches Ok((builds, said)) && (
            match state::finished(last) {
                Some(r) => builds == seq![r],
                None => builds.len() == 0,
            })
        }),
{
    let (initial, said) = state::with_initial(defines);
    let ways = state::target_forks(seq![target]);
    assert(ways =~= seq![ForkModel::Target(target)]);
    let s = state::split_state(initial, ways);
    law_split(initial, ways);
    let start = state::forked(ForkModel::Target(target), initial).0;
    assert(s.state == start);
    let first = state::active_models(seq![s.state] + s.others, 0);
    assert(first =~= seq![state::ActiveModel { state: start, next: 0 }]);
    law_straight_run(env, start);
    let m = state::ran(env, start, 0)->Ok_0;
    reveal_with_fuel(state::round, 2);
    let r = state::round(env, first, 1)->Ok_0;
    assert(state::active_models(m.states, m.next) =~= Seq::empty());
    assert(r.active =~= Seq::empty());
    let last = state_after(env, start, env.statements.len() as int);
    assert(m.result == state::finished(last));
    assert(Seq::empty() + code::opt_seq(m.result) =~= code::opt_seq(m.result));
    assert(r.results == code::opt_seq(m.result));
    let left = (env.statements.len() + 1) as nat;
    assert(state::rounds(env, r.active, (left - 1) as nat) is Ok);
    assert((state::rounds(env, r.active, (left - 1) as nat)->Ok_0).0.len() == 0);
    assert(r.results + (state::rounds(env, r.active, (left - 1) as nat)->Ok_0).0 =~= r.results);
}

} // verus!
