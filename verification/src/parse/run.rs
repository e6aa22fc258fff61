//! All the builds of a source.

use crate::option;
use crate::parse::state;
use crate::parse::state::{ActiveModel, EnvModel, RoundModel};
use crate::parse::sub_state;
use crate::parse::sub_state::{Context, Fork, ParseSubState};
use crate::parse::types;
use crate::parse::types::{
    BuildTarget, FloatReading, ForcedBuildOption, Halt, HaltModel, ParseDiagnostic,
    ParseDiagnosticModel, ParsingResult, ResultModel,
};
use crate::pre_parse;
use crate::pre_parse::PreParsedStatement;
use crate::preprocessor::macros::MacroDefine;
use std::ops::Range;
use vstd::prelude::*;

verus! {

spec fn active_view(v: Seq<(ParseSubState, usize)>) -> Seq<ActiveModel> {
    Seq::new(v.len(), |i: int| ActiveModel { state: v[i].0@, next: v[i].1 as int })
}

/// The states are well-formed, and have no more than `left` rounds to go in `n` statements.
spec fn ready(v: Seq<(ParseSubState, usize)>, n: int, left: int) -> bool {
    forall|i: int|
        0 <= i < v.len() ==> (#[trigger] v[i]).0.wf() && v[i].1 <= n && n < v[i].1 + left
}

proof fn lemma_round_halts(env: EnvModel, active: Seq<ActiveModel>, n: int, m: int)
    requires
        0 <= n <= m,
        state::round(env, active, n) is Err,
    ensures
        state::round(env, active, m) == state::round(env, active, n),
    decreases m,
{
    if n < m {
        lemma_round_halts(env, active, n, m - 1);
    }
}

/// Appends states that go on at an index.
fn push_states(active: &mut Vec<(ParseSubState, usize)>, states: Vec<ParseSubState>, next: usize)
    ensures
        active_view(final(active)@) == active_view(old(active)@) + state::active_models(
            sub_state::state_models(states@),
            next as int,
        ),
        forall|i: int| 0 <= i < old(active)@.len() ==> final(active)@[i] == old(active)@[i],
        final(active)@.len() == old(active)@.len() + states@.len(),
        forall|i: int|
            old(active)@.len() <= i < final(active)@.len() ==> (#[trigger] final(active)@[i]).1
                == next && final(active)@[i].0 == states@[i - old(active)@.len()],
{
    let ghost all = states@;
    let mut rest = states;
    let mut k: Ghost<int> = Ghost(0);
    assert(rest@ =~= all.subrange(0, all.len() as int));
    while rest.len() > 0
        invariant
            0 <= k@ <= all.len(),
            rest@ == all.subrange(k@, all.len() as int),
            active@.len() == old(active)@.len() + k@,
            forall|i: int| 0 <= i < old(active)@.len() ==> active@[i] == old(active)@[i],
            forall|i: int|
                old(active)@.len() <= i < active@.len() ==> (#[trigger] active@[i]).1 == next
                    && active@[i].0 == all[i - old(active)@.len()],
        decreases rest@.len(),
    {
        let st = rest.remove(0);
        active.push((st, next));
        proof {
            k@ = k@ + 1;
        }
    }
    assert(active_view(active@) =~= active_view(old(active)@) + state::active_models(
        sub_state::state_models(all),
        next as int,
    ));
}

/// One round: each of the states goes on until it splits or comes to an end.
fn step(
    ctx: &Context,
    statements: &Vec<(Range<usize>, PreParsedStatement)>,
    active: Vec<(ParseSubState, usize)>,
    results: &mut Vec<ParsingResult>,
    diags: &mut Vec<ParseDiagnostic>,
    Ghost(left): Ghost<int>,
) -> (r: Result<Vec<(ParseSubState, usize)>, Halt>)
    requires
        ready(active@, statements@.len() as int, left),
    ensures
        ({
            let m = state::round(
                sub_state::env_of(ctx, statements@),
                active_view(active@),
                active@.len() as int,
            );
            &&& r matches Err(h) ==> m == Err::<RoundModel, HaltModel>(h@)
            &&& r matches Ok(next) ==> {
                &&& m matches Ok(m)
                &&& active_view(next@) == m.active
                &&& ready(next@, statements@.len() as int, left - 1)
                &&& types::result_models(final(results)@) == types::result_models(old(results)@)
                    + m.results
                &&& types::parse_diagnostics(final(diags)@) == types::parse_diagnostics(
                    old(diags)@,
                ) + m.diags
            }
        }),
{
    let ghost env = sub_state::env_of(ctx, statements@);
    let ghost all = active@;
    let ghost models = active_view(all);
    let ghost n = statements@.len() as int;
    let ghost had = types::result_models(results@);
    let ghost said = types::parse_diagnostics(diags@);
    let mut rest = active;
    let mut next: Vec<(ParseSubState, usize)> = Vec::new();
    let mut k: Ghost<int> = Ghost(0);
    proof {
        assert(rest@ =~= all.subrange(0, all.len() as int));
        assert(active_view(next@) =~= Seq::empty());
        assert(had + Seq::empty() =~= had);
        assert(said + Seq::empty() =~= said);
    }
    while rest.len() > 0
        invariant
            0 <= k@ <= all.len(),
            rest@ == all.subrange(k@, all.len() as int),
            n == statements@.len(),
            env == sub_state::env_of(ctx, statements@),
            all == active@,
            models == active_view(all),
            ready(all, n, left),
            ready(next@, n, left - 1),
            ({
                let m = state::round(env, models, k@);
                &&& m is Ok
                &&& active_view(next@) == (m->Ok_0).active
                &&& types::result_models(results@) == had + (m->Ok_0).results
                &&& types::parse_diagnostics(diags@) == said + (m->Ok_0).diags
            }),
        decreases rest@.len(),
    {
        let (st, from) = rest.remove(0);
        let ghost before = state::round(env, models, k@)->Ok_0;
        assert((st, from) == all[k@]);
        assert(models[k@] == ActiveModel { state: st@, next: from as int });
        let ran = st.run(ctx, statements, from, diags);
        proof {
            k@ = k@ + 1;
        }
        match ran {
            Err(h) => {
                proof {
                    lemma_round_halts(env, models, k@, all.len() as int);
                }
                return Err(h);
            },
            Ok(ran) => {
                let ghost m = state::ran(env, st@, from as int)->Ok_0;
                let ghost so_far = results@;
                let ghost old_next = next@;
                push_states(&mut next, ran.states, ran.next);
                if let Some(result) = ran.result {
                    results.push(result);
                    assert(types::result_models(results@) =~= types::result_models(so_far)
                        + seq![result@]);
                }
                proof {
                    let after = state::round(env, models, k@)->Ok_0;
                    assert(types::result_models(results@) =~= had + after.results);
                    assert(types::parse_diagnostics(diags@) =~= said + after.diags);
                    assert forall|i: int| 0 <= i < next@.len() implies (#[trigger] next@[i]).0.wf()
                        && next@[i].1 <= n && n < next@[i].1 + (left - 1) by {
                        if i < old_next.len() {
                            assert(next@[i] == old_next[i]);
                        } else {
                            assert(next@[i].0 == ran.states@[i - old_next.len()]);
                            assert(ran.states@[i - old_next.len()].wf());
                        }
                    }
                }
            },
        }
    }
    Ok(next)
}

spec fn after_rounds(
    results: Seq<ResultModel>,
    diags: Seq<ParseDiagnosticModel>,
    r: Result<(Seq<ResultModel>, Seq<ParseDiagnosticModel>), HaltModel>,
) -> Result<(Seq<ResultModel>, Seq<ParseDiagnosticModel>), HaltModel> {
    match r {
        Err(h) => Err(h),
        Ok((more, said)) => Ok((results + more, diags + said)),
    }
}

/// The builds that some statements make, with what is said about them.
///
/// Each of `build_targets` makes a build of its own, and so does each combination of the settings
/// and the program ids that the statements name, as far as `forced` allows it. `floats` is what is
/// known of floating-point numbers, and `limit` the number of steps that the expansion of the
/// macros in a line may take.
pub fn parse_statements(
    statements: &Vec<(Range<usize>, PreParsedStatement)>,
    initial_defines: &Vec<MacroDefine>,
    build_targets: &Vec<BuildTarget>,
    forced: &ForcedBuildOption,
    floats: &Vec<FloatReading>,
    limit: usize,
) -> (r: Result<(Vec<ParsingResult>, Vec<ParseDiagnostic>), Halt>)
    ensures
        ({
            let env = EnvModel {
                statements: pre_parse::statement_models(statements@),
                forced: forced@,
                floats: types::reading_models(floats@),
                limit,
            };
            let m = state::parsed(env, option::macro_models(initial_defines@), build_targets@);
            &&& r matches Err(h) ==> m == Err::<
                (Seq<ResultModel>, Seq<ParseDiagnosticModel>),
                HaltModel,
            >(h@)
            &&& r matches Ok((results, diags)) ==> {
                &&& m matches Ok(m)
                &&& types::result_models(results@) == m.0
                &&& types::parse_diagnostics(diags@) == m.1
            }
        }),
{
    let ctx = Context { forced, floats, limit };
    let ghost env = sub_state::env_of(&ctx, statements@);
    let ghost n = statements@.len() as int;
    let ghost defines = option::macro_models(initial_defines@);
    let mut diags: Vec<ParseDiagnostic> = Vec::new();
    let mut results: Vec<ParsingResult> = Vec::new();
    assert(types::parse_diagnostics(diags@) =~= Seq::empty());
    assert(types::result_models(results@) =~= Seq::empty());
    let mut first = ParseSubState::new();
    first.define_all(initial_defines, &mut diags);
    let ghost start = state::with_initial(defines);
    assert(first@ =~= start.0);
    assert(types::parse_diagnostics(diags@) =~= start.1);
    let mut ways: Vec<Fork> = Vec::new();
    let mut i: usize = 0;
    while i < build_targets.len()
        invariant
            i <= build_targets@.len(),
            ways@.len() == i,
            forall|k: int| 0 <= k < i ==> (#[trigger] ways@[k])@ == state::target_forks(
                build_targets@,
            )[k],
        decreases build_targets@.len() - i,
    {
        ways.push(Fork::Target(build_targets[i]));
        i += 1;
    }
    assert(sub_state::fork_models(ways@) =~= state::target_forks(build_targets@));
    let mut others: Vec<ParseSubState> = Vec::new();
    assert(sub_state::state_models(others@) =~= Seq::empty());
    first.make_forks(&mut others, &ways, &mut diags);
    let ghost s = state::split_state(start.0, state::target_forks(build_targets@));
    assert(sub_state::state_models(others@) =~= s.others);
    let mut active: Vec<(ParseSubState, usize)> = Vec::new();
    active.push((first, 0));
    push_states(&mut active, others, 0);
    let ghost mut left: int = n + 1;
    let ghost goal = state::parsed(env, defines, build_targets@);
    proof {
        let states = seq![s.state] + s.others;
        assert(active_view(active@) =~= state::active_models(states, 0));
        assert forall|k: int| 0 <= k < active@.len() implies (#[trigger] active@[k]).0.wf()
            && active@[k].1 <= n && n < active@[k].1 + left by {
            if k > 0 {
                assert(active@[k].0 == others@[k - 1]);
                assert(others@[k - 1].wf());
            }
        }
        let said = start.1 + s.diags;
        assert(types::parse_diagnostics(diags@) =~= said);
        let rest = state::rounds(env, active_view(active@), left as nat);
        if rest is Ok {
            assert(Seq::<ResultModel>::empty() + (rest->Ok_0).0 =~= (rest->Ok_0).0);
        }
    }
    while active.len() > 0
        invariant
            0 <= left,
            n == statements@.len(),
            env == sub_state::env_of(&ctx, statements@),
            ctx == (Context { forced, floats, limit }),
            goal == state::parsed(env, option::macro_models(initial_defines@), build_targets@),
            ready(active@, n, left),
            goal == after_rounds(
                types::result_models(results@),
                types::parse_diagnostics(diags@),
                state::rounds(env, active_view(active@), left as nat),
            ),
        decreases left,
    {
        assert(active@[0].1 <= n && n < active@[0].1 + left);
        let ghost models = active_view(active@);
        let ghost had = types::result_models(results@);
        let ghost said = types::parse_diagnostics(diags@);
        match step(&ctx, statements, active, &mut results, &mut diags, Ghost(left)) {
            Err(h) => {
                return Err(h);
            },
            Ok(next) => {
                active = next;
                proof {
                    let m = state::round(env, models, models.len() as int)->Ok_0;
                    let rest = state::rounds(env, active_view(active@), (left - 1) as nat);
                    if rest is Ok {
                        assert(had + (m.results + (rest->Ok_0).0) =~= (had + m.results)
                            + (rest->Ok_0).0);
                        assert(said + (m.diags + (rest->Ok_0).1) =~= (said + m.diags)
                            + (rest->Ok_0).1);
                    }
                    left = left - 1;
                }
            },
        }
    }
    proof {
        assert(types::result_models(results@) + Seq::empty() =~= types::result_models(results@));
        assert(types::parse_diagnostics(diags@) + Seq::empty() =~= types::parse_diagnostics(
            diags@,
        ));
    }
    Ok((results, diags))
}

} // verus!
