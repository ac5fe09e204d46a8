//! What holds of every trajectory that the engine produces.

use vstd::prelude::*;
use crate::engine::{
    bind_all, emitted_by, is_reserved, is_trajectory, partitions, registered_keys, run_key, runs_valid,
    step_witness, steps_to, substep_key, timestep_key, updates_view, with_reserved, StateKeyAndUpdateFn,
    Trajectory, Update,
};
use crate::error::SimError;
use crate::signals::{lemma_has_key_last, signals_view, Signal, Signals};
use crate::state::{
    bind, has_key, index_of, keys_distinct, lemma_bind_keys, lemma_lookup_bound, lookup, Bindings, State,
};
use crate::value::Value;

verus! {

/// Each state of a run over `timesteps` timesteps is marked with its index:
/// the trajectory holds `timesteps + 1` states, and the state at index `k`
/// binds the reserved key `timestep` to `k` (0 for the initial state).
pub proof fn lemma_trajectory_timesteps<P, U>(
    policies: Seq<P>,
    regs: Seq<StateKeyAndUpdateFn<U>>,
    init: Bindings,
    run: int,
    timesteps: int,
    t: Seq<State>,
) where
    P: Fn(&State) -> Result<Vec<Signal>, SimError>,
    U: Fn(&State, &Signals) -> Result<Update, SimError>,

    requires
        0 <= timesteps < i64::MAX,
        is_trajectory(policies, regs, init, run, timesteps, t),
    ensures
        t.len() == timesteps + 1,
        forall|k: int| 0 <= k <= timesteps ==> lookup((#[trigger] t[k])@, timestep_key()) == Some(Value::Integer(k as i64)),
{
    assert forall|k: int| 0 <= k <= timesteps implies lookup((#[trigger] t[k])@, timestep_key()) == Some(Value::Integer(k as i64)) by {
        assert(keys_distinct(t[k]@));
        if k == 0 {
            let b1 = bind(init, run_key(), Value::Integer((run + 1) as i64));
            let b2 = bind(b1, substep_key(), Value::Integer(0));
            lemma_lookup_bound(b2, timestep_key(), Value::Integer(0));
        } else {
            assert(steps_to(policies, regs, t[k - 1], run, k - 1, t[k]@));
            let (outs, signals, upds) = choose|outs: Seq<Vec<Signal>>, signals: Signals, upds: Seq<Update>|
                #[trigger] step_witness(policies, regs, t[k - 1], outs, signals, upds, run, k - 1, t[k]@);
            let b0 = bind_all(updates_view(upds));
            let b1 = bind(b0, run_key(), Value::Integer((run + 1) as i64));
            let b2 = bind(b1, substep_key(), Value::Integer(1));
            lemma_lookup_bound(b2, timestep_key(), Value::Integer(k as i64));
        }
    }
}

/// Every policy gives signals of the same view on states of the same view.
pub open spec fn policies_deterministic<P>(policies: Seq<P>) -> bool where
    P: Fn(&State) -> Result<Vec<Signal>, SimError>,
 {
    forall|i: int, s1: State, s2: State, o1: Vec<Signal>, o2: Vec<Signal>|
        0 <= i < policies.len() && s1@ == s2@ && #[trigger] call_ensures(policies[i], (&s1,), Ok::<Vec<Signal>, SimError>(o1))
            && #[trigger] call_ensures(policies[i], (&s2,), Ok::<Vec<Signal>, SimError>(o2))
            ==> signals_view(o1@) == signals_view(o2@)
}

/// Every update function gives the same value on states and signals of the
/// same views.
pub open spec fn updates_deterministic<U>(regs: Seq<StateKeyAndUpdateFn<U>>) -> bool where
    U: Fn(&State, &Signals) -> Result<Update, SimError>,
 {
    forall|j: int, s1: State, s2: State, g1: Signals, g2: Signals, u1: Update, u2: Update|
        0 <= j < regs.len() && s1@ == s2@ && g1@ == g2@
            && #[trigger] call_ensures(regs[j].update_func, (&s1, &g1), Ok::<Update, SimError>(u1))
            && #[trigger] call_ensures(regs[j].update_func, (&s2, &g2), Ok::<Update, SimError>(u2))
            ==> u1.value == u2.value
}

proof fn lemma_emitted_by_views(o1: Seq<Vec<Signal>>, o2: Seq<Vec<Signal>>)
    requires
        o1.len() == o2.len(),
        forall|i: int| 0 <= i < o1.len() ==> signals_view((#[trigger] o1[i])@) == signals_view(o2[i]@),
    ensures
        emitted_by(o1) == emitted_by(o2),
    decreases o1.len(),
{
    if o1.len() > 0 {
        let n = o1.len() - 1;
        assert(signals_view(o1[n]@) == signals_view(o2[n]@));
        assert forall|i: int| 0 <= i < o1.drop_last().len() implies signals_view((#[trigger] o1.drop_last()[i])@) == signals_view(o2.drop_last()[i]@) by {
            assert(o1.drop_last()[i] == o1[i]);
            assert(o2.drop_last()[i] == o2[i]);
        }
        lemma_emitted_by_views(o1.drop_last(), o2.drop_last());
    }
}

proof fn lemma_step_deterministic<P, U>(
    policies: Seq<P>,
    regs: Seq<StateKeyAndUpdateFn<U>>,
    s1: State,
    s2: State,
    run: int,
    k: int,
    n1: Bindings,
    n2: Bindings,
) where
    P: Fn(&State) -> Result<Vec<Signal>, SimError>,
    U: Fn(&State, &Signals) -> Result<Update, SimError>,

    requires
        policies_deterministic(policies),
        updates_deterministic(regs),
        s1@ == s2@,
        steps_to(policies, regs, s1, run, k, n1),
        steps_to(policies, regs, s2, run, k, n2),
    ensures
        n1 == n2,
{
    let (o1, g1, u1) = choose|o: Seq<Vec<Signal>>, g: Signals, u: Seq<Update>|
        #[trigger] step_witness(policies, regs, s1, o, g, u, run, k, n1);
    let (o2, g2, u2) = choose|o: Seq<Vec<Signal>>, g: Signals, u: Seq<Update>|
        #[trigger] step_witness(policies, regs, s2, o, g, u, run, k, n2);
    assert forall|i: int| 0 <= i < o1.len() implies signals_view((#[trigger] o1[i])@) == signals_view(o2[i]@) by {
        assert(call_ensures(policies[i], (&s1,), Ok::<Vec<Signal>, SimError>(o1[i])));
        assert(call_ensures(policies[i], (&s2,), Ok::<Vec<Signal>, SimError>(o2[i])));
    }
    lemma_emitted_by_views(o1, o2);
    assert(g1@ == g2@);
    assert forall|j: int| 0 <= j < u1.len() implies (#[trigger] updates_view(u1)[j]) == updates_view(u2)[j] by {
        assert(call_ensures(regs[j].update_func, (&s1, &g1), Ok::<Update, SimError>(u1[j])));
        assert(call_ensures(regs[j].update_func, (&s2, &g2), Ok::<Update, SimError>(u2[j])));
        assert(u1[j].key@ == regs[j].key@);
        assert(u2[j].key@ == regs[j].key@);
    }
    assert(updates_view(u1) =~= updates_view(u2));
}

proof fn lemma_trajectories_agree_upto<P, U>(
    policies: Seq<P>,
    regs: Seq<StateKeyAndUpdateFn<U>>,
    init: Bindings,
    run: int,
    timesteps: int,
    t1: Seq<State>,
    t2: Seq<State>,
    k: int,
) where
    P: Fn(&State) -> Result<Vec<Signal>, SimError>,
    U: Fn(&State, &Signals) -> Result<Update, SimError>,

    requires
        policies_deterministic(policies),
        updates_deterministic(regs),
        is_trajectory(policies, regs, init, run, timesteps, t1),
        is_trajectory(policies, regs, init, run, timesteps, t2),
        0 <= k <= timesteps,
    ensures
        t1[k]@ == t2[k]@,
    decreases k,
{
    if k > 0 {
        lemma_trajectories_agree_upto(policies, regs, init, run, timesteps, t1, t2, k - 1);
        assert(steps_to(policies, regs, t1[k - 1], run, k - 1, t1[k]@));
        assert(steps_to(policies, regs, t2[k - 1], run, k - 1, t2[k]@));
        lemma_step_deterministic(policies, regs, t1[k - 1], t2[k - 1], run, k - 1, t1[k]@, t2[k]@);
    }
}

/// What an invocation produced, state by state.
pub open spec fn runs_view(runs: Seq<Trajectory>) -> Seq<Seq<Bindings>> {
    runs.map_values(|t: Trajectory| t@.map_values(|s: State| s@))
}

/// Running a model twice gives the same trajectories, where its policies and
/// update functions are deterministic and both invocations succeed.
pub proof fn lemma_deterministic_runs_agree<P, U>(
    policies: Seq<P>,
    regs: Seq<StateKeyAndUpdateFn<U>>,
    init: Bindings,
    n_run: int,
    timesteps: int,
    runs1: Seq<Trajectory>,
    runs2: Seq<Trajectory>,
) where
    P: Fn(&State) -> Result<Vec<Signal>, SimError>,
    U: Fn(&State, &Signals) -> Result<Update, SimError>,

    requires
        policies_deterministic(policies),
        updates_deterministic(regs),
        runs_valid(policies, regs, init, n_run, timesteps, runs1),
        runs_valid(policies, regs, init, n_run, timesteps, runs2),
    ensures
        runs_view(runs1) == runs_view(runs2),
{
    assert forall|i: int| 0 <= i < n_run implies (#[trigger] runs_view(runs1)[i]) == runs_view(runs2)[i] by {
        let t1 = runs1[i]@;
        let t2 = runs2[i]@;
        assert(is_trajectory(policies, regs, init, i, timesteps, t1));
        assert(is_trajectory(policies, regs, init, i, timesteps, t2));
        assert forall|k: int| 0 <= k <= timesteps implies (#[trigger] t1[k])@ == t2[k]@ by {
            lemma_trajectories_agree_upto(policies, regs, init, i, timesteps, t1, t2, k);
        }
        assert(t1.map_values(|s: State| s@) =~= t2.map_values(|s: State| s@));
    }
    assert(runs_view(runs1) =~= runs_view(runs2));
}

proof fn lemma_bind_all_keys(b: Bindings, key: Seq<char>)
    ensures
        has_key(bind_all(b), key) <==> has_key(b, key),
    decreases b.len(),
{
    if b.len() > 0 {
        lemma_bind_all_keys(b.drop_last(), key);
        lemma_bind_keys(bind_all(b.drop_last()), b.last().0, b.last().1, key);
        lemma_has_key_last(b, key);
    }
}

proof fn lemma_with_reserved_keys(b: Bindings, run: int, substep: int, timestep: int, key: Seq<char>)
    ensures
        has_key(with_reserved(b, run, substep, timestep), key) <==> (has_key(b, key) || is_reserved(key)),
{
    let b1 = bind(b, run_key(), Value::Integer(run as i64));
    let b2 = bind(b1, substep_key(), Value::Integer(substep as i64));
    lemma_bind_keys(b, run_key(), Value::Integer(run as i64), key);
    lemma_bind_keys(b1, substep_key(), Value::Integer(substep as i64), key);
    lemma_bind_keys(b2, timestep_key(), Value::Integer(timestep as i64), key);
}

proof fn lemma_step_keys<P, U>(
    policies: Seq<P>,
    regs: Seq<StateKeyAndUpdateFn<U>>,
    init: Bindings,
    current: State,
    outs: Seq<Vec<Signal>>,
    signals: Signals,
    upds: Seq<Update>,
    run: int,
    k: int,
    next: Bindings,
    key: Seq<char>,
) where
    P: Fn(&State) -> Result<Vec<Signal>, SimError>,
    U: Fn(&State, &Signals) -> Result<Update, SimError>,

    requires
        partitions(init, registered_keys(regs)),
        step_witness(policies, regs, current, outs, signals, upds, run, k, next),
    ensures
        has_key(next, key) <==> (has_key(init, key) || is_reserved(key)),
{
    let keys = registered_keys(regs);
    let u = updates_view(upds);
    lemma_with_reserved_keys(bind_all(u), run + 1, 1, k + 1, key);
    lemma_bind_all_keys(u, key);
    if has_key(u, key) {
        let j = index_of(u, key);
        assert(u[j].0 == upds[j].key@);
        assert(keys[j] == key);
    }
    if has_key(init, key) && !is_reserved(key) {
        let j = choose|j: int| 0 <= j < keys.len() && #[trigger] keys[j] == key;
        assert(upds[j].key@ == regs[j].key@);
        assert(u[j].0 == key);
    }
}

/// Where the update functions claim the initial state's keys one to one,
/// every state of a run holds the keys of the initial state and the
/// reserved keys, and no other key.
pub proof fn lemma_trajectory_keys<P, U>(
    policies: Seq<P>,
    regs: Seq<StateKeyAndUpdateFn<U>>,
    init: Bindings,
    run: int,
    timesteps: int,
    t: Seq<State>,
) where
    P: Fn(&State) -> Result<Vec<Signal>, SimError>,
    U: Fn(&State, &Signals) -> Result<Update, SimError>,

    requires
        partitions(init, registered_keys(regs)),
        is_trajectory(policies, regs, init, run, timesteps, t),
    ensures
        forall|k: int, key: Seq<char>|
            0 <= k <= timesteps ==> (#[trigger] has_key(t[k]@, key) <==> (has_key(init, key) || is_reserved(key))),
{
    assert forall|k: int, key: Seq<char>| 0 <= k <= timesteps implies (#[trigger] has_key(t[k]@, key) <==> (
    has_key(init, key) || is_reserved(key))) by {
        if k == 0 {
            lemma_with_reserved_keys(init, run + 1, 0, 0, key);
        } else {
            assert(steps_to(policies, regs, t[k - 1], run, k - 1, t[k]@));
            let (outs, signals, upds) = choose|outs: Seq<Vec<Signal>>, signals: Signals, upds: Seq<Update>|
                #[trigger] step_witness(policies, regs, t[k - 1], outs, signals, upds, run, k - 1, t[k]@);
            lemma_step_keys(policies, regs, init, t[k - 1], outs, signals, upds, run, k - 1, t[k]@, key);
        }
    }
}

} // verus!
