//! The step engine and the run orchestrator.

use vstd::prelude::*;
use crate::error::{RunError, SimError};
use crate::signals::{aggregate, aggregate_signals, signals_view, Signal, Signals};
use crate::state::{
    bind, has_key, index_of, keys_distinct, lemma_bind, pairs_view, Bindings, State,
};
use crate::value::Value;

verus! {

/// How many independent runs, and how many timesteps in each.
#[derive(Clone, Copy, Debug, PartialEq, Eq, Structural)]
pub struct SimConfig {
    pub n_run: usize,
    pub timesteps: usize,
}

/// The new value for one state key, returned by the update function that
/// owns the key.
#[derive(Clone, Debug)]
pub struct Update {
    pub key: String,
    pub value: Value,
}

/// An update function with the state key that it owns.
pub struct StateKeyAndUpdateFn<U> {
    pub key: String,
    pub update_func: U,
}

/// A model: its initial state, its policies and its update functions, with
/// how long to run it. `name` and `print_trajectory` are for the embedding
/// layer, which reports the results.
#[allow(non_camel_case_types)]
pub struct cadCADConfig<P, U> {
    pub name: String,
    pub sim_config: SimConfig,
    pub init_state: State,
    pub policies: Vec<P>,
    pub state_key_and_update_fn_s: Vec<StateKeyAndUpdateFn<U>>,
    pub print_trajectory: bool,
}

/// The states of one run: the initial state, then one per timestep.
pub type Trajectory = Vec<State>;

pub open spec fn run_key() -> Seq<char> {
    seq!['r', 'u', 'n']
}

pub open spec fn substep_key() -> Seq<char> {
    seq!['s', 'u', 'b', 's', 't', 'e', 'p']
}

pub open spec fn timestep_key() -> Seq<char> {
    seq!['t', 'i', 'm', 'e', 's', 't', 'e', 'p']
}

/// The bookkeeping keys that the engine writes into every state.
pub open spec fn is_reserved(k: Seq<char>) -> bool {
    k == run_key() || k == substep_key() || k == timestep_key()
}

pub open spec fn with_reserved(b: Bindings, run: int, substep: int, timestep: int) -> Bindings {
    bind(
        bind(bind(b, run_key(), Value::Integer(run as i64)), substep_key(), Value::Integer(substep as i64)),
        timestep_key(),
        Value::Integer(timestep as i64),
    )
}

pub fn is_reserved_key(key: &String) -> (r: bool)
    ensures
        r == is_reserved(key@),
{
    proof {
        reveal_strlit("run");
        reveal_strlit("substep");
        reveal_strlit("timestep");
    }
    let run = "run".to_owned();
    let substep = "substep".to_owned();
    let timestep = "timestep".to_owned();
    assert(run@ =~= run_key());
    assert(substep@ =~= substep_key());
    assert(timestep@ =~= timestep_key());
    *key == run || *key == substep || *key == timestep
}

fn set_reserved_keys(state: &mut State, run: i64, substep: i64, timestep: i64)
    ensures
        final(state)@ == with_reserved(old(state)@, run as int, substep as int, timestep as int),
        keys_distinct(final(state)@),
{
    proof {
        reveal_strlit("run");
        reveal_strlit("substep");
        reveal_strlit("timestep");
    }
    let run_name = "run".to_owned();
    let substep_name = "substep".to_owned();
    let timestep_name = "timestep".to_owned();
    assert(run_name@ =~= run_key());
    assert(substep_name@ =~= substep_key());
    assert(timestep_name@ =~= timestep_key());
    state.set(run_name, Value::Integer(run));
    state.set(substep_name, Value::Integer(substep));
    state.set(timestep_name, Value::Integer(timestep));
}

/// Marks the initial state of run `i` (from 0): run `i + 1`, substep and
/// timestep 0.
fn add_additional_init_state_keys(init_state: &mut State, i: usize)
    requires
        i < i64::MAX,
    ensures
        final(init_state)@ == with_reserved(old(init_state)@, i + 1, 0, 0),
        keys_distinct(final(init_state)@),
{
    set_reserved_keys(init_state, i as i64 + 1, 0, 0);
}

/// Marks the state after timestep `k` (from 0) of run `i` (from 0).
fn add_additional_new_state_keys(new_state: &mut State, i: usize, k: usize)
    requires
        i < i64::MAX,
        k < i64::MAX,
    ensures
        final(new_state)@ == with_reserved(old(new_state)@, i + 1, 1, k + 1),
        keys_distinct(final(new_state)@),
{
    set_reserved_keys(new_state, i as i64 + 1, 1, k as i64 + 1);
}

pub open spec fn registered_keys<U>(regs: Seq<StateKeyAndUpdateFn<U>>) -> Seq<Seq<char>> {
    regs.map_values(|r: StateKeyAndUpdateFn<U>| r.key@)
}

pub open spec fn claimed(keys: Seq<Seq<char>>, k: Seq<char>) -> bool {
    exists|j: int| 0 <= j < keys.len() && #[trigger] keys[j] == k
}

/// The registered keys are exactly the non-reserved keys of the state, each
/// once.
pub open spec fn partitions(b: Bindings, keys: Seq<Seq<char>>) -> bool {
    &&& forall|j: int| 0 <= j < keys.len() ==> !is_reserved(#[trigger] keys[j]) && has_key(b, keys[j])
    &&& forall|j1: int, j2: int| 0 <= j1 < j2 < keys.len() ==> #[trigger] keys[j1] != #[trigger] keys[j2]
    &&& forall|k: Seq<char>| #[trigger] has_key(b, k) && !is_reserved(k) ==> claimed(keys, k)
}

/// A key that breaks the partition: claimed though reserved or not a state
/// key, claimed twice, or a state key that nothing claims.
pub open spec fn offending(b: Bindings, keys: Seq<Seq<char>>, k: Seq<char>) -> bool {
    ||| claimed(keys, k) && (is_reserved(k) || !has_key(b, k))
    ||| exists|j1: int, j2: int| 0 <= j1 < j2 < keys.len() && #[trigger] keys[j1] == k && #[trigger] keys[j2] == k
    ||| has_key(b, k) && !is_reserved(k) && !claimed(keys, k)
}

/// Checks that each non-reserved key of `init_state` is claimed by exactly
/// one registered update function, and that nothing else is claimed.
pub fn check_key_partition<U>(init_state: &State, regs: &Vec<StateKeyAndUpdateFn<U>>) -> (r: Result<(), SimError>)
    ensures
        r is Ok <==> partitions(init_state@, registered_keys(regs@)),
        r is Err ==> (r matches Err(SimError::UnclaimedOrDoubleClaimedKey { key }) && offending(
            init_state@,
            registered_keys(regs@),
            key@,
        )),
{
    let ghost keys = registered_keys(regs@);
    let ghost b = init_state@;
    let mut j: usize = 0;
    while j < regs.len()
        invariant
            0 <= j <= regs.len(),
            keys == registered_keys(regs@),
            b == init_state@,
            forall|jj: int| 0 <= jj < j ==> !is_reserved(#[trigger] keys[jj]) && has_key(b, keys[jj]),
            forall|j1: int, j2: int| 0 <= j1 < j2 < j ==> #[trigger] keys[j1] != #[trigger] keys[j2],
        decreases regs.len() - j,
    {
        let key = &regs[j].key;
        assert(keys[j as int] == key@);
        if is_reserved_key(key) || !init_state.contains_key(key.as_str()) {
            return Err(SimError::UnclaimedOrDoubleClaimedKey { key: key.clone() });
        }
        let mut m: usize = 0;
        while m < j
            invariant
                0 <= m <= j < regs.len(),
                keys == registered_keys(regs@),
                keys[j as int] == key@,
                forall|mm: int| 0 <= mm < m ==> #[trigger] keys[mm] != key@,
            decreases j - m,
        {
            if regs[m].key == *key {
                assert(keys[m as int] == key@);
                return Err(SimError::UnclaimedOrDoubleClaimedKey { key: key.clone() });
            }
            m = m + 1;
        }
        j = j + 1;
    }
    let entries = init_state.entries();
    let mut i: usize = 0;
    while i < entries.len()
        invariant
            0 <= i <= entries.len(),
            keys == registered_keys(regs@),
            b == init_state@,
            pairs_view(entries@) == b,
            forall|jj: int| 0 <= jj < keys.len() ==> !is_reserved(#[trigger] keys[jj]) && has_key(b, keys[jj]),
            forall|j1: int, j2: int| 0 <= j1 < j2 < keys.len() ==> #[trigger] keys[j1] != #[trigger] keys[j2],
            forall|ii: int| 0 <= ii < i ==> !is_reserved(#[trigger] b[ii].0) ==> claimed(keys, b[ii].0),
        decreases entries.len() - i,
    {
        let key = &entries[i].0;
        assert(b[i as int].0 == key@);
        if !is_reserved_key(key) {
            let mut m: usize = 0;
            let mut found = false;
            while m < regs.len() && !found
                invariant
                    0 <= m <= regs.len(),
                    keys == registered_keys(regs@),
                    found ==> claimed(keys, key@),
                    !found ==> forall|mm: int| 0 <= mm < m ==> #[trigger] keys[mm] != key@,
                decreases regs.len() - m,
            {
                if regs[m].key == *key {
                    assert(keys[m as int] == key@);
                    found = true;
                }
                m = m + 1;
            }
            if !found {
                assert(has_key(b, key@));
                return Err(SimError::UnclaimedOrDoubleClaimedKey { key: key.clone() });
            }
        }
        i = i + 1;
    }
    assert forall|k: Seq<char>| #[trigger] has_key(b, k) && !is_reserved(k) implies claimed(keys, k) by {
        let ii = index_of(b, k);
        assert(b[ii].0 == k);
    }
    Ok(())
}

pub open spec fn updates_view(u: Seq<Update>) -> Bindings {
    u.map_values(|e: Update| (e.key@, e.value))
}

/// The bindings that result from binding each pair in turn, from empty.
pub open spec fn bind_all(b: Bindings) -> Bindings
    decreases b.len(),
{
    if b.len() == 0 {
        Seq::empty()
    } else {
        bind(bind_all(b.drop_last()), b.last().0, b.last().1)
    }
}

pub proof fn lemma_bind_all_distinct(b: Bindings)
    ensures
        keys_distinct(bind_all(b)),
    decreases b.len(),
{
    if b.len() > 0 {
        lemma_bind_all_distinct(b.drop_last());
        lemma_bind(bind_all(b.drop_last()), b.last().0, b.last().1);
    }
}

/// Takes the update that the function registered for `expected` returned:
/// binds its value in `next` where its key is `expected`, else leaves
/// `next` as it is and reports a `KeyMismatch`.
pub fn accept_update(next: &mut State, expected: &String, update: Update) -> (r: Result<(), SimError>)
    ensures
        update.key@ == expected@ ==> r is Ok && final(next)@ == bind(old(next)@, expected@, update.value),
        update.key@ != expected@ ==> (r matches Err(SimError::KeyMismatch { expected: e, found: f })
            && e@ == expected@ && f@ == update.key@ && final(next)@ == old(next)@),
{
    if update.key == *expected {
        next.set(update.key, update.value);
        Ok(())
    } else {
        Err(SimError::KeyMismatch { expected: expected.clone(), found: update.key })
    }
}

/// The signals that a sequence of policy outputs emits, in order.
pub open spec fn emitted_by(outs: Seq<Vec<Signal>>) -> Bindings
    decreases outs.len(),
{
    if outs.len() == 0 {
        Seq::empty()
    } else {
        emitted_by(outs.drop_last()) + signals_view(outs.last()@)
    }
}

/// One timestep from `current` to `next`, of run `run` and timestep `k`
/// (both from 0), through the outputs `outs` of the policies, the aggregated
/// `signals`, and the outputs `upds` of the update functions.
pub open spec fn step_witness<P, U>(
    policies: Seq<P>,
    regs: Seq<StateKeyAndUpdateFn<U>>,
    current: State,
    outs: Seq<Vec<Signal>>,
    signals: Signals,
    upds: Seq<Update>,
    run: int,
    k: int,
    next: Bindings,
) -> bool where
    P: Fn(&State) -> Result<Vec<Signal>, SimError>,
    U: Fn(&State, &Signals) -> Result<Update, SimError>,
 {
    &&& outs.len() == policies.len()
    &&& forall|i: int| 0 <= i < outs.len() ==> call_ensures(policies[i], (&current,), Ok::<Vec<Signal>, SimError>(#[trigger] outs[i]))
    &&& aggregate(emitted_by(outs)) == Ok::<Bindings, (Seq<char>, crate::value::ValueError)>(signals@)
    &&& upds.len() == regs.len()
    &&& forall|j: int| 0 <= j < upds.len() ==> call_ensures(regs[j].update_func, (&current, &signals), Ok::<Update, SimError>(#[trigger] upds[j]))
    &&& forall|j: int| 0 <= j < upds.len() ==> (#[trigger] upds[j]).key@ == regs[j].key@
    &&& next == with_reserved(bind_all(updates_view(upds)), run + 1, 1, k + 1)
}

/// Some outputs of the policies and update functions lead from `current` to
/// `next` in timestep `k` of run `run`.
pub open spec fn steps_to<P, U>(
    policies: Seq<P>,
    regs: Seq<StateKeyAndUpdateFn<U>>,
    current: State,
    run: int,
    k: int,
    next: Bindings,
) -> bool where
    P: Fn(&State) -> Result<Vec<Signal>, SimError>,
    U: Fn(&State, &Signals) -> Result<Update, SimError>,
 {
    exists|outs: Seq<Vec<Signal>>, signals: Signals, upds: Seq<Update>| #[trigger]
        step_witness(policies, regs, current, outs, signals, upds, run, k, next)
}

pub open spec fn policies_callable<P>(policies: Seq<P>) -> bool where
    P: Fn(&State) -> Result<Vec<Signal>, SimError>,
 {
    forall|i: int, s: &State| 0 <= i < policies.len() ==> #[trigger] call_requires(policies[i], (s,))
}

pub open spec fn updates_callable<U>(regs: Seq<StateKeyAndUpdateFn<U>>) -> bool where
    U: Fn(&State, &Signals) -> Result<Update, SimError>,
 {
    forall|j: int, s: &State, g: &Signals| 0 <= j < regs.len() ==> #[trigger] call_requires(regs[j].update_func, (s, g))
}

/// The first `outs.len()` policies may return `Ok` with `outs` on `s`.
pub open spec fn policies_admit<P>(policies: Seq<P>, s: State, outs: Seq<Vec<Signal>>) -> bool where
    P: Fn(&State) -> Result<Vec<Signal>, SimError>,
 {
    &&& outs.len() <= policies.len()
    &&& forall|i: int| 0 <= i < outs.len() ==> call_ensures(policies[i], (&s,), Ok::<Vec<Signal>, SimError>(#[trigger] outs[i]))
}

/// The first `upds.len()` update functions may return `Ok` with `upds`, each
/// with its registered key, on `s` and `signals`.
pub open spec fn updates_admit<U>(regs: Seq<StateKeyAndUpdateFn<U>>, s: State, signals: Signals, upds: Seq<Update>) -> bool where
    U: Fn(&State, &Signals) -> Result<Update, SimError>,
 {
    &&& upds.len() <= regs.len()
    &&& forall|j: int| 0 <= j < upds.len() ==> call_ensures(regs[j].update_func, (&s, &signals), Ok::<Update, SimError>(#[trigger] upds[j]))
    &&& forall|j: int| 0 <= j < upds.len() ==> (#[trigger] upds[j]).key@ == regs[j].key@
}

/// A timestep on `s` may end with `error`: a policy returned it after the
/// ones before it succeeded; or all policies succeeded and their signals do
/// not combine for a key; or the signals aggregated and an update function
/// returned it after the ones before it succeeded with their keys; or such an
/// update function returned another key than its registered one.
pub open spec fn step_fails<P, U>(policies: Seq<P>, regs: Seq<StateKeyAndUpdateFn<U>>, s: State, error: SimError) -> bool where
    P: Fn(&State) -> Result<Vec<Signal>, SimError>,
    U: Fn(&State, &Signals) -> Result<Update, SimError>,
 {
    ||| exists|outs: Seq<Vec<Signal>>| #[trigger] policies_admit(policies, s, outs) && outs.len() < policies.len()
        && call_ensures(policies[outs.len() as int], (&s,), Err::<Vec<Signal>, SimError>(error))
    ||| exists|outs: Seq<Vec<Signal>>| #[trigger] policies_admit(policies, s, outs) && outs.len() == policies.len()
        && (error matches SimError::Combine { key, error: e } && aggregate(emitted_by(outs))
        == Err::<Bindings, (Seq<char>, crate::value::ValueError)>((key@, e)))
    ||| exists|outs: Seq<Vec<Signal>>, signals: Signals, upds: Seq<Update>|
        #[trigger] policies_admit(policies, s, outs) && #[trigger] updates_admit(regs, s, signals, upds)
        && outs.len() == policies.len() && aggregate(emitted_by(outs)) == Ok::<Bindings, (Seq<char>, crate::value::ValueError)>(signals@)
        && upds.len() < regs.len()
        && call_ensures(regs[upds.len() as int].update_func, (&s, &signals), Err::<Update, SimError>(error))
    ||| exists|outs: Seq<Vec<Signal>>, signals: Signals, upds: Seq<Update>, u: Update|
        #[trigger] policies_admit(policies, s, outs) && #[trigger] updates_admit(regs, s, signals, upds)
        && outs.len() == policies.len() && aggregate(emitted_by(outs)) == Ok::<Bindings, (Seq<char>, crate::value::ValueError)>(signals@)
        && upds.len() < regs.len()
        && #[trigger] call_ensures(regs[upds.len() as int].update_func, (&s, &signals), Ok::<Update, SimError>(u))
        && u.key@ != regs[upds.len() as int].key@
        && (error matches SimError::KeyMismatch { expected, found } && expected@ == regs[upds.len() as int].key@
        && found@ == u.key@)
}

/// Runs timestep `k` of run `run` (both from 0) on `current`: evaluates every
/// policy on `current`, aggregates what they emit, calls every update
/// function on `current` and the signals, and marks the result. The first
/// error of a policy, of an update function, of aggregation or of a key
/// check ends the timestep.
pub fn run_timestep<P, U>(
    policies: &Vec<P>,
    regs: &Vec<StateKeyAndUpdateFn<U>>,
    current: &State,
    run: usize,
    k: usize,
) -> (r: Result<State, SimError>) where
    P: Fn(&State) -> Result<Vec<Signal>, SimError>,
    U: Fn(&State, &Signals) -> Result<Update, SimError>,

    requires
        run < i64::MAX,
        k < i64::MAX,
        policies_callable(policies@),
        updates_callable(regs@),
    ensures
        r is Ok ==> steps_to(policies@, regs@, *current, run as int, k as int, r->Ok_0@),
        r is Ok ==> keys_distinct(r->Ok_0@),
        r is Err ==> step_fails(policies@, regs@, *current, r->Err_0),
        policies@.len() == 0 && regs@.len() == 0 ==> r is Ok,
{
    // Policies all see the same current state.
    let mut emitted: Vec<Signal> = Vec::new();
    let ghost mut outs: Seq<Vec<Signal>> = Seq::empty();
    let mut i: usize = 0;
    while i < policies.len()
        invariant
            0 <= i <= policies.len(),
            policies_callable(policies@),
            outs.len() == i,
            forall|ii: int| 0 <= ii < i ==> call_ensures(policies@[ii], (current,), Ok::<Vec<Signal>, SimError>(#[trigger] outs[ii])),
            signals_view(emitted@) == emitted_by(outs),
        decreases policies.len() - i,
    {
        let policy = &policies[i];
        let out = policy(current);
        match out {
            Ok(sigs) => {
                let mut sigs = sigs;
                let ghost prev = outs;
                proof {
                    outs = outs.push(sigs);
                    assert(outs.drop_last() =~= prev);
                }
                let ghost before = emitted@;
                emitted.append(&mut sigs);
                assert(signals_view(emitted@) =~= signals_view(before) + signals_view(outs.last()@));
            },
            Err(e) => {
                proof {
                    assert(policies_admit(policies@, *current, outs));
                }
                return Err(e);
            },
        }
        i = i + 1;
    }
    proof {
        assert(policies_admit(policies@, *current, outs));
    }
    let signals = match aggregate_signals(&emitted) {
        Ok(signals) => signals,
        Err(e) => {
            proof {
                assert(policies_admit(policies@, *current, outs) && outs.len() == policies@.len() && (e matches SimError::Combine { key, error: ve } && aggregate(emitted_by(outs))
                    == Err::<Bindings, (Seq<char>, crate::value::ValueError)>((key@, ve))));
            }
            return Err(e);
        },
    };
    let mut next = State::new();
    let ghost mut upds: Seq<Update> = Seq::empty();
    let mut j: usize = 0;
    while j < regs.len()
        invariant
            0 <= j <= regs.len(),
            updates_callable(regs@),
            policies_admit(policies@, *current, outs),
            outs.len() == policies@.len(),
            aggregate(emitted_by(outs)) == Ok::<Bindings, (Seq<char>, crate::value::ValueError)>(signals@),
            upds.len() == j,
            forall|jj: int| 0 <= jj < j ==> call_ensures(regs@[jj].update_func, (current, &signals), Ok::<Update, SimError>(#[trigger] upds[jj])),
            forall|jj: int| 0 <= jj < j ==> (#[trigger] upds[jj]).key@ == regs@[jj].key@,
            next@ == bind_all(updates_view(upds)),
        decreases regs.len() - j,
    {
        let reg = &regs[j];
        let res = (reg.update_func)(current, &signals);
        match res {
            Ok(update) => {
                let ghost prev = upds;
                proof {
                    upds = upds.push(update);
                    assert(upds.drop_last() =~= prev);
                    assert(updates_view(upds).drop_last() =~= updates_view(prev));
                }
                let ghost u = update;
                match accept_update(&mut next, &reg.key, update) {
                    Ok(()) => {},
                    Err(e) => {
                        proof {
                            assert(updates_admit(regs@, *current, signals, prev));
                            assert(policies_admit(policies@, *current, outs) && updates_admit(regs@, *current, signals, prev)
                                && outs.len() == policies@.len() && aggregate(emitted_by(outs)) == Ok::<Bindings, (Seq<char>, crate::value::ValueError)>(signals@)
                                && prev.len() < regs@.len()
                                && call_ensures(regs@[prev.len() as int].update_func, (current, &signals), Ok::<Update, SimError>(u))
                                && u.key@ != regs@[prev.len() as int].key@
                                && (e matches SimError::KeyMismatch { expected, found } && expected@ == regs@[prev.len() as int].key@
                                && found@ == u.key@));
                        }
                        return Err(e);
                    },
                }
            },
            Err(e) => {
                proof {
                    assert(updates_admit(regs@, *current, signals, upds));
                    assert(call_ensures(regs@[upds.len() as int].update_func, (current, &signals), Err::<Update, SimError>(e)));
                }
                return Err(e);
            },
        }
        j = j + 1;
    }
    proof {
        lemma_bind_all_distinct(updates_view(upds));
    }
    add_additional_new_state_keys(&mut next, run, k);
    proof {
        assert(step_witness(policies@, regs@, *current, outs, signals, upds, run as int, k as int, next@));
    }
    Ok(next)
}

/// The states of run `run` (from 0) over `timesteps` timesteps: the
/// initial state marked for the run, then each state one timestep after the
/// one before; every state holds each key once.
pub open spec fn is_trajectory<P, U>(
    policies: Seq<P>,
    regs: Seq<StateKeyAndUpdateFn<U>>,
    init: Bindings,
    run: int,
    timesteps: int,
    t: Seq<State>,
) -> bool where
    P: Fn(&State) -> Result<Vec<Signal>, SimError>,
    U: Fn(&State, &Signals) -> Result<Update, SimError>,
 {
    &&& t.len() == timesteps + 1
    &&& t[0]@ == with_reserved(init, run + 1, 0, 0)
    &&& forall|k: int| 0 <= k < timesteps ==> steps_to(policies, regs, #[trigger] t[k], run, k, t[k + 1]@)
    &&& forall|k: int| 0 <= k <= timesteps ==> keys_distinct((#[trigger] t[k])@)
}

/// One trajectory per run, in the order of the runs.
pub open spec fn runs_valid<P, U>(
    policies: Seq<P>,
    regs: Seq<StateKeyAndUpdateFn<U>>,
    init: Bindings,
    n_run: int,
    timesteps: int,
    runs: Seq<Trajectory>,
) -> bool where
    P: Fn(&State) -> Result<Vec<Signal>, SimError>,
    U: Fn(&State, &Signals) -> Result<Update, SimError>,
 {
    &&& runs.len() == n_run
    &&& forall|i: int| 0 <= i < n_run ==> is_trajectory(policies, regs, init, i, timesteps, (#[trigger] runs[i])@)
}

/// Runs the model: checks that the update functions claim the state's keys
/// one to one, then runs each of `n_run` runs for `timesteps` timesteps, one
/// after the other, from the initial state. A fault in any timestep ends the
/// whole invocation with that fault, its run and its timestep.
pub fn run_simulation<P, U>(cadcad_config: &cadCADConfig<P, U>) -> (r: Result<Vec<Trajectory>, RunError>) where
    P: Fn(&State) -> Result<Vec<Signal>, SimError>,
    U: Fn(&State, &Signals) -> Result<Update, SimError>,

    requires
        cadcad_config.sim_config.n_run < i64::MAX,
        cadcad_config.sim_config.timesteps < i64::MAX,
        policies_callable(cadcad_config.policies@),
        updates_callable(cadcad_config.state_key_and_update_fn_s@),
    ensures
        (r matches Err(RunError::Config(_))) <==> !partitions(
            cadcad_config.init_state@,
            registered_keys(cadcad_config.state_key_and_update_fn_s@),
        ),
        r matches Err(RunError::Config(e)) ==> (e matches SimError::UnclaimedOrDoubleClaimedKey { key }
            && offending(cadcad_config.init_state@, registered_keys(cadcad_config.state_key_and_update_fn_s@), key@)),
        r matches Err(RunError::Step { run, timestep, error }) ==> run < cadcad_config.sim_config.n_run
            && timestep < cadcad_config.sim_config.timesteps && exists|t: Seq<State>|
            #[trigger] is_trajectory(
            cadcad_config.policies@,
            cadcad_config.state_key_and_update_fn_s@,
            cadcad_config.init_state@,
            run as int,
            timestep as int,
            t,
        ) && step_fails(
            cadcad_config.policies@,
            cadcad_config.state_key_and_update_fn_s@,
            t[timestep as int],
            error,
        ),
        partitions(cadcad_config.init_state@, registered_keys(cadcad_config.state_key_and_update_fn_s@))
            && (forall|s: State, e: SimError| !#[trigger] step_fails(
            cadcad_config.policies@,
            cadcad_config.state_key_and_update_fn_s@,
            s,
            e,
        )) ==> r is Ok,
        partitions(cadcad_config.init_state@, registered_keys(cadcad_config.state_key_and_update_fn_s@))
            && cadcad_config.policies@.len() == 0 && cadcad_config.state_key_and_update_fn_s@.len() == 0 ==> r is Ok,
        r is Ok ==> runs_valid(
            cadcad_config.policies@,
            cadcad_config.state_key_and_update_fn_s@,
            cadcad_config.init_state@,
            cadcad_config.sim_config.n_run as int,
            cadcad_config.sim_config.timesteps as int,
            r->Ok_0@,
        ),
{
    let policies = &cadcad_config.policies;
    let regs = &cadcad_config.state_key_and_update_fn_s;
    let n_run = cadcad_config.sim_config.n_run;
    let timesteps = cadcad_config.sim_config.timesteps;
    let ghost init = cadcad_config.init_state@;
    match check_key_partition(&cadcad_config.init_state, regs) {
        Ok(()) => {},
        Err(e) => {
            return Err(RunError::Config(e));
        },
    }
    let mut runs: Vec<Trajectory> = Vec::new();
    let mut i: usize = 0;
    while i < n_run
        invariant
            0 <= i <= n_run,
            n_run == cadcad_config.sim_config.n_run,
            timesteps == cadcad_config.sim_config.timesteps,
            n_run < i64::MAX,
            timesteps < i64::MAX,
            init == cadcad_config.init_state@,
            partitions(init, registered_keys(regs@)),
            policies == &cadcad_config.policies,
            regs == &cadcad_config.state_key_and_update_fn_s,
            policies_callable(policies@),
            updates_callable(regs@),
            runs@.len() == i,
            forall|ii: int| 0 <= ii < i ==> is_trajectory(policies@, regs@, init, ii, timesteps as int, (#[trigger] runs@[ii])@),
        decreases n_run - i,
    {
        let mut init_state = cadcad_config.init_state.clone();
        add_additional_init_state_keys(&mut init_state, i);
        let mut trajectory: Trajectory = Vec::new();
        trajectory.push(init_state);
        let mut k: usize = 0;
        while k < timesteps
            invariant
                0 <= k <= timesteps,
                i < n_run,
                n_run == cadcad_config.sim_config.n_run,
                timesteps == cadcad_config.sim_config.timesteps,
                regs == &cadcad_config.state_key_and_update_fn_s,
                policies == &cadcad_config.policies,
                init == cadcad_config.init_state@,
                partitions(init, registered_keys(regs@)),
                n_run < i64::MAX,
                timesteps < i64::MAX,
                policies_callable(policies@),
                updates_callable(regs@),
                trajectory@.len() == k + 1,
                trajectory@[0]@ == with_reserved(init, i + 1, 0, 0),
                forall|kk: int| 0 <= kk < k ==> steps_to(policies@, regs@, #[trigger] trajectory@[kk], i as int, kk, trajectory@[kk + 1]@),
                forall|kk: int| 0 <= kk <= k ==> keys_distinct((#[trigger] trajectory@[kk])@),
            decreases timesteps - k,
        {
            let next = match run_timestep(policies, regs, &trajectory[k], i, k) {
                Ok(s) => s,
                Err(error) => {
                    proof {
                        assert(is_trajectory(policies@, regs@, init, i as int, k as int, trajectory@));
                    }
                    return Err(RunError::Step { run: i, timestep: k, error });
                },
            };
            trajectory.push(next);
            k = k + 1;
        }
        runs.push(trajectory);
        i = i + 1;
    }
    Ok(runs)
}

} // verus!
