//! A prey/predator population model, with random policies.

use rand::Rng;
use vstd::prelude::*;
use crate::engine::{SimConfig, Update};
use crate::error::SimError;
use crate::signals::{Signal, Signals};
use crate::state::{has_key, lookup, Bindings, State};
use crate::value::{Foo, Value};

verus! {

/// Relies on rand::thread_rng and rand::Rng::gen_range: a number drawn from
/// `low..high`, a range that gen_range asserts is not empty.
#[verifier::external_body]
fn random_in_range(low: i64, high: i64) -> (r: i64)
    requires
        low < high,
    ensures
        low <= r < high,
{
    rand::thread_rng().gen_range(low..high)
}

/// The signals of a policy that proposes one change: `value` for `key`.
pub fn single_signal(key: &str, value: Value) -> (r: Vec<Signal>)
    ensures
        r@.len() == 1,
        r@[0].key@ == key@,
        r@[0].value == value,
{
    let mut v: Vec<Signal> = Vec::new();
    v.push(Signal { key: key.to_owned(), value });
    v
}

/// `r` is exactly one integer signal for `key`, within `low..high`.
pub open spec fn emits_integer_in(r: Result<Vec<Signal>, SimError>, key: Seq<char>, low: int, high: int) -> bool {
    r matches Ok(v) && v@.len() == 1 && v@[0].key@ == key && (v@[0].value matches Value::Integer(n) && low <= n
        < high)
}

/// Prey numbers change by a number in `-100..100` in normal conditions.
pub fn prey_policy(_state: &State) -> (r: Result<Vec<Signal>, SimError>)
    ensures
        emits_integer_in(r, "preys_change"@, -100, 100),
{
    let change = random_in_range(-100, 100);
    Ok(single_signal("preys_change", Value::Integer(change)))
}

/// Predator numbers change by a number in `-10..10` in normal conditions.
pub fn predator_policy(_state: &State) -> (r: Result<Vec<Signal>, SimError>)
    ensures
        emits_integer_in(r, "predators_change"@, -10, 10),
{
    let change = random_in_range(-10, 10);
    Ok(single_signal("predators_change", Value::Integer(change)))
}

/// A pandemic takes between 50 and 1000 predators.
pub fn predator_pandemic(_state: &State) -> (r: Result<Vec<Signal>, SimError>)
    ensures
        emits_integer_in(r, "predators_change"@, -1000, -50),
{
    let change = random_in_range(-1000, -50);
    Ok(single_signal("predators_change", Value::Integer(change)))
}

/// The composite `foo` changes by a count in `-10..10`.
pub fn foo_change_normal_conditions(_state: &State) -> (r: Result<Vec<Signal>, SimError>)
    ensures
        r matches Ok(v) && v@.len() == 1 && v@[0].key@ == "foo_change"@ && (v@[0].value matches Value::Composite(
            f,
        ) && -10 <= f.count < 10),
{
    let change = random_in_range(-10, 10);
    Ok(single_signal("foo_change", Value::Composite(Foo { count: change })))
}

/// `r` is the update of `key` by the signal `change`: the two values
/// combined, or the first missing key, or the combination's fault.
pub open spec fn is_change_update(
    r: Result<Update, SimError>,
    state: Bindings,
    signals: Bindings,
    key: Seq<char>,
    change: Seq<char>,
) -> bool {
    if !has_key(state, key) {
        r matches Err(SimError::MissingKey { key: k }) && k@ == key
    } else if !has_key(signals, change) {
        r matches Err(SimError::MissingKey { key: k }) && k@ == change
    } else {
        match lookup(state, key)->Some_0.spec_combine(lookup(signals, change)->Some_0) {
            Ok(v) => r matches Ok(u) && u.key@ == key && u.value == v,
            Err(e) => r matches Err(SimError::Combine { key: k, error }) && k@ == key && error == e,
        }
    }
}

/// The update of `key` by the aggregated signal `change_key`.
pub fn apply_change(state: &State, signals: &Signals, key: &str, change_key: &str) -> (r: Result<Update, SimError>)
    ensures
        is_change_update(r, state@, signals@, key@, change_key@),
{
    let current = state.get(key)?;
    let change = signals.get(change_key)?;
    match current.combine(&change) {
        Ok(value) => Ok(Update { key: key.to_owned(), value }),
        Err(error) => Err(SimError::Combine { key: key.to_owned(), error }),
    }
}

/// Preys advance by the signal `preys_change`.
pub fn update_prey(state: &State, signals: &Signals) -> (r: Result<Update, SimError>)
    ensures
        is_change_update(r, state@, signals@, "preys"@, "preys_change"@),
{
    apply_change(state, signals, "preys", "preys_change")
}

/// Predators advance by the signal `predators_change`.
pub fn update_predator(state: &State, signals: &Signals) -> (r: Result<Update, SimError>)
    ensures
        is_change_update(r, state@, signals@, "predators"@, "predators_change"@),
{
    apply_change(state, signals, "predators", "predators_change")
}

/// The composite `foo` advances by the signal `foo_change`.
pub fn update_foo(state: &State, signals: &Signals) -> (r: Result<Update, SimError>)
    ensures
        is_change_update(r, state@, signals@, "foo"@, "foo_change"@),
{
    apply_change(state, signals, "foo", "foo_change")
}

/// 2000 preys and 200 predators.
pub fn init_state() -> (r: State)
    ensures
        r@ == seq![("preys"@, Value::Integer(2000)), ("predators"@, Value::Integer(200))],
{
    let mut s = State::new();
    proof {
        reveal_strlit("preys");
        reveal_strlit("predators");
    }
    s.set("preys".to_owned(), Value::Integer(2000));
    assert(s@ =~= seq![("preys"@, Value::Integer(2000))]);
    assert(!has_key(s@, "predators"@)) by {
        assert("preys"@.len() != "predators"@.len());
    }
    s.set("predators".to_owned(), Value::Integer(200));
    assert(s@ =~= seq![("preys"@, Value::Integer(2000)), ("predators"@, Value::Integer(200))]);
    s
}

/// 2000 preys, 200 predators and a composite `foo` of count 500.
pub fn init_state_with_foo() -> (r: State)
    ensures
        r@ == seq![
            ("preys"@, Value::Integer(2000)),
            ("predators"@, Value::Integer(200)),
            ("foo"@, Value::Composite(Foo { count: 500 })),
        ],
{
    let mut s = init_state();
    proof {
        reveal_strlit("preys");
        reveal_strlit("predators");
        reveal_strlit("foo");
    }
    assert(!has_key(s@, "foo"@)) by {
        assert("preys"@.len() != "foo"@.len());
        assert("predators"@.len() != "foo"@.len());
    }
    s.set("foo".to_owned(), Value::Composite(Foo { count: 500 }));
    assert(s@ =~= seq![
        ("preys"@, Value::Integer(2000)),
        ("predators"@, Value::Integer(200)),
        ("foo"@, Value::Composite(Foo { count: 500 })),
    ]);
    s
}

/// One run of nine timesteps.
pub fn sim_config() -> (r: SimConfig)
    ensures
        r == (SimConfig { n_run: 1, timesteps: 9 }),
{
    SimConfig { n_run: 1, timesteps: 9 }
}

} // verus!
