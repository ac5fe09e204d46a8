use cadcad_rs::prey_predator::{
    apply_change, init_state, single_signal, init_state_with_foo, predator_pandemic, predator_policy, prey_policy,
    sim_config, update_foo, update_predator, update_prey, foo_change_normal_conditions,
};
use cadcad_rs::{
    cadCADConfig, check_key_partition, run_simulation, RunError, SimConfig, SimError, Signal, Signals,
    State, StateKeyAndUpdateFn, Update, Value, Foo,
};

type PolicyFn = Box<dyn Fn(&State) -> Result<Vec<Signal>, SimError>>;
type UpdateFn = Box<dyn Fn(&State, &Signals) -> Result<Update, SimError>>;

fn emit(key: &'static str, n: i64) -> PolicyFn {
    Box::new(move |_s: &State| Ok(vec![Signal { key: key.to_string(), value: Value::Integer(n) }]))
}

fn registration(key: &str, f: fn(&State, &Signals) -> Result<Update, SimError>) -> StateKeyAndUpdateFn<UpdateFn> {
    StateKeyAndUpdateFn { key: key.to_string(), update_func: Box::new(f) }
}

fn prey_predator_updates() -> Vec<StateKeyAndUpdateFn<UpdateFn>> {
    vec![registration("preys", update_prey), registration("predators", update_predator)]
}

fn config(
    n_run: usize,
    timesteps: usize,
    policies: Vec<PolicyFn>,
    updates: Vec<StateKeyAndUpdateFn<UpdateFn>>,
) -> cadCADConfig<PolicyFn, UpdateFn> {
    cadCADConfig {
        name: "prey predator".to_string(),
        sim_config: SimConfig { n_run, timesteps },
        init_state: init_state(),
        policies,
        state_key_and_update_fn_s: updates,
        print_trajectory: false,
    }
}

fn entries(s: &State) -> Vec<(String, Value)> {
    s.entries().clone()
}

fn integer(key: &str, n: i64) -> (String, Value) {
    (key.to_string(), Value::Integer(n))
}

#[test]
fn end_to_end_one_timestep() {
    let c = config(1, 1, vec![emit("preys_change", 50), emit("predators_change", -5)], prey_predator_updates());
    let runs = run_simulation(&c).unwrap();
    assert_eq!(runs.len(), 1);
    assert_eq!(runs[0].len(), 2);
    assert_eq!(
        entries(&runs[0][0]),
        vec![integer("preys", 2000), integer("predators", 200), integer("run", 1), integer("substep", 0), integer("timestep", 0)]
    );
    assert_eq!(
        entries(&runs[0][1]),
        vec![integer("preys", 2050), integer("predators", 195), integer("run", 1), integer("substep", 1), integer("timestep", 1)]
    );
}

#[test]
fn end_to_end_with_aggregation() {
    let c = config(
        1,
        1,
        vec![emit("preys_change", 30), emit("preys_change", -10), emit("predators_change", 0)],
        prey_predator_updates(),
    );
    let runs = run_simulation(&c).unwrap();
    assert_eq!(runs[0][1].get("preys").unwrap(), Value::Integer(2020));
    assert_eq!(runs[0][1].get("predators").unwrap(), Value::Integer(200));
}

#[test]
fn trajectory_has_one_state_per_timestep_plus_initial() {
    let c = config(1, 9, vec![emit("preys_change", 1), emit("predators_change", 1)], prey_predator_updates());
    let runs = run_simulation(&c).unwrap();
    assert_eq!(runs[0].len(), 10);
    for (i, s) in runs[0].iter().enumerate() {
        assert_eq!(s.get("timestep").unwrap(), Value::Integer(i as i64));
        assert_eq!(s.get("substep").unwrap(), Value::Integer(if i == 0 { 0 } else { 1 }));
        assert_eq!(s.get("preys").unwrap(), Value::Integer(2000 + i as i64));
        let keys: Vec<&str> = s.entries().iter().map(|(k, _)| k.as_str()).collect();
        assert_eq!(keys, vec!["preys", "predators", "run", "substep", "timestep"]);
    }
}

#[test]
fn zero_timesteps_gives_initial_state_only() {
    let c = config(1, 0, vec![emit("preys_change", 1), emit("predators_change", 1)], prey_predator_updates());
    let runs = run_simulation(&c).unwrap();
    assert_eq!(runs[0].len(), 1);
    assert_eq!(runs[0][0].get("timestep").unwrap(), Value::Integer(0));
}

#[test]
fn zero_runs_gives_no_trajectory() {
    let c = config(0, 5, vec![emit("preys_change", 1), emit("predators_change", 1)], prey_predator_updates());
    assert_eq!(run_simulation(&c).unwrap().len(), 0);
}

#[test]
fn runs_are_numbered_from_one() {
    let c = config(3, 2, vec![emit("preys_change", 1), emit("predators_change", 1)], prey_predator_updates());
    let runs = run_simulation(&c).unwrap();
    assert_eq!(runs.len(), 3);
    for (i, t) in runs.iter().enumerate() {
        for s in t {
            assert_eq!(s.get("run").unwrap(), Value::Integer(i as i64 + 1));
        }
        assert_eq!(t[2].get("preys").unwrap(), Value::Integer(2002));
    }
}

#[test]
fn deterministic_model_runs_identically_twice() {
    let c = config(2, 5, vec![emit("preys_change", 13), emit("predators_change", -2)], prey_predator_updates());
    let first = run_simulation(&c).unwrap();
    let second = run_simulation(&c).unwrap();
    assert_eq!(first.len(), second.len());
    for (t1, t2) in first.iter().zip(second.iter()) {
        assert_eq!(t1.len(), t2.len());
        for (s1, s2) in t1.iter().zip(t2.iter()) {
            assert_eq!(entries(s1), entries(s2));
        }
    }
}

fn expect_config_fault(c: &cadCADConfig<PolicyFn, UpdateFn>, expected_key: &str) {
    match run_simulation(c) {
        Err(RunError::Config(SimError::UnclaimedOrDoubleClaimedKey { key })) => assert_eq!(key, expected_key),
        _ => panic!("expected a key partition fault"),
    }
}

#[test]
fn unclaimed_state_key_faults_before_running() {
    let c = config(1, 3, vec![emit("preys_change", 1)], vec![registration("preys", update_prey)]);
    expect_config_fault(&c, "predators");
}

#[test]
fn double_claimed_key_faults_before_running() {
    let mut updates = prey_predator_updates();
    updates.push(registration("preys", update_prey));
    let c = config(1, 3, vec![emit("preys_change", 1), emit("predators_change", 1)], updates);
    expect_config_fault(&c, "preys");
}

#[test]
fn claim_of_unknown_or_reserved_key_faults() {
    let mut updates = prey_predator_updates();
    updates.push(registration("wolves", update_prey));
    let c = config(1, 3, vec![], updates);
    expect_config_fault(&c, "wolves");
    let mut updates = prey_predator_updates();
    updates.push(registration("timestep", update_prey));
    let c = config(1, 3, vec![], updates);
    expect_config_fault(&c, "timestep");
}

#[test]
fn partition_check_accepts_exact_claims() {
    assert!(check_key_partition(&init_state(), &prey_predator_updates()).is_ok());
}

#[test]
fn wrong_update_key_is_a_key_mismatch() {
    let updates = vec![registration("preys", update_prey), registration("predators", update_prey)];
    let c = config(1, 3, vec![emit("preys_change", 1), emit("predators_change", 1)], updates);
    match run_simulation(&c) {
        Err(RunError::Step { run: 0, timestep: 0, error: SimError::KeyMismatch { expected, found } }) => {
            assert_eq!(expected, "predators");
            assert_eq!(found, "preys");
        }
        _ => panic!("expected a key mismatch"),
    }
}

#[test]
fn missing_signal_fails_the_timestep() {
    let c = config(2, 3, vec![emit("preys_change", 1)], prey_predator_updates());
    match run_simulation(&c) {
        Err(RunError::Step { run: 0, timestep: 0, error: SimError::MissingKey { key } }) => {
            assert_eq!(key, "predators_change")
        }
        _ => panic!("expected a missing signal"),
    }
}

#[test]
fn failing_policy_fails_the_run_at_its_timestep() {
    let failing: PolicyFn = Box::new(|s: &State| {
        if s.get("timestep")? == Value::Integer(2) {
            Err(SimError::MissingKey { key: "weather".to_string() })
        } else {
            Ok(vec![])
        }
    });
    let c = config(1, 5, vec![emit("preys_change", 1), emit("predators_change", 1), failing], prey_predator_updates());
    match run_simulation(&c) {
        Err(RunError::Step { run: 0, timestep: 2, error: SimError::MissingKey { key } }) => assert_eq!(key, "weather"),
        _ => panic!("expected the policy's fault"),
    }
}

#[test]
fn mismatched_signals_fail_the_timestep() {
    let composite: PolicyFn =
        Box::new(|_s: &State| Ok(vec![Signal { key: "preys_change".to_string(), value: Value::Composite(Foo { count: 1 }) }]));
    let c = config(1, 2, vec![emit("preys_change", 1), composite, emit("predators_change", 1)], prey_predator_updates());
    match run_simulation(&c) {
        Err(RunError::Step { run: 0, timestep: 0, error: SimError::Combine { key, .. } }) => assert_eq!(key, "preys_change"),
        _ => panic!("expected a combination fault"),
    }
}

#[test]
fn random_policies_stay_in_their_ranges() {
    let s = init_state();
    let mut seen = std::collections::BTreeSet::new();
    for _ in 0..200 {
        let p = prey_policy(&s).unwrap();
        assert_eq!(p.len(), 1);
        assert_eq!(p[0].key, "preys_change");
        match p[0].value {
            Value::Integer(n) => {
                assert!((-100..100).contains(&n));
                seen.insert(n);
            }
            _ => panic!("expected an integer"),
        }
        let q = predator_policy(&s).unwrap();
        assert_eq!(q[0].key, "predators_change");
        match q[0].value {
            Value::Integer(n) => assert!((-10..10).contains(&n)),
            _ => panic!("expected an integer"),
        }
        let r = predator_pandemic(&s).unwrap();
        match r[0].value {
            Value::Integer(n) => assert!((-1000..-50).contains(&n)),
            _ => panic!("expected an integer"),
        }
        let f = foo_change_normal_conditions(&s).unwrap();
        assert_eq!(f[0].key, "foo_change");
        match f[0].value {
            Value::Composite(Foo { count }) => assert!((-10..10).contains(&count)),
            _ => panic!("expected a composite"),
        }
    }
    assert!(seen.len() > 1);
}

#[test]
fn random_prey_predator_model_runs() {
    let policies: Vec<PolicyFn> = vec![Box::new(prey_policy) as PolicyFn, Box::new(predator_policy), Box::new(predator_pandemic)];
    let mut c = config(1, 9, policies, prey_predator_updates());
    c.sim_config = sim_config();
    let runs = run_simulation(&c).unwrap();
    assert_eq!(runs[0].len(), 10);
    for w in runs[0].windows(2) {
        let (a, b) = match (w[0].get("preys").unwrap(), w[1].get("preys").unwrap()) {
            (Value::Integer(a), Value::Integer(b)) => (a, b),
            _ => panic!("expected integers"),
        };
        assert!(b - a >= -100 && b - a < 100);
    }
}

#[test]
fn composite_model_runs() {
    let policies: Vec<PolicyFn> =
        vec![emit("preys_change", 5), emit("predators_change", 1), Box::new(foo_change_normal_conditions) as PolicyFn];
    let mut updates = prey_predator_updates();
    updates.push(registration("foo", update_foo));
    let mut c = config(1, 4, policies, updates);
    c.init_state = init_state_with_foo();
    let runs = run_simulation(&c).unwrap();
    assert_eq!(runs[0][4].get("preys").unwrap(), Value::Integer(2020));
    match runs[0][4].get("foo").unwrap() {
        Value::Composite(Foo { count }) => assert!(count > 500 - 41 && count < 500 + 40),
        _ => panic!("expected a composite"),
    }
}

#[test]
fn apply_change_reports_missing_keys_and_mismatch() {
    let s = init_state();
    let mut g = State::new();
    g.set("preys_change".to_string(), Value::Integer(-2000));
    let u = update_prey(&s, &g).unwrap();
    assert_eq!(u.key, "preys");
    assert_eq!(u.value, Value::Integer(0));
    match update_predator(&s, &g) {
        Err(SimError::MissingKey { key }) => assert_eq!(key, "predators_change"),
        _ => panic!("expected a missing signal"),
    }
    match apply_change(&s, &g, "wolves", "preys_change") {
        Err(SimError::MissingKey { key }) => assert_eq!(key, "wolves"),
        _ => panic!("expected a missing state key"),
    }
    g.set("foo_change".to_string(), Value::Composite(Foo { count: 1 }));
    match apply_change(&s, &g, "preys", "foo_change") {
        Err(SimError::Combine { key, .. }) => assert_eq!(key, "preys"),
        _ => panic!("expected a combination fault"),
    }
}

#[test]
fn initial_states_of_the_model() {
    assert_eq!(entries(&init_state()), vec![integer("preys", 2000), integer("predators", 200)]);
    let with_foo = init_state_with_foo();
    assert_eq!(with_foo.get("foo").unwrap(), Value::Composite(Foo { count: 500 }));
    assert_eq!(sim_config(), SimConfig { n_run: 1, timesteps: 9 });
}

#[test]
fn single_signal_carries_the_drawn_change() {
    let v = single_signal("preys_change", Value::Integer(-37));
    assert_eq!(v.len(), 1);
    assert_eq!(v[0].key, "preys_change");
    assert_eq!(v[0].value, Value::Integer(-37));
    let f = single_signal("foo_change", Value::Composite(Foo { count: 4 }));
    assert_eq!(f[0].key, "foo_change");
    assert_eq!(f[0].value, Value::Composite(Foo { count: 4 }));
}

#[test]
fn model_without_callbacks_runs() {
    let c = cadCADConfig::<PolicyFn, UpdateFn> {
        name: "empty".to_string(),
        sim_config: SimConfig { n_run: 2, timesteps: 3 },
        init_state: State::new(),
        policies: vec![],
        state_key_and_update_fn_s: vec![],
        print_trajectory: false,
    };
    let runs = run_simulation(&c).unwrap();
    assert_eq!(runs.len(), 2);
    assert_eq!(
        entries(&runs[1][3]),
        vec![integer("run", 2), integer("substep", 1), integer("timestep", 3)]
    );
}
