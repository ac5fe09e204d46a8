use cadcad_rs::exports::{add, sum_of_even};
use cadcad_rs::{aggregate_signals, Foo, SimError, Signal, State, Value, ValueError, ValueKind};

fn signal(key: &str, value: Value) -> Signal {
    Signal { key: key.to_string(), value }
}

#[test]
fn combine_adds_integers() {
    assert_eq!(Value::Integer(2000).combine(&Value::Integer(50)), Ok(Value::Integer(2050)));
    assert_eq!(Value::Integer(200).combine(&Value::Integer(-5)), Ok(Value::Integer(195)));
}

#[test]
fn combine_adds_composites_field_wise() {
    let a = Value::Composite(Foo { count: 500 });
    let b = Value::Composite(Foo { count: -7 });
    assert_eq!(a.combine(&b), Ok(Value::Composite(Foo { count: 493 })));
}

#[test]
fn combine_faults_on_mismatched_variants() {
    let i = Value::Integer(1);
    let c = Value::Composite(Foo { count: 1 });
    assert_eq!(
        i.combine(&c),
        Err(ValueError::TypeMismatch { left: ValueKind::Integer, right: ValueKind::Composite })
    );
    assert_eq!(
        c.combine(&i),
        Err(ValueError::TypeMismatch { left: ValueKind::Composite, right: ValueKind::Integer })
    );
}

#[test]
fn combine_faults_on_overflow() {
    assert_eq!(
        Value::Integer(i64::MAX).combine(&Value::Integer(1)),
        Err(ValueError::Overflow { kind: ValueKind::Integer })
    );
    assert_eq!(
        Value::Composite(Foo { count: i64::MIN }).combine(&Value::Composite(Foo { count: -1 })),
        Err(ValueError::Overflow { kind: ValueKind::Composite })
    );
}

#[test]
fn combine_is_commutative_and_associative() {
    let a = Value::Integer(7);
    let b = Value::Integer(-3);
    let c = Value::Integer(11);
    assert_eq!(a.combine(&b), b.combine(&a));
    let left = a.combine(&b).unwrap().combine(&c).unwrap();
    let right = a.combine(&b.combine(&c).unwrap()).unwrap();
    assert_eq!(left, right);
    assert_eq!(left, Value::Integer(15));
    let x = Value::Composite(Foo { count: 4 });
    assert!(a.combine(&b).unwrap().combine(&x).is_err());
    assert!(b.combine(&x).is_err());
}

#[test]
fn state_from_pairs_keeps_order_and_lookups() {
    let s = State::from_pairs(vec![
        ("preys".to_string(), Value::Integer(2000)),
        ("predators".to_string(), Value::Integer(200)),
    ])
    .unwrap();
    assert_eq!(s.len(), 2);
    assert_eq!(s.get("preys").unwrap(), Value::Integer(2000));
    assert_eq!(s.get("predators").unwrap(), Value::Integer(200));
    assert!(s.contains_key("preys"));
    assert!(!s.contains_key("wolves"));
    assert_eq!(s.entries()[0].0, "preys");
    assert_eq!(s.entries()[1].0, "predators");
}

#[test]
fn state_from_pairs_refuses_duplicate_key() {
    let r = State::from_pairs(vec![
        ("preys".to_string(), Value::Integer(1)),
        ("predators".to_string(), Value::Integer(2)),
        ("preys".to_string(), Value::Integer(3)),
    ]);
    match r {
        Err(SimError::DuplicateKey { key }) => assert_eq!(key, "preys"),
        _ => panic!("expected a duplicate key"),
    }
}

#[test]
fn state_get_missing_key() {
    let s = State::new();
    match s.get("preys") {
        Err(SimError::MissingKey { key }) => assert_eq!(key, "preys"),
        _ => panic!("expected a missing key"),
    }
}

#[test]
fn state_set_overwrites_in_place_and_clone_is_independent() {
    let mut s = State::new();
    s.set("a".to_string(), Value::Integer(1));
    s.set("b".to_string(), Value::Integer(2));
    let before = s.clone();
    s.set("a".to_string(), Value::Integer(10));
    assert_eq!(
        s.entries(),
        &vec![("a".to_string(), Value::Integer(10)), ("b".to_string(), Value::Integer(2))]
    );
    assert_eq!(before.get("a").unwrap(), Value::Integer(1));
}

#[test]
fn aggregation_sums_same_key_signals() {
    let emitted = vec![signal("preys_change", Value::Integer(30)), signal("preys_change", Value::Integer(-10))];
    let signals = aggregate_signals(&emitted).unwrap();
    assert_eq!(signals.entries(), &vec![("preys_change".to_string(), Value::Integer(20))]);
}

#[test]
fn aggregation_is_order_independent() {
    let a = vec![signal("preys_change", Value::Integer(30)), signal("predators_change", Value::Integer(4))];
    let b = vec![signal("predators_change", Value::Integer(-9)), signal("preys_change", Value::Integer(-10))];
    let ab: Vec<Signal> = a.iter().chain(b.iter()).cloned().collect();
    let ba: Vec<Signal> = b.iter().chain(a.iter()).cloned().collect();
    let x = aggregate_signals(&ab).unwrap();
    let y = aggregate_signals(&ba).unwrap();
    for key in ["preys_change", "predators_change"] {
        assert_eq!(x.get(key).unwrap(), y.get(key).unwrap());
    }
    assert_eq!(x.get("preys_change").unwrap(), Value::Integer(20));
    assert_eq!(x.get("predators_change").unwrap(), Value::Integer(-5));
    assert_eq!(x.len(), 2);
    assert_eq!(y.len(), 2);
}

#[test]
fn aggregation_names_key_of_mismatch() {
    let emitted = vec![
        signal("other", Value::Integer(1)),
        signal("foo_change", Value::Integer(3)),
        signal("foo_change", Value::Composite(Foo { count: 1 })),
    ];
    match aggregate_signals(&emitted) {
        Err(SimError::Combine { key, error }) => {
            assert_eq!(key, "foo_change");
            assert_eq!(
                error,
                ValueError::TypeMismatch { left: ValueKind::Integer, right: ValueKind::Composite }
            );
        }
        _ => panic!("expected a combination fault"),
    }
}

#[test]
fn aggregation_of_nothing_is_empty() {
    let signals = aggregate_signals(&Vec::new()).unwrap();
    assert_eq!(signals.len(), 0);
}

#[test]
fn add_sums_two_integers() {
    assert_eq!(add(2, 3), 5);
    assert_eq!(add(-7, 7), 0);
}

#[test]
fn sum_of_even_skips_odd_numbers() {
    assert_eq!(sum_of_even(&[1, 2, 3, 4, 5, 6]), 12);
    assert_eq!(sum_of_even(&[]), 0);
    assert_eq!(sum_of_even(&[7, 9]), 0);
}
