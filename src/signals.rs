//! Signals emitted by policies, and their aggregation per key.

use vstd::prelude::*;
use crate::error::SimError;
use crate::state::{as_map, bind, has_key, index_of, keys_distinct, lemma_bind, lookup, Bindings, State};
use crate::value::{Value, ValueError};

verus! {

/// A keyed proposed change, emitted by a policy within one timestep.
#[derive(Clone, Debug)]
pub struct Signal {
    pub key: String,
    pub value: Value,
}

/// The aggregated signals of one timestep: a key bound to the combination
/// of every signal emitted for it.
pub type Signals = State;

pub open spec fn signals_view(s: Seq<Signal>) -> Bindings {
    s.map_values(|e: Signal| (e.key@, e.value))
}

/// Folds one signal into aggregated signals: a new key is inserted, a
/// present key is combined with it.
pub open spec fn absorb(acc: Bindings, k: Seq<char>, v: Value) -> Result<Bindings, (Seq<char>, ValueError)> {
    match lookup(acc, k) {
        None => Ok(bind(acc, k, v)),
        Some(old) => match old.spec_combine(v) {
            Ok(nv) => Ok(bind(acc, k, nv)),
            Err(e) => Err((k, e)),
        },
    }
}

/// The aggregation of signals, folded front to back; an error names the
/// key whose values could not be combined.
pub open spec fn aggregate(sigs: Bindings) -> Result<Bindings, (Seq<char>, ValueError)>
    decreases sigs.len(),
{
    if sigs.len() == 0 {
        Ok(Seq::empty())
    } else {
        match aggregate(sigs.drop_last()) {
            Ok(acc) => absorb(acc, sigs.last().0, sigs.last().1),
            Err(e) => Err(e),
        }
    }
}

/// The sum of the numbers that the signals for `k` carry.
pub open spec fn total(sigs: Bindings, k: Seq<char>) -> int
    decreases sigs.len(),
{
    if sigs.len() == 0 {
        0
    } else {
        total(sigs.drop_last(), k) + if sigs.last().0 == k {
            sigs.last().1.number()
        } else {
            0
        }
    }
}

/// Aggregates the signals of one timestep, in order: the first signal for a
/// key inserts it, each later one is combined into it.
pub fn aggregate_signals(emitted: &Vec<Signal>) -> (r: Result<Signals, SimError>)
    ensures
        r is Ok <==> aggregate(signals_view(emitted@)) is Ok,
        r is Ok ==> r->Ok_0@ == aggregate(signals_view(emitted@))->Ok_0,
        r is Err ==> (r matches Err(SimError::Combine { key, error }) && aggregate(
            signals_view(emitted@),
        ) == Err::<Bindings, (Seq<char>, ValueError)>((key@, error))),
{
    let ghost all = signals_view(emitted@);
    let mut acc = State::new();
    let mut i: usize = 0;
    while i < emitted.len()
        invariant
            0 <= i <= emitted.len(),
            all == signals_view(emitted@),
            aggregate(all.subrange(0, i as int)) == Ok::<Bindings, (Seq<char>, ValueError)>(acc@),
        decreases emitted.len() - i,
    {
        let key = emitted[i].key.clone();
        let value = emitted[i].value;
        proof {
            let next = all.subrange(0, i + 1);
            assert(next.drop_last() =~= all.subrange(0, i as int));
            assert(next.last() == (key@, value));
        }
        match acc.get(key.as_str()) {
            Ok(old) => match old.combine(&value) {
                Ok(nv) => {
                    acc.set(key, nv);
                },
                Err(error) => {
                    proof {
                        lemma_aggregate_error_persists(all, i + 1);
                    }
                    return Err(SimError::Combine { key, error });
                },
            },
            Err(_) => {
                acc.set(key, value);
            },
        }
        i = i + 1;
    }
    assert(all.subrange(0, i as int) =~= all);
    Ok(acc)
}

/// Once a prefix fails to aggregate, the whole sequence fails the same way.
proof fn lemma_aggregate_error_persists(sigs: Bindings, n: int)
    requires
        0 <= n <= sigs.len(),
        aggregate(sigs.subrange(0, n)) is Err,
    ensures
        aggregate(sigs) == aggregate(sigs.subrange(0, n)),
    decreases sigs.len() - n,
{
    if n < sigs.len() {
        let next = sigs.subrange(0, n + 1);
        assert(next.drop_last() =~= sigs.subrange(0, n));
        lemma_aggregate_error_persists(sigs, n + 1);
    } else {
        assert(sigs.subrange(0, n) =~= sigs);
    }
}

pub proof fn lemma_has_key_last(s: Bindings, k: Seq<char>)
    requires
        s.len() > 0,
    ensures
        has_key(s, k) <==> (has_key(s.drop_last(), k) || s.last().0 == k),
{
    let p = s.drop_last();
    if has_key(s, k) {
        let i = index_of(s, k);
        if i < p.len() {
            assert(p[i].0 == k);
        }
    }
    if has_key(p, k) {
        let i = index_of(p, k);
        assert(s[i].0 == k);
    }
    if s.last().0 == k {
        assert(s[s.len() - 1].0 == k);
    }
}

proof fn lemma_total_absent(s: Bindings, k: Seq<char>)
    requires
        !has_key(s, k),
    ensures
        total(s, k) == 0,
    decreases s.len(),
{
    if s.len() > 0 {
        lemma_has_key_last(s, k);
        lemma_total_absent(s.drop_last(), k);
    }
}

/// What a successful aggregation holds: each key of the signals once, bound
/// to a value of the variant of every signal for that key, carrying their sum.
pub proof fn lemma_aggregate_shape(sigs: Bindings)
    requires
        aggregate(sigs) is Ok,
    ensures
        ({
            let acc = aggregate(sigs)->Ok_0;
            &&& keys_distinct(acc)
            &&& forall|k: Seq<char>| has_key(acc, k) <==> has_key(sigs, k)
            &&& forall|k: Seq<char>| #[trigger] has_key(acc, k) ==> lookup(acc, k)->Some_0.number() == total(sigs, k)
            &&& forall|i: int| 0 <= i < sigs.len() ==> (#[trigger] sigs[i]).1.kind() == lookup(acc, sigs[i].0)->Some_0.kind()
        }),
    decreases sigs.len(),
{
    if sigs.len() == 0 {
        let acc = aggregate(sigs)->Ok_0;
        assert(acc.len() == 0);
    } else {
        let p = sigs.drop_last();
        let (k0, v0) = sigs.last();
        lemma_aggregate_shape(p);
        let prev = aggregate(p)->Ok_0;
        let acc = aggregate(sigs)->Ok_0;
        let nv = match lookup(prev, k0) {
            None => v0,
            Some(old) => old.spec_combine(v0)->Ok_0,
        };
        assert(acc == bind(prev, k0, nv));
        lemma_bind(prev, k0, nv);
        if lookup(prev, k0) is None {
            lemma_total_absent(p, k0);
        }
        assert forall|k: Seq<char>| has_key(acc, k) <==> has_key(sigs, k) by {
            lemma_has_key_last(sigs, k);
        }
        assert forall|k: Seq<char>| #[trigger] has_key(acc, k) implies lookup(acc, k)->Some_0.number() == total(sigs, k) by {
            lemma_has_key_last(sigs, k);
        }
        assert forall|i: int| 0 <= i < sigs.len() implies (#[trigger] sigs[i]).1.kind() == lookup(acc, sigs[i].0)->Some_0.kind() by {
            if i < p.len() {
                assert(sigs[i] == p[i]);
                if p[i].0 == k0 {
                    assert(has_key(prev, k0)) by {
                        assert(has_key(p, k0)) by {
                            assert(p[i].0 == k0);
                        }
                    }
                }
            }
        }
    }
}

proof fn lemma_total_concat(a: Bindings, b: Bindings, k: Seq<char>)
    ensures
        total(a + b, k) == total(a, k) + total(b, k),
    decreases b.len(),
{
    if b.len() == 0 {
        assert(a + b =~= a);
    } else {
        assert((a + b).drop_last() =~= a + b.drop_last());
        lemma_total_concat(a, b.drop_last(), k);
    }
}

proof fn lemma_has_key_concat(a: Bindings, b: Bindings, k: Seq<char>)
    ensures
        has_key(a + b, k) <==> (has_key(a, k) || has_key(b, k)),
{
    let ab = a + b;
    if has_key(ab, k) {
        let i = index_of(ab, k);
        if i < a.len() {
            assert(a[i].0 == k);
        } else {
            assert(b[i - a.len()].0 == k);
        }
    }
    if has_key(a, k) {
        let i = index_of(a, k);
        assert(ab[i].0 == k);
    }
    if has_key(b, k) {
        let i = index_of(b, k);
        assert(ab[i + a.len()].0 == k);
    }
}

/// Aggregation does not depend on the order in which two policies are
/// evaluated: where the signals `a` of one policy followed by the signals
/// `b` of another aggregate, and so does the other order, both bind the
/// same keys to the same values.
pub proof fn lemma_aggregation_order_independent(a: Bindings, b: Bindings)
    requires
        aggregate(a + b) is Ok,
        aggregate(b + a) is Ok,
    ensures
        as_map(aggregate(a + b)->Ok_0) == as_map(aggregate(b + a)->Ok_0),
{
    let ab = a + b;
    let ba = b + a;
    let x = aggregate(ab)->Ok_0;
    let y = aggregate(ba)->Ok_0;
    lemma_aggregate_shape(ab);
    lemma_aggregate_shape(ba);
    assert forall|k: Seq<char>| has_key(x, k) <==> has_key(y, k) by {
        lemma_has_key_concat(a, b, k);
        lemma_has_key_concat(b, a, k);
    }
    assert forall|k: Seq<char>| has_key(x, k) implies lookup(x, k) == lookup(y, k) by {
        lemma_has_key_concat(a, b, k);
        lemma_total_concat(a, b, k);
        lemma_total_concat(b, a, k);
        let i = index_of(ab, k);
        let j: int = if i < a.len() { i + b.len() } else { i - a.len() };
        assert(ba[j] == ab[i]);
        let vx = lookup(x, k)->Some_0;
        let vy = lookup(y, k)->Some_0;
        assert(vx == Value::of_kind(vx.kind(), vx.number() as i64));
        assert(vy == Value::of_kind(vy.kind(), vy.number() as i64));
    }
    assert(as_map(x) =~= as_map(y));
}

} // verus!
