//! States: ordered mappings from variable name to value, each key at most once.

use vstd::prelude::*;
use crate::error::SimError;
use crate::value::Value;

verus! {

/// What a keyed collection of values is: its (key, value) pairs in order.
pub type Bindings = Seq<(Seq<char>, Value)>;

/// The abstract view of stored pairs.
pub open spec fn pairs_view(p: Seq<(String, Value)>) -> Bindings {
    p.map_values(|e: (String, Value)| (e.0@, e.1))
}

pub open spec fn keys_distinct(b: Bindings) -> bool {
    forall|i: int, j: int| 0 <= i < j < b.len() ==> #[trigger] b[i].0 != #[trigger] b[j].0
}

pub open spec fn has_key(b: Bindings, k: Seq<char>) -> bool {
    exists|i: int| 0 <= i < b.len() && #[trigger] b[i].0 == k
}

/// The position of `k` in `b`, where it occurs.
pub open spec fn index_of(b: Bindings, k: Seq<char>) -> int {
    choose|i: int| 0 <= i < b.len() && #[trigger] b[i].0 == k
}

pub open spec fn lookup(b: Bindings, k: Seq<char>) -> Option<Value> {
    if has_key(b, k) {
        Some(b[index_of(b, k)].1)
    } else {
        None
    }
}

/// `b` with `k` bound to `v`: in place where `k` is present, else appended.
pub open spec fn bind(b: Bindings, k: Seq<char>, v: Value) -> Bindings {
    if has_key(b, k) {
        b.update(index_of(b, k), (k, v))
    } else {
        b.push((k, v))
    }
}

/// The bindings as a finite map from key to value.
pub open spec fn as_map(b: Bindings) -> Map<Seq<char>, Value> {
    Map::new(|k: Seq<char>| has_key(b, k), |k: Seq<char>| lookup(b, k)->Some_0)
}

/// In bindings with distinct keys, a key found at `i` is the key's position.
pub proof fn lemma_index_of_unique(b: Bindings, i: int)
    requires
        keys_distinct(b),
        0 <= i < b.len(),
    ensures
        has_key(b, b[i].0),
        index_of(b, b[i].0) == i,
        lookup(b, b[i].0) == Some(b[i].1),
{
    let k = b[i].0;
    assert(has_key(b, k));
    let j = index_of(b, k);
    if j < i {
        assert(b[j].0 != b[i].0);
    } else if i < j {
        assert(b[i].0 != b[j].0);
    }
}

/// Binding a key adds that key and keeps the others.
pub proof fn lemma_bind_keys(b: Bindings, k: Seq<char>, v: Value, k2: Seq<char>)
    ensures
        has_key(bind(b, k, v), k2) <==> (has_key(b, k2) || k2 == k),
{
    let r = bind(b, k, v);
    if has_key(b, k) {
        let j = index_of(b, k);
        if has_key(b, k2) {
            let i = index_of(b, k2);
            assert(r[i].0 == k2);
        }
        if k2 == k {
            assert(r[j].0 == k2);
        }
        if has_key(r, k2) {
            let i = index_of(r, k2);
            if i != j {
                assert(b[i].0 == k2);
            }
        }
    } else {
        if has_key(b, k2) {
            let i = index_of(b, k2);
            assert(r[i].0 == k2);
        }
        if k2 == k {
            assert(r[b.len() as int].0 == k2);
        }
        if has_key(r, k2) {
            let i = index_of(r, k2);
            if i < b.len() {
                assert(b[i].0 == k2);
            }
        }
    }
}

/// Binding a key keeps the keys distinct and makes the key map to the value.
pub proof fn lemma_bind(b: Bindings, k: Seq<char>, v: Value)
    requires
        keys_distinct(b),
    ensures
        keys_distinct(bind(b, k, v)),
        lookup(bind(b, k, v), k) == Some(v),
        forall|k2: Seq<char>| k2 != k ==> lookup(#[trigger] bind(b, k, v), k2) == lookup(b, k2),
        forall|k2: Seq<char>| has_key(bind(b, k, v), k2) <==> (has_key(b, k2) || k2 == k),
        bind(b, k, v).len() == if has_key(b, k) { b.len() } else { b.len() + 1 },
{
    let r = bind(b, k, v);
    assert forall|k2: Seq<char>| has_key(r, k2) <==> (has_key(b, k2) || k2 == k) by {
        lemma_bind_keys(b, k, v, k2);
    }
    if has_key(b, k) {
        let j = index_of(b, k);
        assert forall|x: int, y: int| 0 <= x < y < r.len() implies #[trigger] r[x].0 != #[trigger] r[y].0 by {
            if x != j && y != j {
                assert(b[x].0 != b[y].0);
            } else if x == j {
                assert(b[j].0 != b[y].0);
            } else {
                assert(b[x].0 != b[j].0);
            }
        }
        lemma_index_of_unique(r, j);
        assert forall|k2: Seq<char>| k2 != k implies lookup(#[trigger] bind(b, k, v), k2) == lookup(b, k2) by {
            if has_key(b, k2) {
                let i = index_of(b, k2);
                assert(i != j);
                assert(r[i] == b[i]);
                lemma_index_of_unique(b, i);
                lemma_index_of_unique(r, i);
            }
        }
    } else {
        assert forall|x: int, y: int| 0 <= x < y < r.len() implies #[trigger] r[x].0 != #[trigger] r[y].0 by {
            if y == b.len() {
                assert(b[x].0 != k);
            } else {
                assert(b[x].0 != b[y].0);
            }
        }
        lemma_index_of_unique(r, b.len() as int);
        assert forall|k2: Seq<char>| k2 != k implies lookup(#[trigger] bind(b, k, v), k2) == lookup(b, k2) by {
            if has_key(b, k2) {
                let i = index_of(b, k2);
                assert(r[i] == b[i]);
                lemma_index_of_unique(b, i);
                lemma_index_of_unique(r, i);
            }
        }
    }
}

/// Where binding a key leaves the keys distinct, the key maps to the value.
pub proof fn lemma_lookup_bound(b: Bindings, k: Seq<char>, v: Value)
    requires
        keys_distinct(bind(b, k, v)),
    ensures
        lookup(bind(b, k, v), k) == Some(v),
{
    let r = bind(b, k, v);
    if has_key(b, k) {
        lemma_index_of_unique(r, index_of(b, k));
    } else {
        lemma_index_of_unique(r, b.len() as int);
    }
}

/// An ordered mapping from variable name to value, with each key at most
/// once. Also used for the aggregated signals of a timestep.
#[derive(Debug)]
pub struct State {
    entries: Vec<(String, Value)>,
}

impl View for State {
    type V = Bindings;

    closed spec fn view(&self) -> Bindings {
        pairs_view(self.entries@)
    }
}

impl State {
    #[verifier::type_invariant]
    closed spec fn keys_unique(self) -> bool {
        keys_distinct(self@)
    }

    pub fn new() -> (r: State)
        ensures
            r@ == Seq::<(Seq<char>, Value)>::empty(),
    {
        let r = State { entries: Vec::new() };
        assert(r@ =~= Seq::<(Seq<char>, Value)>::empty());
        r
    }

    pub fn len(&self) -> (r: usize)
        ensures
            r == self@.len(),
    {
        self.entries.len()
    }

    /// The pairs in order.
    pub fn entries(&self) -> (r: &Vec<(String, Value)>)
        ensures
            pairs_view(r@) == self@,
    {
        &self.entries
    }

    /// The position of `key`, or `None` where it is absent.
    fn position(&self, key: &String) -> (r: Option<usize>)
        ensures
            r is None <==> !has_key(self@, key@),
            r is Some ==> r->Some_0 == index_of(self@, key@),
    {
        proof {
            use_type_invariant(self);
        }
        let mut i: usize = 0;
        while i < self.entries.len()
            invariant
                0 <= i <= self.entries.len(),
                pairs_view(self.entries@) == self@,
                keys_distinct(self@),
                forall|j: int| 0 <= j < i ==> #[trigger] self@[j].0 != key@,
            decreases self.entries.len() - i,
        {
            if self.entries[i].0 == *key {
                proof {
                    lemma_index_of_unique(self@, i as int);
                }
                return Some(i);
            }
            i = i + 1;
        }
        None
    }

    pub fn contains_key(&self, key: &str) -> (r: bool)
        ensures
            r == has_key(self@, key@),
    {
        let k = key.to_owned();
        self.position(&k).is_some()
    }

    /// The value bound to `key`; `MissingKey` where it is absent.
    pub fn get(&self, key: &str) -> (r: Result<Value, SimError>)
        ensures
            has_key(self@, key@) ==> r == Ok::<Value, SimError>(lookup(self@, key@)->Some_0),
            !has_key(self@, key@) ==> (r matches Err(SimError::MissingKey { key: k }) && k@ == key@),
    {
        let k = key.to_owned();
        match self.position(&k) {
            Some(i) => Ok(self.entries[i].1),
            None => Err(SimError::MissingKey { key: k }),
        }
    }

    /// Binds `key` to `value`: in place where present, else at the end.
    pub fn set(&mut self, key: String, value: Value)
        ensures
            final(self)@ == bind(old(self)@, key@, value),
            keys_distinct(final(self)@),
    {
        proof {
            use_type_invariant(&*self);
            lemma_bind(self@, key@, value);
        }
        let pos = self.position(&key);
        let ghost k = key@;
        let mut taken = State::new();
        core::mem::swap(self, &mut taken);
        let mut entries = taken.entries;
        match pos {
            Some(i) => {
                entries.set(i, (key, value));
            },
            None => {
                entries.push((key, value));
            },
        }
        assert(pairs_view(entries@) =~= bind(old(self)@, k, value));
        *self = State { entries };
    }

    /// A state of the given pairs, in order; `DuplicateKey` where a key is
    /// given twice.
    pub fn from_pairs(pairs: Vec<(String, Value)>) -> (r: Result<State, SimError>)
        ensures
            keys_distinct(pairs_view(pairs@)) <==> r is Ok,
            r is Ok ==> r->Ok_0@ == pairs_view(pairs@),
            r matches Err(SimError::DuplicateKey { key: k }) ==> exists|i: int, j: int|
                0 <= i < j < pairs@.len() && #[trigger] pairs_view(pairs@)[i].0 == k@
                    && #[trigger] pairs_view(pairs@)[j].0 == k@,
            r is Err ==> r matches Err(SimError::DuplicateKey { .. }),
    {
        let mut s = State::new();
        let ghost all = pairs_view(pairs@);
        let n = pairs.len();
        let mut i: usize = 0;
        while i < n
            invariant
                0 <= i <= n,
                n == all.len(),
                all == pairs_view(pairs@),
                s@ == all.subrange(0, i as int),
                keys_distinct(all.subrange(0, i as int)),
            decreases n - i,
        {
            let key = pairs[i].0.clone();
            let value = pairs[i].1;
            if s.contains_key(key.as_str()) {
                proof {
                    let prefix = all.subrange(0, i as int);
                    let p = index_of(prefix, key@);
                    assert(prefix[p].0 == key@);
                    assert(all[p].0 == key@);
                    assert(all[i as int].0 == key@);
                }
                return Err(SimError::DuplicateKey { key });
            }
            proof {
                lemma_bind(s@, key@, value);
            }
            s.set(key, value);
            i = i + 1;
            proof {
                assert(s@ =~= all.subrange(0, i as int));
            }
        }
        assert(all.subrange(0, n as int) =~= all);
        Ok(s)
    }
}

impl Clone for State {
    /// An independent state with the same pairs.
    fn clone(&self) -> (r: State)
        ensures
            r@ == self@,
            keys_distinct(r@),
    {
        proof {
            use_type_invariant(self);
        }
        let mut entries: Vec<(String, Value)> = Vec::new();
        let mut i: usize = 0;
        while i < self.entries.len()
            invariant
                0 <= i <= self.entries.len(),
                pairs_view(self.entries@) == self@,
                keys_distinct(self@),
                pairs_view(entries@) == self@.subrange(0, i as int),
            decreases self.entries.len() - i,
        {
            let key = self.entries[i].0.clone();
            let ghost prev = entries@;
            entries.push((key, self.entries[i].1));
            proof {
                assert(entries@ == prev.push(self.entries@[i as int]));
                assert(pairs_view(entries@) =~= pairs_view(prev).push(self@[i as int]));
            }
            i = i + 1;
            proof {
                assert(pairs_view(entries@) =~= self@.subrange(0, i as int));
            }
        }
        assert(self@.len() == self.entries@.len());
        assert(self@.subrange(0, i as int) =~= self@);
        State { entries }
    }
}

} // verus!
