//! A small map that keeps its entries in a vector and finds them by a linear
//! search. Its model is a finite `Map`.

use vstd::prelude::*;

verus! {

/// A key of a [`VecMap`]: a plain value with a decidable equality.
pub trait MapKey: Copy {
    /// Whether the two keys are equal.
    fn same_key(&self, other: &Self) -> (b: bool)
        ensures
            b == (*self == *other),
    ;
}

/// The map that sends each key of `keys` to the value at the same position
/// of `vals`.
pub open spec fn seq_map<K, V>(keys: Seq<K>, vals: Seq<V>) -> Map<K, V> {
    Map::new(|k: K| keys.contains(k), |k: K| vals[keys.index_of(k)])
}

/// In a sequence of distinct keys, the key at position `i` is mapped to the
/// value at position `i`.
pub proof fn lemma_seq_map_index<K, V>(keys: Seq<K>, vals: Seq<V>, i: int)
    requires
        keys.no_duplicates(),
        keys.len() == vals.len(),
        0 <= i < keys.len(),
    ensures
        seq_map(keys, vals).contains_key(keys[i]),
        seq_map(keys, vals)[keys[i]] == vals[i],
{
    let j = keys.index_of(keys[i]);
    assert(0 <= j < keys.len() && keys[j] == keys[i]);
}

/// The domain of the map of distinct keys is finite and as large as the
/// sequence of keys.
pub proof fn lemma_seq_map_len<K, V>(keys: Seq<K>, vals: Seq<V>)
    requires
        keys.no_duplicates(),
    ensures
        seq_map(keys, vals).dom().finite(),
        seq_map(keys, vals).dom().len() == keys.len(),
{
    vstd::seq_lib::seq_to_set_is_finite(keys);
    keys.unique_seq_to_set();
    assert(seq_map(keys, vals).dom() =~= keys.to_set());
}

/// The sum of `f` over the first `n` values of a sequence.
pub open spec fn seq_sum<V>(vals: Seq<V>, f: spec_fn(V) -> nat, n: int) -> nat
    decreases n,
{
    if n <= 0 {
        0
    } else {
        seq_sum(vals, f, n - 1) + f(vals[n - 1])
    }
}

/// The sum over the map of distinct keys is the sum over the sequence of
/// values.
pub proof fn lemma_seq_map_sum<K, V>(keys: Seq<K>, vals: Seq<V>, f: spec_fn(V) -> nat)
    requires
        keys.no_duplicates(),
        keys.len() == vals.len(),
    ensures
        crate::map_sum::map_sum(seq_map(keys, vals), f) == seq_sum(vals, f, vals.len() as int),
    decreases keys.len(),
{
    let m = seq_map(keys, vals);
    lemma_seq_map_len(keys, vals);
    if keys.len() == 0 {
        assert(m =~= Map::<K, V>::empty());
        crate::map_sum::lemma_map_sum_empty::<K, V>(f);
    } else {
        let n = keys.len() - 1;
        let k = keys[n];
        let keys1 = keys.drop_last();
        let vals1 = vals.drop_last();
        lemma_seq_map_index(keys, vals, n);
        crate::map_sum::lemma_map_sum_remove(m, f, k);
        assert forall|x: K| #[trigger] seq_map(keys1, vals1).contains_key(x) implies m.remove(
            k,
        ).contains_key(x) && m.remove(k)[x] == seq_map(keys1, vals1)[x] by {
            let j = keys1.index_of(x);
            assert(keys[j] == x);
            lemma_seq_map_index(keys, vals, j);
            lemma_seq_map_index(keys1, vals1, j);
        }
        assert forall|x: K| #[trigger] m.remove(k).contains_key(x) implies seq_map(
            keys1,
            vals1,
        ).contains_key(x) by {
            let j = keys.index_of(x);
            assert(keys1[j] == x);
        }
        assert(m.remove(k) =~= seq_map(keys1, vals1));
        lemma_seq_map_sum(keys1, vals1, f);
        lemma_seq_sum_prefix(vals, vals1, f, n);
    }
}

/// The sums over the values grow with the number of values.
pub proof fn lemma_seq_sum_grows<V>(vals: Seq<V>, f: spec_fn(V) -> nat, a: int, b: int)
    requires
        a <= b,
    ensures
        seq_sum(vals, f, a) <= seq_sum(vals, f, b),
    decreases b - a,
{
    if a < b {
        lemma_seq_sum_grows(vals, f, a, b - 1);
    }
}

/// The sum over a prefix does not depend on what follows it.
pub proof fn lemma_seq_sum_prefix<V>(a: Seq<V>, b: Seq<V>, f: spec_fn(V) -> nat, n: int)
    requires
        0 <= n <= a.len(),
        n <= b.len(),
        forall|i: int| 0 <= i < n ==> a[i] == b[i],
    ensures
        seq_sum(a, f, n) == seq_sum(b, f, n),
    decreases n,
{
    if n > 0 {
        lemma_seq_sum_prefix(a, b, f, n - 1);
    }
}

/// A map from keys to values, kept as two vectors of equal length in which
/// no key occurs twice.
pub struct VecMap<K, V> {
    keys: Vec<K>,
    vals: Vec<V>,
}

impl<K: MapKey, V> View for VecMap<K, V> {
    type V = Map<K, V>;

    closed spec fn view(&self) -> Map<K, V> {
        seq_map(self.keys@, self.vals@)
    }
}

impl<K: MapKey, V> VecMap<K, V> {
    /// The keys in the order in which the map holds them.
    pub closed spec fn spec_keys(&self) -> Seq<K> {
        self.keys@
    }

    /// The values in the order in which the map holds them.
    pub closed spec fn spec_vals(&self) -> Seq<V> {
        self.vals@
    }

    /// The representation invariant: one value per key, no key twice.
    pub closed spec fn wf(&self) -> bool {
        &&& self.keys@.len() == self.vals@.len()
        &&& self.keys@.no_duplicates()
    }

    /// How the stored order relates to the model.
    pub proof fn lemma_entries(&self)
        requires
            self.wf(),
        ensures
            self.spec_keys().len() == self.spec_vals().len(),
            self.spec_keys().no_duplicates(),
            self@.dom().finite(),
            self@.len() == self.spec_keys().len(),
            forall|i: int|
                0 <= i < self.spec_keys().len() ==> self@.contains_key(
                    #[trigger] self.spec_keys()[i],
                ) && self@[self.spec_keys()[i]] == self.spec_vals()[i],
            forall|k: K| #[trigger] self@.contains_key(k) ==> self.spec_keys().contains(k),
    {
        lemma_seq_map_len(self.keys@, self.vals@);
        assert forall|i: int| 0 <= i < self.spec_keys().len() implies self@.contains_key(
            #[trigger] self.spec_keys()[i],
        ) && self@[self.spec_keys()[i]] == self.spec_vals()[i] by {
            lemma_seq_map_index(self.keys@, self.vals@, i);
        }
    }

    /// The sum over the model is the sum over the stored values.
    pub proof fn lemma_sum(&self, f: spec_fn(V) -> nat)
        requires
            self.wf(),
        ensures
            crate::map_sum::map_sum(self@, f) == seq_sum(
                self.spec_vals(),
                f,
                self.spec_vals().len() as int,
            ),
    {
        lemma_seq_map_sum(self.keys@, self.vals@, f);
    }

    /// An empty map.
    pub fn new() -> (r: Self)
        ensures
            r.wf(),
            r@ == Map::<K, V>::empty(),
    {
        let r = VecMap { keys: Vec::new(), vals: Vec::new() };
        assert(r@ =~= Map::<K, V>::empty());
        r
    }

    /// The number of entries.
    pub fn len(&self) -> (n: usize)
        requires
            self.wf(),
        ensures
            n == self@.len(),
            n == self.spec_keys().len(),
            n == self.spec_vals().len(),
            self@.dom().finite(),
    {
        proof {
            self.lemma_entries();
        }
        self.keys.len()
    }

    /// Whether the map has no entry.
    pub fn is_empty(&self) -> (b: bool)
        requires
            self.wf(),
        ensures
            b == (self@.len() == 0),
            b == (self@ == Map::<K, V>::empty()),
    {
        proof {
            self.lemma_entries();
            if self.keys@.len() == 0 {
                assert(self@ =~= Map::<K, V>::empty());
            } else {
                lemma_seq_map_index(self.keys@, self.vals@, 0);
            }
        }
        self.keys.len() == 0
    }

    /// The position of a key, if the map holds it.
    fn find(&self, k: &K) -> (r: Option<usize>)
        requires
            self.wf(),
        ensures
            match r {
                Some(i) => i < self.keys@.len() && self.keys@[i as int] == *k,
                None => !self.keys@.contains(*k),
            },
    {
        let mut i: usize = 0;
        while i < self.keys.len()
            invariant
                i <= self.keys@.len(),
                forall|j: int| 0 <= j < i ==> self.keys@[j] != *k,
            decreases self.keys@.len() - i,
        {
            if self.keys[i].same_key(k) {
                return Some(i);
            }
            i += 1;
        }
        None
    }

    /// Whether the map holds the key.
    pub fn contains_key(&self, k: &K) -> (b: bool)
        requires
            self.wf(),
        ensures
            b == self@.contains_key(*k),
    {
        self.find(k).is_some()
    }

    /// The value of a key, if the map holds it.
    pub fn get(&self, k: &K) -> (r: Option<&V>)
        requires
            self.wf(),
        ensures
            match r {
                Some(v) => self@.contains_key(*k) && *v == self@[*k],
                None => !self@.contains_key(*k),
            },
    {
        match self.find(k) {
            Some(i) => {
                proof {
                    lemma_seq_map_index(self.keys@, self.vals@, i as int);
                }
                Some(&self.vals[i])
            },
            None => None,
        }
    }

    /// The key at a position of the stored order.
    pub fn key_at(&self, i: usize) -> (k: K)
        requires
            self.wf(),
            i < self.spec_keys().len(),
        ensures
            k == self.spec_keys()[i as int],
            self@.contains_key(k),
    {
        proof {
            lemma_seq_map_index(self.keys@, self.vals@, i as int);
        }
        self.keys[i]
    }

    /// The value at a position of the stored order.
    pub fn value_at(&self, i: usize) -> (v: &V)
        requires
            self.wf(),
            i < self.spec_vals().len(),
        ensures
            *v == self.spec_vals()[i as int],
            *v == self@[self.spec_keys()[i as int]],
    {
        proof {
            lemma_seq_map_index(self.keys@, self.vals@, i as int);
        }
        &self.vals[i]
    }

    /// Sets the value of a key and returns the value it had.
    pub fn insert(&mut self, k: K, v: V) -> (r: Option<V>)
        requires
            old(self).wf(),
        ensures
            final(self).wf(),
            final(self)@ == old(self)@.insert(k, v),
            r == (if old(self)@.contains_key(k) {
                Some(old(self)@[k])
            } else {
                None
            }),
            old(self)@.contains_key(k) ==> final(self).spec_keys() == old(self).spec_keys()
                && final(self).spec_vals() == old(self).spec_vals().update(
                old(self).spec_keys().index_of(k),
                v,
            ),
            !old(self)@.contains_key(k) ==> final(self).spec_keys() == old(self).spec_keys().push(k)
                && final(self).spec_vals() == old(self).spec_vals().push(v),
    {
        let ghost keys0 = self.keys@;
        let ghost vals0 = self.vals@;
        match self.find(&k) {
            Some(i) => {
                self.vals.push(v);
                let prev = self.vals.swap_remove(i);
                proof {
                    assert(self.vals@ =~= vals0.update(i as int, v));
                    lemma_seq_map_index(keys0, vals0, i as int);
                    assert(keys0.index_of(k) == i);
                    assert forall|x: K| #[trigger] keys0.contains(x) implies seq_map(
                        keys0,
                        self.vals@,
                    )[x] == seq_map(keys0, vals0).insert(k, v)[x] by {
                        let j = keys0.index_of(x);
                        lemma_seq_map_index(keys0, vals0, j);
                        lemma_seq_map_index(keys0, self.vals@, j);
                    }
                    assert(self@ =~= seq_map(keys0, vals0).insert(k, v));
                }
                Some(prev)
            },
            None => {
                self.keys.push(k);
                self.vals.push(v);
                proof {
                    assert(self.keys@.no_duplicates());
                    assert forall|x: K| #[trigger] self.keys@.contains(x) implies seq_map(
                        keys0,
                        vals0,
                    ).insert(k, v).contains_key(x) && self@[x] == seq_map(keys0, vals0).insert(
                        k,
                        v,
                    )[x] by {
                        let j = self.keys@.index_of(x);
                        lemma_seq_map_index(self.keys@, self.vals@, j);
                        if j < keys0.len() {
                            assert(keys0[j] == x);
                            lemma_seq_map_index(keys0, vals0, j);
                        }
                    }
                    assert forall|x: K| #[trigger]
                        seq_map(keys0, vals0).insert(k, v).contains_key(
                            x,
                        ) implies self.keys@.contains(x) by {
                        if x == k {
                            assert(self.keys@[keys0.len() as int] == k);
                        } else {
                            let j = keys0.index_of(x);
                            assert(self.keys@[j] == x);
                        }
                    }
                    assert(self@ =~= seq_map(keys0, vals0).insert(k, v));
                }
                None
            },
        }
    }

    /// Removes a key and returns the value it had.
    pub fn remove(&mut self, k: &K) -> (r: Option<V>)
        requires
            old(self).wf(),
        ensures
            final(self).wf(),
            final(self)@ == old(self)@.remove(*k),
            r == (if old(self)@.contains_key(*k) {
                Some(old(self)@[*k])
            } else {
                None
            }),
            old(self)@.contains_key(*k) ==> final(self).spec_keys() == old(self).spec_keys().remove(
                old(self).spec_keys().index_of(*k),
            ) && final(self).spec_vals() == old(self).spec_vals().remove(
                old(self).spec_keys().index_of(*k),
            ),
            !old(self)@.contains_key(*k) ==> final(self).spec_keys() == old(self).spec_keys()
                && final(self).spec_vals() == old(self).spec_vals(),
    {
        let ghost keys0 = self.keys@;
        let ghost vals0 = self.vals@;
        match self.find(k) {
            Some(i) => {
                self.keys.remove(i);
                let prev = self.vals.remove(i);
                proof {
                    lemma_seq_map_index(keys0, vals0, i as int);
                    assert(keys0.index_of(*k) == i);
                    assert(self.keys@ == keys0.remove(i as int));
                    assert(self.vals@ == vals0.remove(i as int));
                    assert forall|a: int, b: int|
                        0 <= a < self.keys@.len() && 0 <= b < self.keys@.len() && a
                            != b implies self.keys@[a] != self.keys@[b] by {
                        let a0 = if a < i { a } else { a + 1 };
                        let b0 = if b < i { b } else { b + 1 };
                        assert(self.keys@[a] == keys0[a0]);
                        assert(self.keys@[b] == keys0[b0]);
                    }
                    assert forall|x: K| #[trigger] self.keys@.contains(x) implies seq_map(
                        keys0,
                        vals0,
                    ).remove(*k).contains_key(x) && self@[x] == seq_map(keys0, vals0).remove(
                        *k,
                    )[x] by {
                        let j = self.keys@.index_of(x);
                        let j0 = if j < i { j } else { j + 1 };
                        assert(keys0[j0] == x);
                        lemma_seq_map_index(self.keys@, self.vals@, j);
                        lemma_seq_map_index(keys0, vals0, j0);
                    }
                    assert forall|x: K| #[trigger]
                        seq_map(keys0, vals0).remove(*k).contains_key(
                            x,
                        ) implies self.keys@.contains(x) by {
                        let j0 = keys0.index_of(x);
                        let j = if j0 < i { j0 } else { j0 - 1 };
                        assert(self.keys@[j] == x);
                    }
                    assert(self@ =~= seq_map(keys0, vals0).remove(*k));
                }
                Some(prev)
            },
            None => {
                proof {
                    assert(self@ =~= seq_map(keys0, vals0).remove(*k));
                }
                None
            },
        }
    }

    /// Removes every entry.
    pub fn clear(&mut self)
        ensures
            final(self).wf(),
            final(self)@ == Map::<K, V>::empty(),
    {
        self.keys.clear();
        self.vals.clear();
        assert(self@ =~= Map::<K, V>::empty());
    }
}

} // verus!
