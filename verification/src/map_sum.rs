//! Sums over the values of a finite map.

use vstd::prelude::*;

verus! {

/// The sum of `f` over the values of a finite map.
pub open spec fn map_sum<K, V>(m: Map<K, V>, f: spec_fn(V) -> nat) -> nat
    decreases m.dom().len(),
    when m.dom().finite()
    via map_sum_decreases::<K, V>
{
    if m.dom().len() == 0 {
        0
    } else {
        let k = m.dom().choose();
        f(m[k]) + map_sum(m.remove(k), f)
    }
}

#[via_fn]
proof fn map_sum_decreases<K, V>(m: Map<K, V>, f: spec_fn(V) -> nat) {
    if m.dom().len() != 0 {
        let k = m.dom().choose();
        assert(m.dom().contains(k));
        assert(m.remove(k).dom() =~= m.dom().remove(k));
    }
}

/// The sum over an empty map is zero.
pub proof fn lemma_map_sum_empty<K, V>(f: spec_fn(V) -> nat)
    ensures
        map_sum(Map::<K, V>::empty(), f) == 0,
{
    assert(Map::<K, V>::empty().dom() =~= Set::<K>::empty());
}

/// Any entry can be split off the sum.
pub proof fn lemma_map_sum_remove<K, V>(m: Map<K, V>, f: spec_fn(V) -> nat, k: K)
    requires
        m.dom().finite(),
        m.contains_key(k),
    ensures
        map_sum(m, f) == f(m[k]) + map_sum(m.remove(k), f),
    decreases m.dom().len(),
{
    let c = m.dom().choose();
    assert(m.dom().len() != 0) by {
        if m.dom().len() == 0 {
            assert(m.dom() =~= Set::<K>::empty());
        }
    }
    assert(m.dom().contains(c));
    if c != k {
        assert(m.remove(c).dom() =~= m.dom().remove(c));
        assert(m.remove(k).dom() =~= m.dom().remove(k));
        lemma_map_sum_remove(m.remove(c), f, k);
        lemma_map_sum_remove(m.remove(k), f, c);
        assert(m.remove(c).remove(k) =~= m.remove(k).remove(c));
    }
}

/// Setting the value of a key changes the sum by the difference of the two
/// values.
pub proof fn lemma_map_sum_insert<K, V>(m: Map<K, V>, f: spec_fn(V) -> nat, k: K, v: V)
    requires
        m.dom().finite(),
    ensures
        m.insert(k, v).dom().finite(),
        map_sum(m.insert(k, v), f) + (if m.contains_key(k) {
            f(m[k])
        } else {
            0
        }) == map_sum(m, f) + f(v),
{
    lemma_map_sum_remove(m.insert(k, v), f, k);
    assert(m.insert(k, v).remove(k) =~= m.remove(k));
    if m.contains_key(k) {
        lemma_map_sum_remove(m, f, k);
    } else {
        assert(m.remove(k) =~= m);
    }
}

/// Where one map's values are pointwise at most those of another map that
/// has all its keys, its sum is at most the other's.
pub proof fn lemma_map_sum_le<K, V, W>(
    m: Map<K, V>,
    f: spec_fn(V) -> nat,
    n: Map<K, W>,
    g: spec_fn(W) -> nat,
)
    requires
        m.dom().finite(),
        n.dom().finite(),
        forall|k: K| #[trigger] m.contains_key(k) ==> n.contains_key(k) && f(m[k]) <= g(n[k]),
    ensures
        map_sum(m, f) <= map_sum(n, g),
    decreases m.dom().len(),
{
    if m.dom().len() != 0 {
        let k = m.dom().choose();
        assert(m.dom().contains(k));
        assert(m.contains_key(k));
        lemma_map_sum_remove(m, f, k);
        lemma_map_sum_remove(n, g, k);
        assert(m.remove(k).dom() =~= m.dom().remove(k));
        assert forall|x: K| #[trigger] m.remove(k).contains_key(x) implies n.remove(
            k,
        ).contains_key(x) && f(m.remove(k)[x]) <= g(n.remove(k)[x]) by {
            assert(m.contains_key(x));
        }
        lemma_map_sum_le(m.remove(k), f, n.remove(k), g);
    }
}

} // verus!
