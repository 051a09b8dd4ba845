//! Proofs that the operations of the pool keep what holds of every state.

use crate::deferred_pool::{
    bucket_of, bucket_ok, buckets_ok, len_fn, resident, total_len, total_unpacked, unpacked_fn,
};
use crate::garbage_collector::{
    count_fn, gc_total, is_top, nodes_ok, top_node, GarbageCollectorNode,
};
use crate::map_sum::{
    lemma_map_sum_empty, lemma_map_sum_insert, lemma_map_sum_le, lemma_map_sum_remove,
};
use crate::nonce_lemmas::{
    lemma_count_below_len, lemma_count_unpacked_len, lemma_counts_update, lemma_entry_at_index,
    lemma_entry_at_some, lemma_insert, lemma_tail, unpacked_one,
};
use crate::nonce_pool::{
    count_below, count_unpacked, insert_outcome, insert_seq, is_ready_at, lemma_count_below_splits,
    nonce_of, ready_entry,
};
use crate::types::{Address, InsertError, InsertResult, SignedTransaction, TxWithReadyInfo, H256};
use crate::u256::U256;
use crate::ready_pool::ReadyNode;
use crate::pool_model::{
    GC_CHECK_COUNT, PoolView, added, admission, after_gc, collected, core_ok, empty_view,
    entry_indexed, entry_of, evict, flagged, flipped, gas_sum, gc_slot_ok, hash_fresh,
    hash_resident, insert_answer, insert_final, insert_state, insert_verdict, known_info, packable,
    packing_state, pick_victim, pool_ok, pool_ok_but, ready_slot_ok, replaced, size_sum,
    sponsorship, victim, with_info, with_ready,
};
use vstd::prelude::*;

verus! {

/// The empty pool satisfies the invariant.
pub proof fn lemma_empty_ok(capacity: nat, scaling: nat, exp: nat)
    requires
        scaling > 0,
        capacity <= usize::MAX,
    ensures
        pool_ok(empty_view(capacity, scaling, exp)),
{
    reveal(core_ok);
    let v = empty_view(capacity, scaling, exp);
    lemma_map_sum_empty::<Address, Seq<TxWithReadyInfo>>(len_fn());
    lemma_map_sum_empty::<Address, Seq<TxWithReadyInfo>>(unpacked_fn());
    assert(v.txs.dom() =~= Set::<H256>::empty());
}

/// The transactions below their senders' nonces are at most as many as all
/// transactions.
pub proof fn lemma_stale_at_most_all(v: PoolView)
    requires
        core_ok(v),
    ensures
        gc_total(v.gc) <= total_len(v.deferred),
        total_unpacked(v.deferred) <= total_len(v.deferred),
{
    reveal(core_ok);
    assert forall|a: Address| #[trigger] v.gc.contains_key(a) implies v.deferred.contains_key(a)
        && count_fn()(v.gc[a]) <= len_fn()(v.deferred[a]) by {
        assert(gc_slot_ok(v, a));
        lemma_count_below_len(v.deferred[a], v.info[a].0@);
    }
    lemma_map_sum_le(v.gc, count_fn(), v.deferred, len_fn());
    assert forall|a: Address| #[trigger] v.deferred.contains_key(a) implies v.deferred.contains_key(
        a,
    ) && unpacked_fn()(v.deferred[a]) <= len_fn()(v.deferred[a]) by {
        lemma_count_unpacked_len(v.deferred[a]);
    }
    lemma_map_sum_le(v.deferred, unpacked_fn(), v.deferred, len_fn());
}

/// The buckets of a pool that satisfies the invariant are well formed.
pub proof fn lemma_core_buckets(v: PoolView)
    requires
        core_ok(v),
    ensures
        buckets_ok(v.deferred),
        v.capacity <= usize::MAX,
        v.txs.len() <= v.capacity,
{
    reveal(core_ok);
}

/// No sender has more transactions than the pool may hold.
pub proof fn lemma_bucket_len(v: PoolView, a: Address)
    requires
        core_ok(v),
        v.deferred.contains_key(a),
    ensures
        v.deferred[a].len() <= total_len(v.deferred),
        v.deferred[a].len() <= usize::MAX,
{
    reveal(core_ok);
    lemma_map_sum_remove(v.deferred, len_fn(), a);
}

/// Learning the nonce and the balance of a sender keeps the invariant, but
/// for the sender's ready transaction.
pub proof fn lemma_with_info_ok(v: PoolView, a: Address, nonce: U256, balance: U256, now: u64)
    requires
        pool_ok_but(v, a),
    ensures
        pool_ok_but(with_info(v, a, nonce, balance, now), a),
{
    reveal(core_ok);
    let w = with_info(v, a, nonce, balance, now);
    if v.deferred.contains_key(a) {
        lemma_bucket_len(v, a);
        lemma_count_below_len(v.deferred[a], nonce@);
        assert forall|x: Address| #[trigger] w.gc.contains_key(x) implies gc_slot_ok(w, x) by {
            if x != a {
                assert(v.gc.contains_key(x));
                assert(gc_slot_ok(v, x));
            }
        }
        assert forall|x: Address, i: int|
            w.deferred.contains_key(x) && 0 <= i < w.deferred[x].len() implies entry_indexed(
            w,
            #[trigger] w.deferred[x][i],
        ) by {
            assert(entry_indexed(v, v.deferred[x][i]));
        }
        assert forall|h: H256| #[trigger] w.txs.contains_key(h) implies hash_resident(w, h) by {
            assert(hash_resident(v, h));
        }
        assert forall|x: Address| #[trigger] w.ready.contains_key(x) && x
            != a implies ready_slot_ok(w, x) by {
            assert(ready_slot_ok(v, x));
        }
        assert forall|x: Address| #[trigger] w.info.contains_key(x) <==> w.deferred.contains_key(
            x,
        ) by {
            assert(v.info.contains_key(x) <==> v.deferred.contains_key(x));
        }
        assert forall|x: Address| #[trigger] w.gc.contains_key(x) <==> w.deferred.contains_key(
            x,
        ) by {
            assert(v.gc.contains_key(x) <==> v.deferred.contains_key(x));
        }
        assert(nodes_ok(w.gc)) by {
            assert forall|x: Address| #[trigger] w.gc.contains_key(x) implies w.gc[x].sender
                == x by {
                if x != a {
                    assert(v.gc.contains_key(x));
                }
            }
        }
    }
}

/// Recalculating the ready transaction of a sender, from a nonce that is not
/// below the sender's known nonce, restores the invariant.
pub proof fn lemma_with_ready_ok(v: PoolView, a: Address, nonce: U256, balance: U256)
    requires
        pool_ok_but(v, a),
        v.deferred.contains_key(a) ==> v.info[a].0@ <= nonce@,
    ensures
        pool_ok(with_ready(v, a, nonce, balance)),
{
    reveal(core_ok);
    let w = with_ready(v, a, nonce, balance);
    let b = bucket_of(v.deferred, a);
    assert forall|x: Address, i: int|
        w.deferred.contains_key(x) && 0 <= i < w.deferred[x].len() implies entry_indexed(
        w,
        #[trigger] w.deferred[x][i],
    ) by {
        assert(entry_indexed(v, v.deferred[x][i]));
    }
    assert forall|h: H256| #[trigger] w.txs.contains_key(h) implies hash_resident(w, h) by {
        assert(hash_resident(v, h));
    }
    assert forall|x: Address| #[trigger] w.gc.contains_key(x) implies gc_slot_ok(w, x) by {
        assert(gc_slot_ok(v, x));
    }
    match ready_entry(b, nonce@, balance@) {
        Some(e) => {
            let k = choose|k: int| is_ready_at(b, nonce@, balance@, k);
            assert(is_ready_at(b, nonce@, balance@, k));
            assert(e == b[k]);
            assert(v.deferred.contains_key(a));
            assert(bucket_ok(a, v.deferred[a]));
            lemma_entry_at_index(b, k);
            assert(e.transaction.sender == a);
            assert(v.info.contains_key(a) <==> v.deferred.contains_key(a));
            assert forall|x: Address| #[trigger] w.ready.contains_key(x) implies ready_slot_ok(
                w,
                x,
            ) by {
                if x != a {
                    assert(v.ready.contains_key(x));
                    assert(ready_slot_ok(v, x));
                }
            }
        },
        None => {
            assert forall|x: Address| #[trigger] w.ready.contains_key(x) implies ready_slot_ok(
                w,
                x,
            ) by {
                assert(v.ready.contains_key(x));
                assert(ready_slot_ok(v, x));
            }
        },
    }
}

/// The hash of an entry of the pool is listed for no other entry.
pub proof fn lemma_hash_unique(v: PoolView, a: Address, i: int, b: Address, j: int)
    requires
        core_ok(v),
        v.deferred.contains_key(a),
        0 <= i < v.deferred[a].len(),
        v.deferred.contains_key(b),
        0 <= j < v.deferred[b].len(),
        v.deferred[a][i].transaction.hash == v.deferred[b][j].transaction.hash,
    ensures
        a == b,
        i == j,
{
    reveal(core_ok);
    let e = v.deferred[a][i];
    let f = v.deferred[b][j];
    assert(entry_indexed(v, e));
    assert(entry_indexed(v, f));
    assert(e.transaction == f.transaction);
    assert(bucket_ok(a, v.deferred[a]));
    assert(bucket_ok(b, v.deferred[b]));
    assert(e.transaction.sender == a && f.transaction.sender == b);
    if i < j {
        assert(nonce_of(v.deferred[a][i]) < nonce_of(v.deferred[a][j]));
    }
    if j < i {
        assert(nonce_of(v.deferred[a][j]) < nonce_of(v.deferred[a][i]));
    }
}

/// The transaction listed under a hash stands at a position of its sender's
/// bucket.
pub proof fn lemma_hash_position(v: PoolView, h: H256) -> (i: int)
    requires
        core_ok(v),
        v.txs.contains_key(h),
    ensures
        v.deferred.contains_key(v.txs[h].sender),
        0 <= i < v.deferred[v.txs[h].sender].len(),
        v.deferred[v.txs[h].sender][i].transaction == v.txs[h],
        i == count_below(v.deferred[v.txs[h].sender], v.txs[h].nonce@),
{
    reveal(core_ok);
    let t = v.txs[h];
    assert(hash_resident(v, h));
    assert(v.deferred.contains_key(t.sender));
    assert(bucket_ok(t.sender, v.deferred[t.sender]));
    lemma_entry_at_some(v.deferred[t.sender], t.nonce@);
    count_below(v.deferred[t.sender], t.nonce@) as int
}

/// Evicting the lowest transaction of a sender that the order of eviction
/// holds keeps the invariant and removes one transaction.
#[verifier::rlimit(80)]
pub proof fn lemma_evict_ok(v: PoolView, n: GarbageCollectorNode, now: u64)
    requires
        pool_ok(v),
        v.gc.contains_key(n.sender),
        v.gc[n.sender] == n,
    ensures
        pool_ok(evict(v, n, now)),
        evict(v, n, now).txs.len() + 1 == v.txs.len(),
{
    reveal(core_ok);
    let a = n.sender;
    let w = evict(v, n, now);
    assert(v.gc.contains_key(a) <==> v.deferred.contains_key(a));
    assert(v.info.contains_key(a) <==> v.deferred.contains_key(a));
    let s = v.deferred[a];
    assert(bucket_ok(a, s));
    let removed = s[0];
    let h = removed.transaction.hash;
    let t = s.subrange(1, s.len() as int);
    assert(entry_indexed(v, removed));
    lemma_tail(s, v.info[a].0@);
    lemma_entry_at_index(s, 0);
    // the sums
    lemma_map_sum_remove(v.deferred, len_fn(), a);
    lemma_map_sum_remove(v.deferred, unpacked_fn(), a);
    assert(v.deferred.remove(a).dom() =~= v.deferred.dom().remove(a));
    if s.len() > 1 {
        lemma_map_sum_insert(v.deferred.remove(a), len_fn(), a, t);
        lemma_map_sum_insert(v.deferred.remove(a), unpacked_fn(), a, t);
        assert(v.deferred.remove(a).insert(a, t) =~= w.deferred);
    } else {
        assert(t.len() == 0);
        assert(count_unpacked(t) == 0);
        assert(w.deferred == v.deferred.remove(a));
    }
    assert(w.txs.dom() =~= v.txs.dom().remove(h));
    assert(w.sponsored.dom() =~= v.sponsored.dom().remove(h));
    assert(buckets_ok(w.deferred)) by {
        assert forall|x: Address| #[trigger] w.deferred.contains_key(x) implies bucket_ok(
            x,
            w.deferred[x],
        ) by {
            if x == a {
                assert forall|i: int| 0 <= i < t.len() implies (#[trigger] t[i]).transaction.sender
                    == a by {
                    assert(t[i] == s[i + 1]);
                }
            } else {
                assert(v.deferred.contains_key(x));
            }
        }
    }
    assert(nodes_ok(w.gc)) by {
        assert forall|x: Address| #[trigger] w.gc.contains_key(x) implies w.gc[x].sender == x by {
            if x != a {
                assert(v.gc.contains_key(x));
            }
        }
    }
    assert forall|x: Address, i: int|
        w.deferred.contains_key(x) && 0 <= i < w.deferred[x].len() implies entry_indexed(
        w,
        #[trigger] w.deferred[x][i],
    ) by {
        let i0 = if x == a { i + 1 } else { i };
        assert(w.deferred[x][i] == v.deferred[x][i0]);
        assert(entry_indexed(v, v.deferred[x][i0]));
        if v.deferred[x][i0].transaction.hash == h {
            lemma_hash_unique(v, x, i0, a, 0);
        }
    }
    assert forall|hh: H256| #[trigger] w.txs.contains_key(hh) implies hash_resident(w, hh) by {
        let i = lemma_hash_position(v, hh);
        let tx = v.txs[hh];
        assert(hash_resident(v, hh));
        if tx.sender == a {
            if i == 0 {
                assert(tx == removed.transaction);
            }
            lemma_tail(s, tx.nonce@);
            lemma_entry_at_index(s, i);
        }
    }
    assert forall|x: Address| #[trigger] w.info.contains_key(x) <==> w.deferred.contains_key(x) by {
        assert(v.info.contains_key(x) <==> v.deferred.contains_key(x));
    }
    assert forall|x: Address| #[trigger] w.gc.contains_key(x) <==> w.deferred.contains_key(x) by {
        assert(v.gc.contains_key(x) <==> v.deferred.contains_key(x));
    }
    assert forall|x: Address| #[trigger] w.gc.contains_key(x) implies gc_slot_ok(w, x) by {
        assert(v.gc.contains_key(x));
        assert(gc_slot_ok(v, x));
        if x == a {
            lemma_count_below_splits(s, v.info[a].0@);
        }
    }
    assert forall|x: Address| #[trigger] w.ready.contains_key(x) implies ready_slot_ok(w, x) by {
        assert(v.ready.contains_key(x));
        assert(ready_slot_ok(v, x));
        if x == a {
            let r = v.ready[a];
            lemma_entry_at_some(s, r.nonce@);
            lemma_tail(s, r.nonce@);
            if r.nonce@ == nonce_of(s[0]) {
                assert(r == removed.transaction);
            }
        }
    }
    // the count of unpacked transactions does not go below zero
    lemma_count_unpacked_len(t);
    assert(v.unpacked >= unpacked_one(removed));
}

/// The victim of a round is a node of the order of eviction.
pub proof fn lemma_pick_victim_in(
    gc: Map<Address, GarbageCollectorNode>,
    deferred: Map<Address, Seq<TxWithReadyInfo>>,
    new_tx: SignedTransaction,
    cnt: nat,
    min_price: nat,
    best: Option<GarbageCollectorNode>,
    gc0: Map<Address, GarbageCollectorNode>,
)
    requires
        gc.dom().finite(),
        forall|a: Address| #[trigger] gc.contains_key(a) ==> gc0.contains_key(a) && gc0[a] == gc[a],
        match best {
            Some(b) => gc0.contains_key(b.sender) && gc0[b.sender] == b,
            None => true,
        },
    ensures
        match pick_victim(gc, deferred, new_tx, cnt, min_price, best) {
            Some(n) => gc0.contains_key(n.sender) && gc0[n.sender] == n,
            None => true,
        },
    decreases gc.dom().len(),
{
    reveal(core_ok);
    if cnt != 0 {
        match top_node(gc) {
            None => {},
            Some(n) => {
                assert(is_top(gc, n));
                let rest = gc.remove(n.sender);
                assert(gc.dom().contains(n.sender));
                assert(rest.dom() =~= gc.dom().remove(n.sender));
                if !deferred.contains_key(n.sender) {
                    lemma_pick_victim_in(rest, deferred, new_tx, cnt, min_price, best, gc0);
                } else if n.count > 0 {
                } else if n.sender == new_tx.sender {
                    lemma_pick_victim_in(rest, deferred, new_tx, cnt, min_price, best, gc0);
                } else if deferred[n.sender][0].transaction.gas_price@ < min_price {
                    lemma_pick_victim_in(
                        rest,
                        deferred,
                        new_tx,
                        (cnt - 1) as nat,
                        deferred[n.sender][0].transaction.gas_price@,
                        Some(n),
                        gc0,
                    );
                } else {
                    lemma_pick_victim_in(
                        rest,
                        deferred,
                        new_tx,
                        (cnt - 1) as nat,
                        min_price,
                        best,
                        gc0,
                    );
                }
            },
        }
    }
}

/// Garbage collection keeps the invariant, the capacity and the weights, and
/// only removes transactions.
pub proof fn lemma_collected_ok(v: PoolView, new_tx: SignedTransaction, now: u64)
    requires
        pool_ok(v),
    ensures
        pool_ok(collected(v, new_tx, now)),
        collected(v, new_tx, now).capacity == v.capacity,
        collected(v, new_tx, now).scaling == v.scaling,
        collected(v, new_tx, now).exp == v.exp,
        collected(v, new_tx, now).total_received == v.total_received,
        collected(v, new_tx, now).txs.len() <= v.txs.len(),
        forall|h: H256| #[trigger]
            collected(v, new_tx, now).txs.contains_key(h) ==> v.txs.contains_key(h) && collected(
                v,
                new_tx,
                now,
            ).txs[h] == v.txs[h],
    decreases v.txs.len(),
{
    reveal(core_ok);
    if v.txs.len() >= v.capacity && v.gc.len() > 0 {
        lemma_pick_victim_in(
            v.gc,
            v.deferred,
            new_tx,
            GC_CHECK_COUNT as nat,
            new_tx.gas_price@,
            None,
            v.gc,
        );
        match victim(v, new_tx) {
            Some(n) => {
                lemma_evict_ok(v, n, now);
                let w = evict(v, n, now);
                lemma_collected_ok(w, new_tx, now);
            },
            None => {},
        }
    }
}

/// A sender and nonce that the pool holds after garbage collection were
/// held before it.
pub proof fn lemma_after_gc_ok(v: PoolView, e: TxWithReadyInfo, now: u64)
    requires
        pool_ok(v),
        hash_fresh(v, e.transaction),
    ensures
        pool_ok(after_gc(v, e, now)),
        hash_fresh(after_gc(v, e, now), e.transaction),
        after_gc(v, e, now).capacity == v.capacity,
        resident(after_gc(v, e, now).deferred, e.transaction.sender, nonce_of(e)).is_some()
            == resident(v.deferred, e.transaction.sender, nonce_of(e)).is_some(),
{
    reveal(core_ok);
    let w = after_gc(v, e, now);
    let a = e.transaction.sender;
    if resident(v.deferred, a, nonce_of(e)).is_none() {
        lemma_collected_ok(v, e.transaction, now);
        match resident(w.deferred, a, nonce_of(e)) {
            Some(f) => {
                assert(w.deferred.contains_key(a));
                assert(bucket_ok(a, w.deferred[a]));
                lemma_entry_at_some(w.deferred[a], nonce_of(e));
                let i = count_below(w.deferred[a], nonce_of(e)) as int;
                assert(entry_indexed(w, w.deferred[a][i]));
                let h = f.transaction.hash;
                assert(v.txs.contains_key(h));
                assert(hash_resident(v, h));
                assert(f.transaction.sender == a);
            },
            None => {},
        }
    }
}

/// The unpacked transactions of a finite map of buckets are at most as many
/// as all of them.
pub proof fn lemma_unpacked_at_most_len(m: Map<Address, Seq<TxWithReadyInfo>>)
    requires
        m.dom().finite(),
    ensures
        total_unpacked(m) <= total_len(m),
{
    reveal(core_ok);
    assert forall|a: Address| #[trigger] m.contains_key(a) implies m.contains_key(a)
        && unpacked_fn()(m[a]) <= len_fn()(m[a]) by {
        lemma_count_unpacked_len(m[a]);
    }
    lemma_map_sum_le(m, unpacked_fn(), m, len_fn());
}

/// Adding an entry for a new sender and nonce to a pool with room keeps the
/// invariant, but for the ready transaction of the sender.
pub proof fn lemma_added_ok(v: PoolView, e: TxWithReadyInfo, state: Option<(U256, U256)>, now: u64)
    requires
        pool_ok(v),
        hash_fresh(v, e.transaction),
        resident(v.deferred, e.transaction.sender, nonce_of(e)).is_none(),
        v.txs.len() < v.capacity,
        state.is_some(),
    ensures
        pool_ok_but(added(v, e, state, now), e.transaction.sender),
        added(v, e, state, now).txs.len() == v.txs.len() + 1,
        v.unpacked < usize::MAX,
{
    reveal(core_ok);
    let a = e.transaction.sender;
    let h = e.transaction.hash;
    let b = bucket_of(v.deferred, a);
    let lb = count_below(b, nonce_of(e)) as int;
    let b1 = b.insert(lb, e);
    let w = added(v, e, state, now);
    let st = state.unwrap();
    if v.deferred.contains_key(a) {
        assert(bucket_ok(a, v.deferred[a]));
    }
    lemma_count_below_len(b, nonce_of(e));
    lemma_insert(b, e, false, st.0@);
    assert(insert_outcome(b, e, false) == InsertResult::NewAdded);
    assert(insert_seq(b, e, false) == b1);
    assert(w.deferred == v.deferred.insert(a, b1));
    // the hash is new
    if v.txs.contains_key(h) {
        assert(hash_resident(v, h));
        assert(false);
    }
    assert(w.txs.dom() =~= v.txs.dom().insert(h));
    assert(w.sponsored.dom() =~= v.sponsored.dom().insert(h));
    // the sums
    lemma_map_sum_insert(v.deferred, len_fn(), a, b1);
    lemma_map_sum_insert(v.deferred, unpacked_fn(), a, b1);
    if !v.deferred.contains_key(a) {
        assert(b =~= Seq::<TxWithReadyInfo>::empty());
        assert(count_unpacked(b) == 0);
    }
    lemma_unpacked_at_most_len(v.deferred);
    lemma_map_sum_remove(w.deferred, len_fn(), a);
    lemma_count_below_len(b1, st.0@);
    assert(buckets_ok(w.deferred)) by {
        assert forall|x: Address| #[trigger] w.deferred.contains_key(x) implies bucket_ok(
            x,
            w.deferred[x],
        ) by {
            if x == a {
                assert forall|i: int| 0 <= i < b1.len() implies (
                #[trigger] b1[i]).transaction.sender == a by {
                    if i < lb {
                        assert(b1[i] == b[i]);
                    } else if i > lb {
                        assert(b1[i] == b[i - 1]);
                    }
                }
            } else {
                assert(v.deferred.contains_key(x));
            }
        }
    }
    assert(nodes_ok(w.gc)) by {
        assert forall|x: Address| #[trigger] w.gc.contains_key(x) implies w.gc[x].sender == x by {
            if x != a {
                assert(v.gc.contains_key(x));
            }
        }
    }
    assert forall|x: Address, i: int|
        w.deferred.contains_key(x) && 0 <= i < w.deferred[x].len() implies entry_indexed(
        w,
        #[trigger] w.deferred[x][i],
    ) by {
        if x == a {
            if i < lb {
                assert(b1[i] == b[i]);
                assert(entry_indexed(v, v.deferred[a][i]));
            } else if i > lb {
                assert(b1[i] == b[i - 1]);
                assert(entry_indexed(v, v.deferred[a][i - 1]));
            }
        } else {
            assert(entry_indexed(v, v.deferred[x][i]));
        }
    }
    assert forall|hh: H256| #[trigger] w.txs.contains_key(hh) implies hash_resident(w, hh) by {
        if hh != h {
            let i = lemma_hash_position(v, hh);
            let tx = v.txs[hh];
            assert(hash_resident(v, hh));
            if tx.sender == a {
                lemma_insert(b, e, false, tx.nonce@);
            }
        } else {
            lemma_insert(b, e, false, nonce_of(e));
        }
    }
    assert forall|x: Address| #[trigger] w.info.contains_key(x) <==> w.deferred.contains_key(x) by {
        assert(v.info.contains_key(x) <==> v.deferred.contains_key(x));
    }
    assert forall|x: Address| #[trigger] w.gc.contains_key(x) <==> w.deferred.contains_key(x) by {
        assert(v.gc.contains_key(x) <==> v.deferred.contains_key(x));
    }
    assert forall|x: Address| #[trigger] w.gc.contains_key(x) implies gc_slot_ok(w, x) by {
        if x != a {
            assert(v.gc.contains_key(x));
            assert(gc_slot_ok(v, x));
        }
    }
    assert forall|x: Address| #[trigger] w.ready.contains_key(x) && x != a implies ready_slot_ok(
        w,
        x,
    ) by {
        assert(v.ready.contains_key(x));
        assert(ready_slot_ok(v, x));
    }
}

/// Replacing the entry of a sender and nonce keeps the invariant, but for
/// the ready transaction of the sender.
pub proof fn lemma_replaced_ok(v: PoolView, e: TxWithReadyInfo, prev: TxWithReadyInfo)
    requires
        pool_ok(v),
        hash_fresh(v, e.transaction),
        resident(v.deferred, e.transaction.sender, nonce_of(e)) == Some(prev),
    ensures
        pool_ok_but(replaced(v, e, prev), e.transaction.sender),
        replaced(v, e, prev).txs.len() == v.txs.len(),
        v.unpacked >= unpacked_one(prev),
        v.unpacked - unpacked_one(prev) + unpacked_one(e) <= usize::MAX,
{
    reveal(core_ok);
    let a = e.transaction.sender;
    let h = e.transaction.hash;
    let ph = prev.transaction.hash;
    let b = bucket_of(v.deferred, a);
    let lb = count_below(b, nonce_of(e)) as int;
    let b1 = b.update(lb, e);
    let w = replaced(v, e, prev);
    assert(v.deferred.contains_key(a));
    assert(bucket_ok(a, v.deferred[a]));
    lemma_entry_at_some(b, nonce_of(e));
    assert(b[lb] == prev);
    lemma_insert(b, e, true, v.info[a].0@);
    assert(insert_outcome(b, e, true) == InsertResult::Updated(prev));
    assert(insert_seq(b, e, true) == b1);
    assert(entry_indexed(v, v.deferred[a][lb]));
    // the new hash is the old one or not listed
    if v.txs.contains_key(h) {
        assert(hash_resident(v, h));
        assert(v.txs[h] == prev.transaction);
        assert(h == ph);
    }
    assert(w.txs.dom() =~= v.txs.dom().remove(ph).insert(h));
    assert(w.sponsored.dom() =~= v.sponsored.dom().remove(ph).insert(h));
    assert(v.sponsored.contains_key(ph));
    // the sums
    lemma_map_sum_insert(v.deferred, len_fn(), a, b1);
    lemma_map_sum_insert(v.deferred, unpacked_fn(), a, b1);
    lemma_map_sum_remove(v.deferred, unpacked_fn(), a);
    lemma_counts_update(
        b,
        lb,
        TxWithReadyInfo { packed: true, ..prev },
        0,
    );
    lemma_unpacked_at_most_len(w.deferred);
    assert(buckets_ok(w.deferred)) by {
        assert forall|x: Address| #[trigger] w.deferred.contains_key(x) implies bucket_ok(
            x,
            w.deferred[x],
        ) by {
            if x == a {
                assert forall|i: int| 0 <= i < b1.len() implies (
                #[trigger] b1[i]).transaction.sender == a by {
                    if i != lb {
                        assert(b1[i] == b[i]);
                    }
                }
            } else {
                assert(v.deferred.contains_key(x));
            }
        }
    }
    assert forall|x: Address, i: int|
        w.deferred.contains_key(x) && 0 <= i < w.deferred[x].len() implies entry_indexed(
        w,
        #[trigger] w.deferred[x][i],
    ) by {
        if x == a && i == lb {
        } else {
            assert(w.deferred[x][i] == v.deferred[x][i]);
            assert(entry_indexed(v, v.deferred[x][i]));
            let hx = v.deferred[x][i].transaction.hash;
            if hx == ph {
                lemma_hash_unique(v, x, i, a, lb);
            }
        }
    }
    assert forall|hh: H256| #[trigger] w.txs.contains_key(hh) implies hash_resident(w, hh) by {
        if hh != h {
            let i = lemma_hash_position(v, hh);
            let tx = v.txs[hh];
            assert(hash_resident(v, hh));
            if tx.sender == a {
                lemma_insert(b, e, true, tx.nonce@);
                if tx.nonce@ == nonce_of(e) {
                    assert(tx == prev.transaction);
                }
            }
        } else {
            lemma_insert(b, e, true, nonce_of(e));
        }
    }
    assert forall|x: Address| #[trigger] w.info.contains_key(x) <==> w.deferred.contains_key(x) by {
        assert(v.info.contains_key(x) <==> v.deferred.contains_key(x));
    }
    assert forall|x: Address| #[trigger] w.gc.contains_key(x) <==> w.deferred.contains_key(x) by {
        assert(v.gc.contains_key(x) <==> v.deferred.contains_key(x));
    }
    assert forall|x: Address| #[trigger] w.gc.contains_key(x) implies gc_slot_ok(w, x) by {
        assert(v.gc.contains_key(x));
        assert(gc_slot_ok(v, x));
    }
    assert forall|x: Address| #[trigger] w.ready.contains_key(x) && x != a implies ready_slot_ok(
        w,
        x,
    ) by {
        assert(v.ready.contains_key(x));
        assert(ready_slot_ok(v, x));
    }
}

/// Putting an entry into a pool that has room, or that holds the entry's
/// sender and nonce, keeps the invariant, but for the ready transaction of
/// the sender.
pub proof fn lemma_insert_ok(
    v: PoolView,
    e: TxWithReadyInfo,
    force: bool,
    state: Option<(U256, U256)>,
    now: u64,
)
    requires
        pool_ok(v),
        hash_fresh(v, e.transaction),
        resident(v.deferred, e.transaction.sender, nonce_of(e)).is_some() || (state.is_some()
            && v.txs.len() < v.capacity),
    ensures
        match insert_outcome(bucket_of(v.deferred, e.transaction.sender), e, force) {
            InsertResult::NewAdded => v.unpacked < usize::MAX && pool_ok_but(
                added(v, e, state, now),
                e.transaction.sender,
            ),
            InsertResult::Updated(prev) => v.unpacked >= unpacked_one(prev) && v.unpacked
                - unpacked_one(prev) + unpacked_one(e) <= usize::MAX && pool_ok_but(
                replaced(v, e, prev),
                e.transaction.sender,
            ),
            InsertResult::Failed(_) => true,
        },
{
    reveal(core_ok);
    let a = e.transaction.sender;
    let b = bucket_of(v.deferred, a);
    if v.deferred.contains_key(a) {
        assert(bucket_ok(a, v.deferred[a]));
    }
    lemma_insert(b, e, force, 0);
    match insert_outcome(b, e, force) {
        InsertResult::NewAdded => {
            lemma_added_ok(v, e, state, now);
        },
        InsertResult::Updated(prev) => {
            lemma_replaced_ok(v, e, prev);
        },
        InsertResult::Failed(_) => {},
    }
}

/// What the insertion with a check of the nonce leaves: the capacity is the
/// same; an accepted entry is the one that the pool holds for its sender and
/// nonce; a refusal by the bucket leaves the pool as it was.
pub proof fn lemma_insert_final_facts(
    v: PoolView,
    e: TxWithReadyInfo,
    force: bool,
    state: (U256, U256),
    now: u64,
)
    requires
        pool_ok(v),
        hash_fresh(v, e.transaction),
    ensures
        insert_final(v, e, force, state, now).capacity == v.capacity,
        match insert_verdict(v, e, force, state.0, now) {
            Ok(_) => resident(
                insert_final(v, e, force, state, now).deferred,
                e.transaction.sender,
                nonce_of(e),
            ) == Some(e),
            Err(InsertError::ReplaceUnderpriced { min_gas_price }) => match resident(
                v.deferred,
                e.transaction.sender,
                nonce_of(e),
            ) {
                Some(prev) => insert_final(v, e, force, state, now) == v && !force && min_gas_price
                    == prev.transaction.gas_price && (prev.packed || e.transaction.gas_price@
                    <= min_gas_price@),
                None => false,
            },
            Err(InsertError::PoolFull) => resident(v.deferred, e.transaction.sender, nonce_of(e)).is_none()
                && insert_final(v, e, force, state, now).txs.len() >= v.capacity,
            Err(InsertError::OracleFailure(_)) => false,
            Err(_) => insert_final(v, e, force, state, now) == v,
        },
{
    let a = e.transaction.sender;
    lemma_after_gc_ok(v, e, now);
    let w = after_gc(v, e, now);
    lemma_core_buckets(w);
    let b = bucket_of(w.deferred, a);
    if w.deferred.contains_key(a) {
        assert(bucket_ok(a, w.deferred[a]));
    }
    lemma_count_below_len(b, nonce_of(e));
    lemma_insert(b, e, force, nonce_of(e));
    if admission(e.transaction, e.packed, state.0).is_none() {
        match insert_answer(v, e, force, now) {
            InsertResult::NewAdded => {
                let x = insert_state(v, e, force, Some(state), now);
                assert(x == added(w, e, Some(state), now));
                assert(x.deferred[a] == insert_seq(b, e, force));
                assert(resident(x.deferred, a, nonce_of(e)) == Some(e));
            },
            InsertResult::Updated(prev) => {
                let x = insert_state(v, e, force, Some(state), now);
                assert(x == replaced(w, e, prev));
                assert(x.deferred[a] == insert_seq(b, e, force));
                assert(resident(x.deferred, a, nonce_of(e)) == Some(e));
            },
            InsertResult::Failed(_) => {},
        }
    }
}

/// The position of a transaction that can be packed in its sender's bucket.
pub proof fn lemma_packable_position(v: PoolView, t: SignedTransaction) -> (i: int)
    requires
        core_ok(v),
        match resident(v.deferred, t.sender, t.nonce@) {
            Some(e) => e.transaction == t,
            None => false,
        },
    ensures
        v.deferred.contains_key(t.sender),
        i == count_below(v.deferred[t.sender], t.nonce@),
        0 <= i < v.deferred[t.sender].len(),
        v.deferred[t.sender][i].transaction == t,
        resident(v.deferred, t.sender, t.nonce@) == Some(v.deferred[t.sender][i]),
{
    reveal(core_ok);
    assert(v.deferred.contains_key(t.sender));
    assert(bucket_ok(t.sender, v.deferred[t.sender]));
    lemma_entry_at_some(v.deferred[t.sender], t.nonce@);
    count_below(v.deferred[t.sender], t.nonce@) as int
}

/// Marking the entry of a transaction that the pool holds is a forced
/// insertion of the same transaction with the same sponsorship.
pub proof fn lemma_flip(v: PoolView, t: SignedTransaction, packed: bool)
    requires
        pool_ok(v),
        match resident(v.deferred, t.sender, t.nonce@) {
            Some(e) => e.transaction == t,
            None => false,
        },
    ensures
        hash_fresh(v, t),
        v.sponsored.contains_key(t.hash),
        insert_state(v, entry_of(t, packed, v.sponsored[t.hash]), true, None, 0) == flipped(
            v,
            t,
            packed,
        ),
        flipped(v, t, packed).info == v.info,
        v.unpacked >= unpacked_one(
            v.deferred[t.sender][count_below(v.deferred[t.sender], t.nonce@) as int],
        ),
{
    reveal(core_ok);
    let i = lemma_packable_position(v, t);
    let a = t.sender;
    let b = v.deferred[a];
    let prev = b[i];
    assert(entry_indexed(v, v.deferred[a][i]));
    let e = entry_of(t, packed, v.sponsored[t.hash]);
    assert(e == TxWithReadyInfo { packed, ..prev });
    lemma_replaced_ok(v, e, prev);
    assert(insert_outcome(b, e, true) == InsertResult::Updated(prev));
    let w = replaced(v, e, prev);
    assert(w.txs =~= v.txs);
    assert(w.sponsored =~= v.sponsored);
}

/// At the start of packing nothing is marked.
pub proof fn lemma_packing_start(v0: PoolView)
    requires
        pool_ok(v0),
    ensures
        packing_state(v0, v0, Seq::<SignedTransaction>::empty()),
        v0.ready.dom().finite(),
{
    reveal(core_ok);
}

/// When packing ends and nothing is marked any more, the pool is as it was,
/// the ready transactions aside.
pub proof fn lemma_packing_end(v: PoolView, v0: PoolView)
    requires
        packing_state(v, v0, Seq::<SignedTransaction>::empty()),
    ensures
        v == (PoolView { ready: v.ready, order: v.order, ..v0 }),
{
    assert forall|a: Address| #[trigger] v0.deferred.contains_key(a) implies v.deferred[a]
        =~= v0.deferred[a] by {
        assert forall|j: int| 0 <= j < v0.deferred[a].len() implies v.deferred[a][j]
            == v0.deferred[a][j] by {
            assert(v.deferred[a][j] == flagged(v0.deferred[a][j], Seq::<SignedTransaction>::empty()));
        }
    }
    assert(v.deferred =~= v0.deferred);
}

/// A transaction drawn from the ready ones during packing is one that could
/// be packed at the start and has not been selected; without it among the
/// ready ones the pool still satisfies the invariant.
pub proof fn lemma_popped(
    before: PoolView,
    v0: PoolView,
    sel: Seq<SignedTransaction>,
    tx: SignedTransaction,
    order: Seq<ReadyNode>,
)
    requires
        pool_ok(before),
        pool_ok(v0),
        packing_state(before, v0, sel),
        before.ready.contains_key(tx.sender),
        before.ready[tx.sender] == tx,
    ensures
        pool_ok(PoolView { ready: before.ready.remove(tx.sender), order, ..before }),
        packing_state(
            PoolView { ready: before.ready.remove(tx.sender), order, ..before },
            v0,
            sel,
        ),
        packable(v0, tx),
        packable(before, tx),
        !sel.contains(tx),
        before.ready.remove(tx.sender).dom().finite(),
        before.ready.remove(tx.sender).len() + 1 == before.ready.len(),
{
    reveal(core_ok);
    let after = PoolView { ready: before.ready.remove(tx.sender), order, ..before };
    let a = tx.sender;
    assert(ready_slot_ok(before, a));
    assert forall|x: Address| #[trigger] after.ready.contains_key(x) implies ready_slot_ok(
        after,
        x,
    ) by {
        assert(before.ready.contains_key(x));
        assert(ready_slot_ok(before, x));
    }
    let i = lemma_packable_position(before, tx);
    assert(v0.deferred.contains_key(a));
    assert(bucket_ok(a, v0.deferred[a]));
    let e0 = v0.deferred[a][i];
    assert(before.deferred[a][i] == flagged(e0, sel));
    lemma_entry_at_index(v0.deferred[a], i);
    assert(after.ready.dom() =~= before.ready.dom().remove(a));
}

/// Marking a drawn transaction as packed extends the selection by it.
pub proof fn lemma_packed_step(
    mid: PoolView,
    v0: PoolView,
    sel: Seq<SignedTransaction>,
    tx: SignedTransaction,
    after: PoolView,
)
    requires
        pool_ok(mid),
        pool_ok(v0),
        packing_state(mid, v0, sel),
        packable(v0, tx),
        packable(mid, tx),
        !sel.contains(tx),
        mid.ready.dom().finite(),
        after == with_ready(
            flipped(mid, tx, true),
            tx.sender,
            known_info(mid, tx.sender).0,
            known_info(mid, tx.sender).1,
        ),
    ensures
        packing_state(after, v0, sel.push(tx)),
        after.ready.dom().finite(),
        gas_sum(sel.push(tx)) == gas_sum(sel) + tx.gas@,
        size_sum(sel.push(tx)) == size_sum(sel) + tx.rlp_size,
        forall|x: Address|
            x != tx.sender ==> (#[trigger] after.ready.contains_key(x) == mid.ready.contains_key(x)),
{
    reveal(core_ok);
    let a = tx.sender;
    let sel2 = sel.push(tx);
    assert(sel2.drop_last() =~= sel);
    let i = lemma_packable_position(mid, tx);
    let i0 = lemma_packable_position(v0, tx);
    lemma_flip(mid, tx, true);
    let c = mid.deferred[a];
    assert(c[i] == flagged(v0.deferred[a][i], sel));
    lemma_entry_at_index(v0.deferred[a], i);
    assert(i == i0);
    assert(v0.deferred[a][i].transaction == tx);
    assert forall|y: SignedTransaction| sel2.contains(y) <==> (sel.contains(y) || y == tx) by {
        if sel.contains(y) {
            let j = choose|j: int| 0 <= j < sel.len() && sel[j] == y;
            assert(sel2[j] == y);
        }
        if y == tx {
            assert(sel2[sel.len() as int] == y);
        }
        if sel2.contains(y) {
            let j = choose|j: int| 0 <= j < sel2.len() && sel2[j] == y;
            if j < sel.len() {
                assert(sel[j] == y);
            }
        }
    }
    assert forall|x: Address, j: int|
        v0.deferred.contains_key(x) && 0 <= j < v0.deferred[x].len() implies #[trigger] after.deferred[x][j]
        == flagged(v0.deferred[x][j], sel2) by {
        assert(mid.deferred[x][j] == flagged(v0.deferred[x][j], sel));
        if x == a && j == i {
        } else {
            assert(after.deferred[x][j] == mid.deferred[x][j]);
            if v0.deferred[x][j].transaction == tx {
                lemma_hash_unique(v0, x, j, a, i);
            }
        }
    }
    assert forall|k: int| 0 <= k < sel2.len() implies packable(v0, #[trigger] sel2[k]) by {
        if k < sel.len() {
            assert(sel2[k] == sel[k]);
        }
    }
    assert(sel2.no_duplicates()) by {
        assert forall|p: int, q: int| 0 <= p < sel2.len() && 0 <= q < sel2.len() && p
            != q implies sel2[p] != sel2[q] by {
            if p < sel.len() && q < sel.len() {
                assert(sel[p] != sel[q]);
            } else if p < sel.len() {
                assert(sel.contains(sel[p]));
            } else if q < sel.len() {
                assert(sel.contains(sel[q]));
            }
        }
    }
}

/// A transaction that was set aside during packing can be listed as ready
/// again.
pub proof fn lemma_recycled(
    cur: PoolView,
    v0: PoolView,
    sel: Seq<SignedTransaction>,
    tx: SignedTransaction,
    order: Seq<ReadyNode>,
)
    requires
        pool_ok(cur),
        pool_ok(v0),
        packing_state(cur, v0, sel),
        packable(v0, tx),
        !sel.contains(tx),
    ensures
        pool_ok(PoolView { ready: cur.ready.insert(tx.sender, tx), order, ..cur }),
        packing_state(PoolView { ready: cur.ready.insert(tx.sender, tx), order, ..cur }, v0, sel),
{
    reveal(core_ok);
    let after = PoolView { ready: cur.ready.insert(tx.sender, tx), order, ..cur };
    let a = tx.sender;
    let i = lemma_packable_position(v0, tx);
    assert(cur.deferred.contains_key(a));
    assert(bucket_ok(a, cur.deferred[a]));
    assert(cur.deferred[a][i] == flagged(v0.deferred[a][i], sel));
    lemma_entry_at_index(cur.deferred[a], i);
    assert forall|x: Address| #[trigger] after.ready.contains_key(x) implies ready_slot_ok(
        after,
        x,
    ) by {
        if x != a {
            assert(cur.ready.contains_key(x));
            assert(ready_slot_ok(cur, x));
        }
    }
}

/// The last selected transaction is held by the pool, so that it can be
/// marked as not packed.
pub proof fn lemma_unpack_ready(mid: PoolView, v0: PoolView, sel: Seq<SignedTransaction>)
    requires
        pool_ok(mid),
        pool_ok(v0),
        packing_state(mid, v0, sel),
        sel.len() > 0,
    ensures
        match resident(mid.deferred, sel.last().sender, sel.last().nonce@) {
            Some(e) => e.transaction == sel.last(),
            None => false,
        },
{
    reveal(core_ok);
    let tx = sel.last();
    let a = tx.sender;
    assert(packable(v0, sel[sel.len() - 1]));
    let i = lemma_packable_position(v0, tx);
    assert(mid.deferred.contains_key(a));
    assert(bucket_ok(a, mid.deferred[a]));
    assert(mid.deferred[a][i] == flagged(v0.deferred[a][i], sel));
    lemma_entry_at_index(mid.deferred[a], i);
}

/// Marking the last selected transaction as not packed shortens the
/// selection by it.
pub proof fn lemma_unpacked_step(
    mid: PoolView,
    v0: PoolView,
    sel: Seq<SignedTransaction>,
    after: PoolView,
)
    requires
        pool_ok(mid),
        pool_ok(v0),
        packing_state(mid, v0, sel),
        sel.len() > 0,
        after == with_ready(
            flipped(mid, sel.last(), false),
            sel.last().sender,
            known_info(mid, sel.last().sender).0,
            known_info(mid, sel.last().sender).1,
        ),
    ensures
        packing_state(after, v0, sel.drop_last()),
        forall|x: Address|
            x != sel.last().sender ==> (#[trigger] after.ready.contains_key(x)
                == mid.ready.contains_key(x)),
{
    reveal(core_ok);
    let tx = sel.last();
    let a = tx.sender;
    let sel1 = sel.drop_last();
    lemma_unpack_ready(mid, v0, sel);
    assert(packable(v0, sel[sel.len() - 1]));
    let i0 = lemma_packable_position(v0, tx);
    let i = lemma_packable_position(mid, tx);
    lemma_flip(mid, tx, false);
    assert(mid.deferred[a][i0] == flagged(v0.deferred[a][i0], sel));
    lemma_entry_at_index(mid.deferred[a], i0);
    assert(i == i0);
    assert(sel.contains(tx));
    assert(!sel1.contains(tx)) by {
        if sel1.contains(tx) {
            let j = choose|j: int| 0 <= j < sel1.len() && sel1[j] == tx;
            assert(sel[j] == sel[sel.len() - 1]);
        }
    }
    assert forall|y: SignedTransaction| sel.contains(y) <==> (sel1.contains(y) || y == tx) by {
        if sel1.contains(y) {
            let j = choose|j: int| 0 <= j < sel1.len() && sel1[j] == y;
            assert(sel[j] == y);
        }
        if sel.contains(y) && y != tx {
            let j = choose|j: int| 0 <= j < sel.len() && sel[j] == y;
            assert(sel1[j] == y);
        }
    }
    assert forall|x: Address, j: int|
        v0.deferred.contains_key(x) && 0 <= j < v0.deferred[x].len() implies #[trigger] after.deferred[x][j]
        == flagged(v0.deferred[x][j], sel1) by {
        assert(mid.deferred[x][j] == flagged(v0.deferred[x][j], sel));
        if x == a && j == i {
        } else {
            assert(after.deferred[x][j] == mid.deferred[x][j]);
            if v0.deferred[x][j].transaction == tx {
                lemma_hash_unique(v0, x, j, a, i);
            }
        }
    }
    assert forall|k: int| 0 <= k < sel1.len() implies packable(v0, #[trigger] sel1[k]) by {
        assert(sel1[k] == sel[k]);
    }
    assert(sel1.no_duplicates()) by {
        assert forall|p: int, q: int| 0 <= p < sel1.len() && 0 <= q < sel1.len() && p
            != q implies sel1[p] != sel1[q] by {
            assert(sel[p] != sel[q]);
        }
    }
}

/// The insertion with a check of the nonce keeps the invariant.
pub proof fn lemma_insert_final_ok(
    v: PoolView,
    e: TxWithReadyInfo,
    force: bool,
    state: (U256, U256),
    now: u64,
)
    requires
        pool_ok(v),
        hash_fresh(v, e.transaction),
    ensures
        pool_ok(insert_final(v, e, force, state, now)),
{
    reveal(core_ok);
    let a = e.transaction.sender;
    lemma_after_gc_ok(v, e, now);
    let w = after_gc(v, e, now);
    if admission(e.transaction, e.packed, state.0).is_none() {
        match insert_answer(v, e, force, now) {
            InsertResult::Failed(_) => {},
            _ => {
                lemma_insert_ok(w, e, force, Some(state), now);
                let x = insert_state(v, e, force, Some(state), now);
                assert(pool_ok_but(x, a));
                assert(x.info.contains_key(a) <==> x.deferred.contains_key(a));
                lemma_with_ready_ok(x, a, known_info(x, a).0, known_info(x, a).1);
            },
        }
    }
}

} // verus!
