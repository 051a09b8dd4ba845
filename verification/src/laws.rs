//! What holds of every state of the pool and of sequences of its
//! operations, stated over the model and proved.

use crate::deferred_pool::{bucket_ok, resident, total_len, total_unpacked};
use crate::nonce_lemmas::{lemma_insert, unpacked_one};
use crate::nonce_pool::{
    count_below, entry_at, insert_outcome, insert_seq, nonce_of, sorted_by_nonce,
};
use crate::pool_lemmas::{
    lemma_after_gc_ok, lemma_flip, lemma_insert_final_facts, lemma_insert_final_ok,
    lemma_packable_position, lemma_replaced_ok,
};
use crate::pool_model::{
    admission, after_gc, core_ok, entry_indexed, entry_of, flipped, gc_slot_ok, hash_fresh,
    insert_final, insert_verdict, notified, packable, pool_ok, ready_slot_ok, with_info,
    with_ready, Account, PoolView,
};
use crate::types::{Address, InsertError, InsertResult, SignedTransaction, TxWithReadyInfo};
use crate::u256::U256;
use vstd::prelude::*;

verus! {

/// Every sender of the pool has at least one transaction, and no two
/// transactions of a sender have the same nonce.
pub proof fn law_senders_have_distinct_nonces(v: PoolView, a: Address)
    requires
        pool_ok(v),
        v.deferred.contains_key(a),
    ensures
        v.deferred[a].len() > 0,
        forall|i: int, j: int|
            0 <= i < v.deferred[a].len() && 0 <= j < v.deferred[a].len() && i != j ==> nonce_of(
                v.deferred[a][i],
            ) != nonce_of(v.deferred[a][j]),
        forall|i: int|
            0 <= i < v.deferred[a].len() ==> (#[trigger] v.deferred[a][i]).transaction.sender == a,
{
    reveal(core_ok);
    assert(bucket_ok(a, v.deferred[a]));
    assert forall|i: int, j: int|
        0 <= i < v.deferred[a].len() && 0 <= j < v.deferred[a].len() && i != j implies nonce_of(
        v.deferred[a][i],
    ) != nonce_of(v.deferred[a][j]) by {
        if i < j {
            assert(nonce_of(v.deferred[a][i]) < nonce_of(v.deferred[a][j]));
        } else {
            assert(nonce_of(v.deferred[a][j]) < nonce_of(v.deferred[a][i]));
        }
    }
}

/// The pool lists as many transactions by hash as its senders have
/// together, and never more than its capacity.
pub proof fn law_hashes_count_all_transactions(v: PoolView)
    requires
        pool_ok(v),
    ensures
        v.txs.len() == total_len(v.deferred),
        v.txs.len() <= v.capacity,
{
    reveal(core_ok);
}

/// The count of unpacked transactions is the number of entries that are not
/// packed.
pub proof fn law_unpacked_count_is_exact(v: PoolView)
    requires
        pool_ok(v),
    ensures
        v.unpacked == total_unpacked(v.deferred),
{
    reveal(core_ok);
}

/// The ready transaction of a sender is one that the pool holds for that
/// sender, is not packed, and has a nonce that is not below the sender's
/// known nonce.
pub proof fn law_ready_transaction_is_resident(v: PoolView, a: Address)
    requires
        pool_ok(v),
        v.ready.contains_key(a),
    ensures
        v.ready[a].sender == a,
        v.info.contains_key(a),
        v.info[a].0@ <= v.ready[a].nonce@,
        match resident(v.deferred, a, v.ready[a].nonce@) {
            Some(e) => e.transaction == v.ready[a] && !e.packed,
            None => false,
        },
{
    assert(ready_slot_ok(v, a));
}

/// The order of eviction records exactly the senders of the pool, each once
/// and under its own address, with the number of its transactions below its
/// known nonce; and the pool knows the nonce and balance of exactly these
/// senders.
pub proof fn law_eviction_order_covers_senders(v: PoolView, a: Address)
    requires
        pool_ok(v),
    ensures
        v.gc.contains_key(a) <==> v.deferred.contains_key(a),
        v.info.contains_key(a) <==> v.deferred.contains_key(a),
        v.gc.contains_key(a) ==> v.gc[a].sender == a && v.gc[a].count == count_below(
            v.deferred[a],
            v.info[a].0@,
        ),
{
    reveal(core_ok);
    if v.gc.contains_key(a) {
        assert(gc_slot_ok(v, a));
    }
}

/// Once the pool has learned that the nonce of a sender has passed the nonce
/// of a transaction, no selection for a block holds that transaction: every
/// selected transaction can be packed, and this one cannot.
pub proof fn law_consumed_nonce_is_not_packed(
    v: PoolView,
    tx: SignedTransaction,
    nonce: U256,
    balance: U256,
    now: u64,
    selected: Seq<SignedTransaction>,
)
    requires
        nonce@ > tx.nonce@,
        forall|k: int|
            0 <= k < selected.len() ==> packable(
                notified(v, seq![Account { address: tx.sender, nonce, balance }], now),
                #[trigger] selected[k],
            ),
    ensures
        !selected.contains(tx),
{
    let accounts = seq![Account { address: tx.sender, nonce, balance }];
    let w = notified(v, accounts, now);
    assert(accounts.drop_last() =~= Seq::<Account>::empty());
    assert(notified(v, accounts.drop_last(), now) == v);
    assert(w == with_ready(
        with_info(v, tx.sender, nonce, balance, now),
        tx.sender,
        nonce,
        balance,
    ));
    if selected.contains(tx) {
        let k = choose|k: int| 0 <= k < selected.len() && selected[k] == tx;
        assert(packable(w, selected[k]));
        assert(w.deferred == v.deferred);
        assert(v.deferred.contains_key(tx.sender));
    }
}

/// Inserting a transaction that the pool holds once more, by force, changes
/// the count of unpacked transactions by the change of the mark alone: with
/// the same mark the count stays, and marking an unpacked transaction as
/// packed and then as unpacked again restores it.
pub proof fn law_forced_reinsert_balances(v: PoolView, tx: SignedTransaction)
    requires
        pool_ok(v),
        match resident(v.deferred, tx.sender, tx.nonce@) {
            Some(e) => e.transaction == tx,
            None => false,
        },
    ensures
        ({
            let prev = resident(v.deferred, tx.sender, tx.nonce@).unwrap();
            &&& flipped(v, tx, prev.packed).unpacked == v.unpacked
            &&& flipped(v, tx, true).unpacked + unpacked_one(prev) == v.unpacked
            &&& flipped(v, tx, false).unpacked + unpacked_one(prev) == v.unpacked + 1
        }),
{
    reveal(core_ok);
    lemma_flip(v, tx, true);
    assert(v.deferred.contains_key(tx.sender));
    assert(bucket_ok(tx.sender, v.deferred[tx.sender]));
    crate::nonce_lemmas::lemma_entry_at_some(v.deferred[tx.sender], tx.nonce@);
}

/// Inserting a new transaction as unpacked raises the count of unpacked
/// transactions by one, and inserting it again by force as packed lowers the
/// count by one and keeps the number of transactions.
pub proof fn law_insert_then_mark_packed(
    v: PoolView,
    tx: SignedTransaction,
    sponsored: (U256, u64),
    first: (U256, U256),
    now: u64,
    second: (U256, U256),
    later: u64,
)
    requires
        pool_ok(v),
        hash_fresh(v, tx),
        resident(v.deferred, tx.sender, tx.nonce@).is_none(),
        insert_verdict(v, entry_of(tx, false, sponsored), false, first.0, now).is_ok(),
        admission(tx, true, second.0).is_none(),
    ensures
        ({
            let unpacked = entry_of(tx, false, sponsored);
            let packed = entry_of(tx, true, sponsored);
            let x = insert_final(v, unpacked, false, first, now);
            let y = insert_final(x, packed, true, second, later);
            &&& x.unpacked == after_gc(v, unpacked, now).unpacked + 1
            &&& insert_verdict(x, packed, true, second.0, later).is_ok()
            &&& y.unpacked + 1 == x.unpacked
            &&& y.txs.len() == x.txs.len()
            &&& pool_ok(y)
        }),
{
    reveal(core_ok);
    let eu = entry_of(tx, false, sponsored);
    let ep = entry_of(tx, true, sponsored);
    let x = insert_final(v, eu, false, first, now);
    lemma_after_gc_ok(v, eu, now);
    lemma_insert_final_facts(v, eu, false, first, now);
    lemma_insert_final_ok(v, eu, false, first, now);
    let w = after_gc(v, eu, now);
    let b = crate::deferred_pool::bucket_of(w.deferred, tx.sender);
    if w.deferred.contains_key(tx.sender) {
        assert(bucket_ok(tx.sender, w.deferred[tx.sender]));
    }
    lemma_insert(b, eu, false, 0);
    // the second insertion finds the entry and replaces it
    assert(resident(x.deferred, tx.sender, tx.nonce@) == Some(eu));
    assert(x.deferred.contains_key(tx.sender));
    assert(bucket_ok(tx.sender, x.deferred[tx.sender]));
    assert(entry_at(x.deferred[tx.sender], tx.nonce@) == Some(eu));
    let i = lemma_packable_position(x, tx);
    assert(entry_indexed(x, x.deferred[tx.sender][i]));
    assert(hash_fresh(x, tx));
    lemma_insert(x.deferred[tx.sender], ep, true, 0);
    lemma_replaced_ok(x, ep, eu);
    lemma_insert_final_ok(x, ep, true, second, later);
}

/// An entry takes the place of an unpacked entry of the same nonce exactly
/// when it offers a strictly higher gas price or is forced; and then it is
/// the one entry with that nonce, and the number of entries is the same.
pub proof fn law_replace_by_fee(
    s: Seq<TxWithReadyInfo>,
    first: TxWithReadyInfo,
    second: TxWithReadyInfo,
    force: bool,
)
    requires
        sorted_by_nonce(s),
        entry_at(s, nonce_of(first)) == Some(first),
        nonce_of(second) == nonce_of(first),
        !first.packed,
    ensures
        (insert_outcome(s, second, force) == InsertResult::Updated(first)) <==> (
        second.transaction.gas_price@ > first.transaction.gas_price@ || force),
        (insert_outcome(s, second, force) == InsertResult::Failed(
            InsertError::ReplaceUnderpriced { min_gas_price: first.transaction.gas_price },
        )) <==> !(second.transaction.gas_price@ > first.transaction.gas_price@ || force),
        insert_outcome(s, second, force) == InsertResult::Updated(first) ==> {
            &&& entry_at(insert_seq(s, second, force), nonce_of(first)) == Some(second)
            &&& insert_seq(s, second, force).len() == s.len()
            &&& sorted_by_nonce(insert_seq(s, second, force))
        },
        insert_outcome(s, second, force) != InsertResult::Updated(first) ==> insert_seq(
            s,
            second,
            force,
        ) == s,
{
    lemma_insert(s, second, force, nonce_of(first));
}

/// An entry that offers the gas price of the entry of the same nonce, and is
/// not forced, is refused, and the answer names that gas price as the one to
/// exceed.
pub proof fn law_same_price_is_underpriced(
    s: Seq<TxWithReadyInfo>,
    first: TxWithReadyInfo,
    second: TxWithReadyInfo,
)
    requires
        sorted_by_nonce(s),
        entry_at(s, nonce_of(first)) == Some(first),
        nonce_of(second) == nonce_of(first),
        second.transaction.gas_price == first.transaction.gas_price,
    ensures
        insert_outcome(s, second, false) == InsertResult::Failed(
            InsertError::ReplaceUnderpriced { min_gas_price: first.transaction.gas_price },
        ),
        insert_seq(s, second, false) == s,
{
}

} // verus!
