//! The model of the transaction pool: what a state of the pool is, what
//! holds of every state, and what each operation makes of a state.

use crate::deferred_pool::{
    bucket_of, buckets_ok, resident, total_len, total_unpacked, without_lowest,
};
use crate::garbage_collector::{is_top, nodes_ok, top_node, GarbageCollectorNode};
use crate::nonce_lemmas::unpacked_one;
use crate::ready_pool::{drawn_index, order_with, order_without, ready_node, ReadyNode};
use crate::nonce_pool::{count_below, insert_outcome, nonce_of, ready_entry};
use crate::types::{
    Action, Address, InsertError, InsertResult, PackingCheckResult, SignedTransaction,
    SponsorInfo, TxWithReadyInfo,
    DRIPS_PER_STORAGE_COLLATERAL_UNIT, H256,
};
use crate::u256::U256;
use vstd::prelude::*;

verus! {

/// How far beyond the sender's nonce in the state the nonce of an accepted
/// transaction may lie.
pub const FURTHEST_FUTURE_TRANSACTION_NONCE_OFFSET: u32 = 2000;

/// The number of senders whose gas prices one round of eviction compares.
pub const GC_CHECK_COUNT: usize = 5;

/// How often packing draws again after a transaction that does not fit.
pub const BIG_TX_RESAMPLE_LIMIT: usize = 10;

/// The model of the pool.
pub struct PoolView {
    /// The most transactions that the pool holds.
    pub capacity: nat,
    /// The divisor of the gas price in the weight of the draw.
    pub scaling: nat,
    /// The exponent of the weight of the draw.
    pub exp: nat,
    /// The number of transactions received.
    pub total_received: nat,
    /// The number of transactions that are not packed.
    pub unpacked: nat,
    /// The transactions of each sender, sorted by nonce.
    pub deferred: Map<Address, Seq<TxWithReadyInfo>>,
    /// The ready transaction of each sender that has one.
    pub ready: Map<Address, SignedTransaction>,
    /// The ready transactions with their weights, in the order in which the
    /// draw walks them.
    pub order: Seq<ReadyNode>,
    /// The nonce and the balance that the pool knows of each sender.
    pub info: Map<Address, (U256, U256)>,
    /// What the order of eviction records of each sender.
    pub gc: Map<Address, GarbageCollectorNode>,
    /// The transactions by hash.
    pub txs: Map<H256, SignedTransaction>,
    /// The sponsored gas and storage of each transaction, by hash.
    pub sponsored: Map<H256, (U256, u64)>,
}

/// Whether the maps by hash hold the entry.
pub open spec fn entry_indexed(v: PoolView, e: TxWithReadyInfo) -> bool {
    let h = e.transaction.hash;
    &&& v.txs.contains_key(h)
    &&& v.txs[h] == e.transaction
    &&& v.sponsored.contains_key(h)
    &&& v.sponsored[h] == (e.sponsored_gas, e.sponsored_storage)
}

/// Whether the transaction listed under the hash has that hash and is the
/// one that the pool holds for its sender and nonce.
pub open spec fn hash_resident(v: PoolView, h: H256) -> bool {
    let t = v.txs[h];
    &&& t.hash == h
    &&& match resident(v.deferred, t.sender, t.nonce@) {
        Some(e) => e.transaction == t,
        None => false,
    }
}

/// Whether the ready transaction of a sender is one that the pool holds for
/// the sender, not packed, with a nonce that the sender's known nonce has
/// not passed.
pub open spec fn ready_slot_ok(v: PoolView, a: Address) -> bool {
    let t = v.ready[a];
    &&& t.sender == a
    &&& v.info.contains_key(a)
    &&& v.info[a].0@ <= t.nonce@
    &&& match resident(v.deferred, a, t.nonce@) {
        Some(e) => e.transaction == t && !e.packed,
        None => false,
    }
}

/// Whether the count that the order of eviction records of a sender is the
/// number of the sender's transactions below the sender's known nonce.
pub open spec fn gc_slot_ok(v: PoolView, a: Address) -> bool {
    &&& v.gc[a].count == count_below(bucket_of(v.deferred, a), v.info[a].0@)
}

/// What holds of every state of the pool, the ready transactions aside.
#[verifier::opaque]
pub open spec fn core_ok(v: PoolView) -> bool {
    &&& buckets_ok(v.deferred)
    &&& nodes_ok(v.gc)
    &&& v.ready.dom().finite()
    &&& v.info.dom().finite()
    &&& v.txs.dom().finite()
    &&& v.sponsored.dom().finite()
    &&& v.scaling > 0
    &&& v.capacity <= usize::MAX
    &&& v.txs.len() <= v.capacity
    &&& v.txs.len() == total_len(v.deferred)
    &&& v.unpacked == total_unpacked(v.deferred)
    &&& forall|h: H256| #[trigger] v.sponsored.contains_key(h) <==> v.txs.contains_key(h)
    &&& forall|a: Address, i: int|
        v.deferred.contains_key(a) && 0 <= i < v.deferred[a].len() ==> entry_indexed(
            v,
            #[trigger] v.deferred[a][i],
        )
    &&& forall|h: H256| #[trigger] v.txs.contains_key(h) ==> hash_resident(v, h)
    &&& forall|a: Address| #[trigger] v.info.contains_key(a) <==> v.deferred.contains_key(a)
    &&& forall|a: Address| #[trigger] v.gc.contains_key(a) <==> v.deferred.contains_key(a)
    &&& forall|a: Address| #[trigger] v.gc.contains_key(a) ==> gc_slot_ok(v, a)
}

/// What holds of every state of the pool.
pub open spec fn pool_ok(v: PoolView) -> bool {
    &&& core_ok(v)
    &&& forall|a: Address| #[trigger] v.ready.contains_key(a) ==> ready_slot_ok(v, a)
}

/// What holds of the pool while the ready transaction of one sender awaits
/// its recalculation.
pub open spec fn pool_ok_but(v: PoolView, s: Address) -> bool {
    &&& core_ok(v)
    &&& forall|a: Address| #[trigger] v.ready.contains_key(a) && a != s ==> ready_slot_ok(v, a)
}

/// The model of a pool without transactions.
pub open spec fn empty_view(capacity: nat, scaling: nat, exp: nat) -> PoolView {
    PoolView {
        capacity,
        scaling,
        exp,
        total_received: 0,
        unpacked: 0,
        deferred: Map::empty(),
        ready: Map::empty(),
        order: Seq::empty(),
        info: Map::empty(),
        gc: Map::empty(),
        txs: Map::empty(),
        sponsored: Map::empty(),
    }
}

/// The nonce and balance that the pool knows of a sender; zero for a sender
/// it knows nothing of.
pub open spec fn known_info(v: PoolView, a: Address) -> (U256, U256) {
    if v.info.contains_key(a) {
        v.info[a]
    } else {
        (U256 { hi: 0, lo: 0 }, U256 { hi: 0, lo: 0 })
    }
}

/// Whether the filter lets a sender through.
pub open spec fn passes(filter: Option<Address>, sender: Address) -> bool {
    match filter {
        Some(a) => a == sender,
        None => true,
    }
}

/// A record of an account after the execution of a block.
#[derive(Clone, Copy, Debug, PartialEq, Eq, Structural)]
pub struct Account {
    /// The address of the account.
    pub address: Address,
    /// Its nonce.
    pub nonce: U256,
    /// Its balance.
    pub balance: U256,
}

/// The pool after it has learned the nonce and the balance of a sender at
/// the time `now`: for a sender with transactions, the known nonce and
/// balance are replaced, and the order of eviction records the number of the
/// sender's transactions below the nonce, under the timestamp that it had for
/// the sender, or under `now` if it had none. Nothing changes for a sender
/// without transactions.
pub open spec fn with_info(v: PoolView, a: Address, nonce: U256, balance: U256, now: u64)
    -> PoolView {
    if !v.deferred.contains_key(a) {
        v
    } else {
        PoolView {
            gc: v.gc.insert(
                a,
                GarbageCollectorNode {
                    sender: a,
                    count: count_below(v.deferred[a], nonce@) as usize,
                    timestamp: if v.gc.contains_key(a) {
                        v.gc[a].timestamp
                    } else {
                        now
                    },
                },
            ),
            info: v.info.insert(a, (nonce, balance)),
            ..v
        }
    }
}

/// The pool after the ready transaction of a sender has been recalculated
/// for the given nonce and balance.
pub open spec fn with_ready(v: PoolView, a: Address, nonce: U256, balance: U256) -> PoolView {
    PoolView {
        ready: match ready_entry(bucket_of(v.deferred, a), nonce@, balance@) {
            Some(e) => v.ready.insert(e.transaction.sender, e.transaction),
            None => v.ready.remove(a),
        },
        order: match ready_entry(bucket_of(v.deferred, a), nonce@, balance@) {
            Some(e) => order_with(v.order, ready_node(e.transaction, v.scaling, v.exp)),
            None => order_without(v.order, a),
        },
        ..v
    }
}

/// The pool after the accounts that a block has changed have been made
/// known to it, one after the other, at the time `now`.
pub open spec fn notified(v: PoolView, accounts: Seq<Account>, now: u64) -> PoolView
    decreases accounts.len(),
{
    if accounts.len() == 0 {
        v
    } else {
        let before = notified(v, accounts.drop_last(), now);
        let account = accounts.last();
        with_ready(
            with_info(before, account.address, account.nonce, account.balance, now),
            account.address,
            account.nonce,
            account.balance,
        )
    }
}

/// The sender whose lowest transaction a round of eviction removes. The
/// round takes the nodes of `gc` in the order of eviction. A node with a
/// positive count is the victim at once. Of the nodes with count zero, it
/// looks at up to `cnt` that are not the sender of the new transaction, and
/// remembers as `best` the first whose lowest transaction offers the lowest
/// gas price below `min_price`, which starts as the gas price of the new
/// transaction. A node whose sender has no transactions is passed over.
pub open spec fn pick_victim(
    gc: Map<Address, GarbageCollectorNode>,
    deferred: Map<Address, Seq<TxWithReadyInfo>>,
    new_tx: SignedTransaction,
    cnt: nat,
    min_price: nat,
    best: Option<GarbageCollectorNode>,
) -> Option<GarbageCollectorNode>
    decreases gc.dom().len(),
    when gc.dom().finite()
    via pick_victim_decreases
{
    if cnt == 0 {
        best
    } else {
        match top_node(gc) {
            None => best,
            Some(n) => {
                let rest = gc.remove(n.sender);
                if !deferred.contains_key(n.sender) {
                    pick_victim(rest, deferred, new_tx, cnt, min_price, best)
                } else if n.count > 0 {
                    Some(n)
                } else if n.sender == new_tx.sender {
                    pick_victim(rest, deferred, new_tx, cnt, min_price, best)
                } else if deferred[n.sender][0].transaction.gas_price@ < min_price {
                    pick_victim(
                        rest,
                        deferred,
                        new_tx,
                        (cnt - 1) as nat,
                        deferred[n.sender][0].transaction.gas_price@,
                        Some(n),
                    )
                } else {
                    pick_victim(rest, deferred, new_tx, (cnt - 1) as nat, min_price, best)
                }
            },
        }
    }
}

#[via_fn]
proof fn pick_victim_decreases(
    gc: Map<Address, GarbageCollectorNode>,
    deferred: Map<Address, Seq<TxWithReadyInfo>>,
    new_tx: SignedTransaction,
    cnt: nat,
    min_price: nat,
    best: Option<GarbageCollectorNode>,
) {
    if cnt != 0 {
        match top_node(gc) {
            None => {},
            Some(n) => {
                assert(is_top(gc, n));
                assert(gc.dom().contains(n.sender));
                assert(gc.remove(n.sender).dom() =~= gc.dom().remove(n.sender));
            },
        }
    }
}

/// The victim of a round of eviction that makes room for `new_tx`.
pub open spec fn victim(v: PoolView, new_tx: SignedTransaction) -> Option<GarbageCollectorNode> {
    pick_victim(v.gc, v.deferred, new_tx, GC_CHECK_COUNT as nat, new_tx.gas_price@, None)
}

/// The pool after the lowest transaction of the victim's sender has been
/// evicted at the time `now`. The transaction leaves the sender's bucket and
/// the maps by hash; if it was the sender's ready transaction, the sender has
/// none; if it was not packed, one transaction fewer is unpacked. A sender
/// that has transactions left is recorded in the order of eviction with a
/// count lowered by one, but not below zero, under `now`; a sender that has
/// none is forgotten.
pub open spec fn evict(v: PoolView, n: GarbageCollectorNode, now: u64) -> PoolView {
    let a = n.sender;
    let removed = v.deferred[a][0];
    let h = removed.transaction.hash;
    let deferred = without_lowest(v.deferred, a);
    PoolView {
        deferred,
        ready: if v.ready.contains_key(a) && v.ready[a].hash == h {
            v.ready.remove(a)
        } else {
            v.ready
        },
        order: if v.ready.contains_key(a) && v.ready[a].hash == h {
            order_without(v.order, a)
        } else {
            v.order
        },
        unpacked: if !removed.packed && v.unpacked > 0 {
            (v.unpacked - 1) as nat
        } else {
            v.unpacked
        },
        gc: if deferred.contains_key(a) {
            v.gc.insert(
                a,
                GarbageCollectorNode {
                    sender: a,
                    count: if n.count > 0 {
                        (n.count - 1) as usize
                    } else {
                        0
                    },
                    timestamp: now,
                },
            )
        } else {
            v.gc.remove(a)
        },
        info: if deferred.contains_key(a) {
            v.info
        } else {
            v.info.remove(a)
        },
        txs: v.txs.remove(h),
        sponsored: v.sponsored.remove(h),
        ..v
    }
}

/// The pool after garbage collection has made what room it can for `new_tx`
/// at the time `now`: as long as the pool is full and the order of eviction
/// has a sender, a round picks a victim and evicts its lowest transaction;
/// collection ends when a round finds no victim. (An eviction from a pool
/// that satisfies the invariant always removes a transaction.)
pub open spec fn collected(v: PoolView, new_tx: SignedTransaction, now: u64) -> PoolView
    decreases v.txs.len(),
{
    if v.txs.len() >= v.capacity && v.gc.len() > 0 {
        match victim(v, new_tx) {
            Some(n) => {
                let w = evict(v, n, now);
                if w.txs.len() < v.txs.len() {
                    collected(w, new_tx, now)
                } else {
                    w
                }
            },
            None => v,
        }
    } else {
        v
    }
}

/// Whether the hash of a transaction is free or listed for the
/// transaction's own sender and nonce. The pool identifies a transaction by
/// its hash, and takes a new one only under this condition.
pub open spec fn hash_fresh(v: PoolView, tx: SignedTransaction) -> bool {
    v.txs.contains_key(tx.hash) ==> v.txs[tx.hash].sender == tx.sender && v.txs[tx.hash].nonce
        == tx.nonce
}

/// The entry that stands for a transaction in the pool.
pub open spec fn entry_of(
    transaction: SignedTransaction,
    packed: bool,
    sponsored: (U256, u64),
) -> TxWithReadyInfo {
    TxWithReadyInfo {
        transaction,
        packed,
        sponsored_gas: sponsored.0,
        sponsored_storage: sponsored.1,
    }
}

/// The pool after an entry for a sender and nonce that it did not hold has
/// been added: the entry stands in its sender's bucket and in the maps by
/// hash, the state's nonce and balance of the sender are made known, and an
/// entry that is not packed counts as unpacked.
pub open spec fn added(v: PoolView, e: TxWithReadyInfo, state: Option<(U256, U256)>, now: u64)
    -> PoolView {
    let a = e.transaction.sender;
    let b = bucket_of(v.deferred, a);
    let d = PoolView {
        deferred: v.deferred.insert(a, b.insert(count_below(b, nonce_of(e)) as int, e)),
        ..v
    };
    let i = match state {
        Some(st) => with_info(d, a, st.0, st.1, now),
        None => d,
    };
    PoolView {
        txs: i.txs.insert(e.transaction.hash, e.transaction),
        sponsored: i.sponsored.insert(e.transaction.hash, (e.sponsored_gas, e.sponsored_storage)),
        unpacked: i.unpacked + unpacked_one(e),
        ..i
    }
}

/// The pool after an entry has taken the place of `prev`, the entry of the
/// same sender and nonce: in the sender's bucket, in the maps by hash, and
/// in the count of unpacked transactions.
pub open spec fn replaced(v: PoolView, e: TxWithReadyInfo, prev: TxWithReadyInfo) -> PoolView {
    let a = e.transaction.sender;
    let b = bucket_of(v.deferred, a);
    PoolView {
        deferred: v.deferred.insert(a, b.update(count_below(b, nonce_of(e)) as int, e)),
        txs: v.txs.remove(prev.transaction.hash).insert(e.transaction.hash, e.transaction),
        sponsored: v.sponsored.remove(prev.transaction.hash).insert(
            e.transaction.hash,
            (e.sponsored_gas, e.sponsored_storage),
        ),
        unpacked: (if !prev.packed && v.unpacked > 0 {
            (v.unpacked - 1) as nat
        } else {
            v.unpacked
        }) + unpacked_one(e),
        ..v
    }
}

/// The pool after garbage collection, which runs only for an entry whose
/// sender and nonce the pool does not hold.
pub open spec fn after_gc(v: PoolView, e: TxWithReadyInfo, now: u64) -> PoolView {
    if resident(v.deferred, e.transaction.sender, nonce_of(e)).is_none() {
        collected(v, e.transaction, now)
    } else {
        v
    }
}

/// What the insertion of an entry answers: that the pool is full, if the
/// sender and nonce are new and garbage collection leaves no room; else what
/// the sender's bucket answers.
pub open spec fn insert_answer(v: PoolView, e: TxWithReadyInfo, force: bool, now: u64)
    -> InsertResult {
    let w = after_gc(v, e, now);
    if resident(v.deferred, e.transaction.sender, nonce_of(e)).is_none() && w.txs.len()
        >= w.capacity {
        InsertResult::Failed(InsertError::PoolFull)
    } else {
        insert_outcome(bucket_of(w.deferred, e.transaction.sender), e, force)
    }
}

/// The pool after the insertion of an entry.
pub open spec fn insert_state(
    v: PoolView,
    e: TxWithReadyInfo,
    force: bool,
    state: Option<(U256, U256)>,
    now: u64,
) -> PoolView {
    let w = after_gc(v, e, now);
    match insert_answer(v, e, force, now) {
        InsertResult::NewAdded => added(w, e, state, now),
        InsertResult::Updated(prev) => replaced(w, e, prev),
        InsertResult::Failed(_) => w,
    }
}

/// The gas cost that the pool estimates for a transaction: the gas limit
/// times the gas price, capped at the largest 128-bit number.
pub open spec fn estimated_gas_cost(tx: SignedTransaction) -> nat {
    if tx.gas@ * tx.gas_price@ > u128::MAX {
        u128::MAX as nat
    } else {
        tx.gas@ * tx.gas_price@
    }
}

/// The gas and the storage of a transaction that the sponsor of the called
/// contract pays for: all the gas if the estimated cost is within the
/// sponsor's bound and balance for gas, all the storage if its collateral is
/// within the sponsor's balance for collateral, and none otherwise.
pub open spec fn sponsorship(tx: SignedTransaction, info: SponsorInfo) -> (U256, u64) {
    (
        if estimated_gas_cost(tx) <= info.sponsor_gas_bound@ && estimated_gas_cost(tx)
            <= info.sponsor_balance_for_gas@ {
            tx.gas
        } else {
            U256 { hi: 0, lo: 0 }
        },
        if tx.storage_limit as nat * DRIPS_PER_STORAGE_COLLATERAL_UNIT as nat
            <= info.sponsor_balance_for_collateral@ {
            tx.storage_limit
        } else {
            0
        },
    )
}

/// The sponsorship of a transaction that no sponsor pays for.
pub open spec fn no_sponsorship() -> (U256, u64) {
    (U256 { hi: 0, lo: 0 }, 0)
}

/// Whether a transaction calls an address that may be a contract, so that a
/// sponsor may pay for it.
pub open spec fn calls_contract(tx: SignedTransaction) -> bool {
    match tx.action {
        Action::Call(callee) => callee.spec_maybe_contract_address(),
        Action::Create => false,
    }
}

/// What a sponsor pays for a transaction, given what the account state says
/// of the called contract: its sponsor, if it has one, and whether the
/// sponsor pays for the sender. A transaction that calls a contract whose
/// sponsor pays for the sender is sponsored as the sponsor's means allow;
/// every other transaction is not sponsored.
pub open spec fn sponsorship_for(
    tx: SignedTransaction,
    sponsor: Option<SponsorInfo>,
    privileged: bool,
) -> (U256, u64) {
    match sponsor {
        Some(info) => if calls_contract(tx) && privileged {
            sponsorship(tx, info)
        } else {
            no_sponsorship()
        },
        None => no_sponsorship(),
    }
}

/// Why a transaction is turned away for its nonce, given the sender's nonce
/// in the state: it lies too far in the future, or, for a transaction that is
/// not packed, in the past.
pub open spec fn admission(tx: SignedTransaction, packed: bool, state_nonce: U256) -> Option<
    InsertError,
> {
    if tx.nonce@ >= state_nonce@ + FURTHEST_FUTURE_TRANSACTION_NONCE_OFFSET as nat {
        Some(InsertError::TooFarFuture)
    } else if !packed && tx.nonce@ < state_nonce@ {
        Some(InsertError::StaleNonce)
    } else {
        None
    }
}

/// What the insertion of an entry with a check of the nonce answers.
pub open spec fn insert_verdict(
    v: PoolView,
    e: TxWithReadyInfo,
    force: bool,
    state_nonce: U256,
    now: u64,
) -> Result<(), InsertError> {
    match admission(e.transaction, e.packed, state_nonce) {
        Some(err) => Err(err),
        None => match insert_answer(v, e, force, now) {
            InsertResult::Failed(err) => Err(err),
            _ => Ok(()),
        },
    }
}

/// The pool after the insertion of an entry with a check of the nonce: as it
/// was, for an entry that is turned away for its nonce; else as the insertion
/// leaves it, with the sender's ready transaction recalculated where the
/// entry went in.
pub open spec fn insert_final(
    v: PoolView,
    e: TxWithReadyInfo,
    force: bool,
    state: (U256, U256),
    now: u64,
) -> PoolView {
    match admission(e.transaction, e.packed, state.0) {
        Some(_) => v,
        None => match insert_answer(v, e, force, now) {
            InsertResult::Failed(_) => after_gc(v, e, now),
            _ => {
                let x = insert_state(v, e, force, Some(state), now);
                with_ready(
                    x,
                    e.transaction.sender,
                    known_info(x, e.transaction.sender).0,
                    known_info(x, e.transaction.sender).1,
                )
            },
        },
    }
}

/// The sum of the gas limits of the transactions.
pub open spec fn gas_sum(s: Seq<SignedTransaction>) -> nat
    decreases s.len(),
{
    if s.len() == 0 {
        0
    } else {
        gas_sum(s.drop_last()) + s.last().gas@
    }
}

/// The sum of the encoded sizes of the transactions.
pub open spec fn size_sum(s: Seq<SignedTransaction>) -> nat
    decreases s.len(),
{
    if s.len() == 0 {
        0
    } else {
        size_sum(s.drop_last()) + s.last().rlp_size as nat
    }
}

/// Whether the pool holds the transaction for its sender and nonce, not
/// packed, with a nonce that the sender's known nonce has not passed. Only
/// such a transaction is ever listed as ready.
pub open spec fn packable(v: PoolView, t: SignedTransaction) -> bool {
    &&& v.info.contains_key(t.sender)
    &&& v.info[t.sender].0@ <= t.nonce@
    &&& match resident(v.deferred, t.sender, t.nonce@) {
        Some(e) => e.transaction == t && !e.packed,
        None => false,
    }
}

/// The pool after the entry of a transaction that it holds has been marked
/// as packed or as not packed.
pub open spec fn flipped(v: PoolView, t: SignedTransaction, packed: bool) -> PoolView {
    let b = bucket_of(v.deferred, t.sender);
    let i = count_below(b, t.nonce@) as int;
    PoolView {
        deferred: v.deferred.insert(t.sender, b.update(i, TxWithReadyInfo { packed, ..b[i] })),
        unpacked: (v.unpacked - unpacked_one(b[i]) + unpacked_one(
            TxWithReadyInfo { packed, ..b[i] },
        )) as nat,
        ..v
    }
}

/// An entry as it stands while the transactions of `sel` are marked as
/// packed.
pub open spec fn flagged(e: TxWithReadyInfo, sel: Seq<SignedTransaction>) -> TxWithReadyInfo {
    if sel.contains(e.transaction) {
        TxWithReadyInfo { packed: true, ..e }
    } else {
        e
    }
}

/// Whether the buckets `cur` are the buckets `d0` with the transactions of
/// `sel` marked as packed.
pub open spec fn deferred_flagged(
    cur: Map<Address, Seq<TxWithReadyInfo>>,
    d0: Map<Address, Seq<TxWithReadyInfo>>,
    sel: Seq<SignedTransaction>,
) -> bool {
    &&& forall|a: Address| #[trigger] cur.contains_key(a) <==> d0.contains_key(a)
    &&& forall|a: Address| #[trigger] d0.contains_key(a) ==> cur[a].len() == d0[a].len()
    &&& forall|a: Address, j: int|
        d0.contains_key(a) && 0 <= j < d0[a].len() ==> #[trigger] cur[a][j] == flagged(
            d0[a][j],
            sel,
        )
}

/// Whether the pool `v` is the pool `v0` with the transactions of `sel`
/// marked as packed, the ready transactions aside.
pub open spec fn packing_state(v: PoolView, v0: PoolView, sel: Seq<SignedTransaction>) -> bool {
    &&& deferred_flagged(v.deferred, v0.deferred, sel)
    &&& v.unpacked + sel.len() == v0.unpacked
    &&& v == (PoolView {
        deferred: v.deferred,
        unpacked: v.unpacked,
        ready: v.ready,
        order: v.order,
        ..v0
    })
    &&& forall|k: int| 0 <= k < sel.len() ==> packable(v0, #[trigger] sel[k])
    &&& sel.no_duplicates()
}

/// Whether the amounts are what a sponsor pays for a transaction under some
/// answer of the account state.
pub open spec fn possible_sponsorship(tx: SignedTransaction, amounts: (U256, u64)) -> bool {
    exists|sponsor: Option<SponsorInfo>, privileged: bool|
        amounts == #[trigger] sponsorship_for(tx, sponsor, privileged)
}

/// Whether `r` and `v1` are the answer and the pool after the insertion of a
/// transaction into the pool `v0`, where the account state gave the
/// sponsorship `sponsored` and, as the sender's nonce and balance, `first`,
/// and the clock gave `now`. A refusal leaves the pool as the insertion with
/// a check of the nonce leaves it. After an acceptance the account state is
/// asked once more for the sender's nonce and balance: its answer is made
/// known to the pool, and its failure is reported with the transaction in
/// the pool.
pub open spec fn checked_insertion(
    v0: PoolView,
    tx: SignedTransaction,
    packed: bool,
    force: bool,
    sponsored: (U256, u64),
    first: (U256, U256),
    now: u64,
    r: Result<(), InsertError>,
    v1: PoolView,
) -> bool {
    let e = entry_of(tx, packed, sponsored);
    let mid = insert_final(v0, e, force, first, now);
    match insert_verdict(v0, e, force, first.0, now) {
        Err(err) => r == Err::<(), InsertError>(err) && v1 == mid,
        Ok(_) => match r {
            Ok(_) => exists|second: (U256, U256)|
                v1 == #[trigger] with_ready(
                    with_info(mid, tx.sender, second.0, second.1, now),
                    tx.sender,
                    second.0,
                    second.1,
                ),
            Err(InsertError::OracleFailure(_)) => v1 == mid,
            Err(_) => false,
        },
    }
}

/// The state of a selection for a block.
pub struct PackState {
    /// The pool.
    pub pool: PoolView,
    /// The transactions selected so far.
    pub selected: Seq<SignedTransaction>,
    /// The transactions set aside so far.
    pub recycle: Seq<SignedTransaction>,
    /// How many more transactions that do not fit may be drawn.
    pub budget: nat,
    /// Whether the selection has ended before it was complete.
    pub done: bool,
}

/// The state in which a selection starts.
pub open spec fn pack_start(v: PoolView) -> PackState {
    PackState {
        pool: v,
        selected: Seq::empty(),
        recycle: Seq::empty(),
        budget: BIG_TX_RESAMPLE_LIMIT as nat,
        done: false,
    }
}

/// Whether the selection draws no more: it has ended, or it is complete.
pub open spec fn pack_finished(s: PackState, num_txs: nat) -> bool {
    s.done || s.selected.len() >= num_txs
}

/// The state after one draw with the random number `rand`. Where the draw
/// falls on no transaction, the selection ends. The drawn transaction leaves
/// the ready ones. If it does not fit into what is left of the limits, it is
/// set aside, and the selection ends when the last such draw allowed is
/// spent. Else the verdict decides: on `Pack` the transaction is selected
/// and marked as packed, and the ready transaction of its sender is
/// recalculated; on `Pending` it is set aside; on `Drop` nothing more
/// happens.
pub open spec fn pack_step(
    s: PackState,
    rand: u128,
    verdict: PackingCheckResult,
    gas_limit: nat,
    size_limit: nat,
) -> PackState {
    match drawn_index(s.pool.order, rand as nat) {
        None => PackState { done: true, ..s },
        Some(i) => {
            let tx = s.pool.order[i].tx;
            let popped = PoolView {
                ready: s.pool.ready.remove(tx.sender),
                order: s.pool.order.remove(i),
                ..s.pool
            };
            if gas_sum(s.selected) + tx.gas@ > gas_limit || size_sum(s.selected) + tx.rlp_size
                > size_limit {
                PackState {
                    pool: popped,
                    recycle: s.recycle.push(tx),
                    budget: (s.budget - 1) as nat,
                    done: s.budget <= 1,
                    ..s
                }
            } else {
                match verdict {
                    PackingCheckResult::Pack => PackState {
                        pool: with_ready(
                            flipped(popped, tx, true),
                            tx.sender,
                            known_info(popped, tx.sender).0,
                            known_info(popped, tx.sender).1,
                        ),
                        selected: s.selected.push(tx),
                        ..s
                    },
                    PackingCheckResult::Pending => PackState {
                        pool: popped,
                        recycle: s.recycle.push(tx),
                        ..s
                    },
                    PackingCheckResult::Drop => PackState { pool: popped, ..s },
                }
            }
        },
    }
}

/// The state after the draws, each with the random number and the verdict
/// given, one after the other. The verdict of a draw that asks for none is
/// ignored.
pub open spec fn pack_run(
    v: PoolView,
    draws: Seq<(u128, PackingCheckResult)>,
    gas_limit: nat,
    size_limit: nat,
) -> PackState
    decreases draws.len(),
{
    if draws.len() == 0 {
        pack_start(v)
    } else {
        pack_step(
            pack_run(v, draws.drop_last(), gas_limit, size_limit),
            draws.last().0,
            draws.last().1,
            gas_limit,
            size_limit,
        )
    }
}

/// Whether the draws are those of one selection of at most `num_txs`
/// transactions: after the last of them the selection draws no more, and
/// before each of them it still draws.
pub open spec fn pack_draws(
    v: PoolView,
    num_txs: nat,
    gas_limit: nat,
    size_limit: nat,
    draws: Seq<(u128, PackingCheckResult)>,
) -> bool {
    &&& pack_finished(pack_run(v, draws, gas_limit, size_limit), num_txs)
    &&& forall|j: int|
        0 <= j < draws.len() ==> !pack_finished(
            #[trigger] pack_run(v, draws.subrange(0, j), gas_limit, size_limit),
            num_txs,
        )
}

/// The pool after the transactions that were set aside have been listed as
/// ready again, in the order in which they were set aside.
pub open spec fn recycled(v: PoolView, recycle: Seq<SignedTransaction>) -> PoolView
    decreases recycle.len(),
{
    if recycle.len() == 0 {
        v
    } else {
        let w = recycled(v, recycle.drop_last());
        let tx = recycle.last();
        PoolView {
            ready: w.ready.insert(tx.sender, tx),
            order: order_with(w.order, ready_node(tx, w.scaling, w.exp)),
            ..w
        }
    }
}

/// The pool after the selected transactions have been marked as not packed,
/// the last one first, with the ready transaction of the sender recalculated
/// each time.
pub open spec fn unpacked_all(v: PoolView, selected: Seq<SignedTransaction>) -> PoolView
    decreases selected.len(),
{
    if selected.len() == 0 {
        v
    } else {
        let tx = selected.last();
        unpacked_all(
            with_ready(
                flipped(v, tx, false),
                tx.sender,
                known_info(v, tx.sender).0,
                known_info(v, tx.sender).1,
            ),
            selected.drop_last(),
        )
    }
}

/// The pool after the selection with the given draws.
pub open spec fn packed_pool(
    v: PoolView,
    draws: Seq<(u128, PackingCheckResult)>,
    gas_limit: nat,
    size_limit: nat,
) -> PoolView {
    let s = pack_run(v, draws, gas_limit, size_limit);
    unpacked_all(recycled(s.pool, s.recycle), s.selected)
}

} // verus!
