//! The transaction pool: the pending transactions by sender and nonce, the
//! ready transaction of each sender, what the pool knows of each sender's
//! account, the order of eviction, and the transactions by hash.

use crate::deferred_pool::{
    bucket_of, bucket_ok, buckets_ok, resident, total_len, total_unpacked, DeferredPool,
};
use crate::garbage_collector::{
    gc_total, is_top, nodes_ok, top_node, GarbageCollector, GarbageCollectorNode,
};
use crate::nonce_lemmas::{
    lemma_count_below_len, lemma_entry_at_index, lemma_entry_at_none, lemma_insert, unpacked_one,
};
use crate::nonce_pool::{
    all_present, count_below, insert_outcome, nonce_of, pending_reason, transactions_of,
};
use crate::outside::{current_timestamp, ThreadRandom};
use crate::pool_lemmas::{
    lemma_after_gc_ok, lemma_bucket_len, lemma_empty_ok, lemma_evict_ok, lemma_flip,
    lemma_insert_final_facts, lemma_insert_ok, lemma_packed_step, lemma_packing_end,
    lemma_packing_start, lemma_popped, lemma_recycled, lemma_stale_at_most_all, lemma_unpack_ready,
    lemma_unpacked_step, lemma_with_info_ok, lemma_with_ready_ok,
};
use crate::pool_model::{
    added, calls_contract, checked_insertion, collected, core_ok, empty_view, entry_of, evict,
    flipped, gas_sum, hash_fresh, hash_resident, insert_answer, insert_final, insert_state,
    insert_verdict, known_info, notified, pack_draws, pack_finished, pack_run, packable,
    packed_pool, packing_state, passes, pick_victim, pool_ok, pool_ok_but, possible_sponsorship,
    sponsorship_for,
    recycled, replaced, size_sum, sponsorship, unpacked_all, victim, with_info, with_ready,
    Account, PackState, PoolView, BIG_TX_RESAMPLE_LIMIT,
    FURTHEST_FUTURE_TRANSACTION_NONCE_OFFSET, GC_CHECK_COUNT,
};
use crate::ready_pool::ReadyAccountPool;
use crate::types::{
    AccountStateOracle, Action, Address, InsertError, InsertResult, OracleError, PackingCheckResult,
    PackingRecheck, RandomSource, SignedTransaction, SponsorInfo, TransactionStatus,
    TxWithReadyInfo, DRIPS_PER_STORAGE_COLLATERAL_UNIT, H256,
};
use crate::u256::{lemma_u256_view, pow2_128, pow2_256, U256};
use crate::vec_map::{MapKey, VecMap};
use vstd::prelude::*;

verus! {

/// The transaction pool.
pub struct TransactionPoolInner {
    capacity: usize,
    total_received_count: usize,
    unpacked_transaction_count: usize,
    /// All transactions of the pool by sender and nonce. Packed and executed
    /// transactions stay until they are evicted.
    deferred_pool: DeferredPool,
    /// The first unpacked ready transaction of each sender that has one.
    ready_account_pool: ReadyAccountPool,
    /// The latest nonce and balance in the state that the pool knows of
    /// each sender.
    ready_nonces_and_balances: VecMap<Address, (U256, U256)>,
    garbage_collector: GarbageCollector,
    /// All transactions of the pool by hash: the same transactions as in
    /// `deferred_pool`.
    txs: VecMap<H256, SignedTransaction>,
    /// What a sponsor pays for each transaction, by hash.
    tx_sponsored_gas_map: VecMap<H256, (U256, u64)>,
}

impl View for TransactionPoolInner {
    type V = PoolView;

    closed spec fn view(&self) -> PoolView {
        PoolView {
            capacity: self.capacity as nat,
            scaling: self.ready_account_pool.spec_scaling(),
            exp: self.ready_account_pool.spec_exp(),
            total_received: self.total_received_count as nat,
            unpacked: self.unpacked_transaction_count as nat,
            deferred: self.deferred_pool@,
            ready: self.ready_account_pool@,
            order: self.ready_account_pool.order(),
            info: self.ready_nonces_and_balances@,
            gc: self.garbage_collector@,
            txs: self.txs@,
            sponsored: self.tx_sponsored_gas_map@,
        }
    }
}

impl TransactionPoolInner {
    /// Whether the parts of the pool are well formed.
    pub closed spec fn parts_wf(&self) -> bool {
        &&& self.deferred_pool.wf()
        &&& self.ready_account_pool.wf()
        &&& self.ready_nonces_and_balances.wf()
        &&& self.garbage_collector.wf()
        &&& self.txs.wf()
        &&& self.tx_sponsored_gas_map.wf()
    }

    /// The invariant of the pool.
    pub open spec fn wf(&self) -> bool {
        &&& self.parts_wf()
        &&& pool_ok(self@)
    }

    /// The invariant of the pool while the ready transaction of one sender
    /// awaits its recalculation.
    pub open spec fn wf_but(&self, s: Address) -> bool {
        &&& self.parts_wf()
        &&& pool_ok_but(self@, s)
    }

    /// A pool without transactions.
    pub fn new(capacity: usize, tx_weight_scaling: u64, tx_weight_exp: u8) -> (r:
        TransactionPoolInner)
        requires
            tx_weight_scaling > 0,
        ensures
            r.wf(),
            r@ == empty_view(capacity as nat, tx_weight_scaling as nat, tx_weight_exp as nat),
    {
        let r = TransactionPoolInner {
            capacity,
            total_received_count: 0,
            unpacked_transaction_count: 0,
            deferred_pool: DeferredPool::new(),
            ready_account_pool: ReadyAccountPool::new(tx_weight_scaling, tx_weight_exp),
            ready_nonces_and_balances: VecMap::new(),
            garbage_collector: GarbageCollector::new(),
            txs: VecMap::new(),
            tx_sponsored_gas_map: VecMap::new(),
        };
        proof {
            lemma_empty_ok(capacity as nat, tx_weight_scaling as nat, tx_weight_exp as nat);
        }
        r
    }

    /// Removes every transaction and resets the counters.
    pub fn clear(&mut self)
        requires
            old(self).wf(),
        ensures
            final(self).wf(),
            final(self)@ == empty_view(old(self)@.capacity, old(self)@.scaling, old(self)@.exp),
    {
        self.deferred_pool.clear();
        self.ready_account_pool.clear();
        self.ready_nonces_and_balances.clear();
        self.garbage_collector.clear();
        self.txs.clear();
        self.tx_sponsored_gas_map.clear();
        self.total_received_count = 0;
        self.unpacked_transaction_count = 0;
        proof {
            reveal(core_ok);
            lemma_empty_ok(old(self)@.capacity, old(self)@.scaling, old(self)@.exp);
        }
    }

    /// The number of transactions in the pool.
    pub fn total_deferred(&self) -> (n: usize)
        requires
            self.wf(),
        ensures
            n == self@.txs.len(),
            n == total_len(self@.deferred),
            n <= self@.capacity,
    {
        proof {
            reveal(core_ok);
        }
        self.txs.len()
    }

    /// The number of senders with a ready transaction.
    pub fn total_ready_accounts(&self) -> (n: usize)
        requires
            self.wf(),
        ensures
            n == self@.ready.len(),
    {
        self.ready_account_pool.len()
    }

    /// The number of transactions received.
    pub fn total_received(&self) -> (n: usize)
        ensures
            n == self@.total_received,
    {
        self.total_received_count
    }

    /// The number of transactions that are not packed.
    pub fn total_unpacked(&self) -> (n: usize)
        ensures
            n == self@.unpacked,
    {
        self.unpacked_transaction_count
    }

    /// The most transactions that the pool holds.
    pub fn capacity(&self) -> (n: usize)
        ensures
            n == self@.capacity,
    {
        self.capacity
    }

    /// The transaction with the hash.
    pub fn get(&self, tx_hash: &H256) -> (r: Option<SignedTransaction>)
        requires
            self.wf(),
        ensures
            r == (if self@.txs.contains_key(*tx_hash) {
                Some(self@.txs[*tx_hash])
            } else {
                None
            }),
    {
        match self.txs.get(tx_hash) {
            Some(tx) => Some(*tx),
            None => None,
        }
    }

    /// The transaction of the sender with the nonce.
    pub fn get_by_address2nonce(&self, address: Address, nonce: U256) -> (r: Option<
        SignedTransaction,
    >)
        requires
            self.wf(),
        ensures
            r == (match resident(self@.deferred, address, nonce@) {
                Some(e) => Some(e.transaction),
                None => None,
            }),
    {
        match self.deferred_pool.get_tx_by_nonce(&address, &nonce) {
            Some(e) => Some(e.transaction),
            None => None,
        }
    }

    /// Whether the pool holds as many transactions as it may.
    pub fn is_full(&self) -> (b: bool)
        requires
            self.wf(),
        ensures
            b == (self@.txs.len() >= self@.capacity),
    {
        self.txs.len() >= self.capacity
    }

    /// The seconds since the Unix epoch by the system clock.
    pub fn get_current_timestamp(&self) -> u64 {
        current_timestamp()
    }

    /// The number of transactions that the pool can still take: the room
    /// left, and the transactions that an eviction removes for free because
    /// their nonce is below their sender's.
    pub fn remaining_quota(&self) -> (n: usize)
        requires
            self.wf(),
        ensures
            n == self@.capacity - self@.txs.len() + gc_total(self@.gc),
    {
        proof {
            lemma_stale_at_most_all(self@);
        }
        let len: usize = self.total_deferred();
        self.capacity - len + self.garbage_collector.gc_size()
    }

    /// The nonce and the balance that the pool knows of the account.
    pub fn get_local_nonce_and_balance(&self, address: &Address) -> (r: Option<(U256, U256)>)
        requires
            self.wf(),
        ensures
            r == (if self@.info.contains_key(*address) {
                Some(self@.info[*address])
            } else {
                None
            }),
    {
        match self.ready_nonces_and_balances.get(address) {
            Some(x) => Some(*x),
            None => None,
        }
    }

    /// The lower of the nonce that the pool knows of the account and the
    /// lowest nonce of its transactions; zero for an account without
    /// transactions.
    pub fn get_lowest_nonce(&self, addr: &Address) -> (r: U256)
        requires
            self.wf(),
        ensures
            r@ == (if self@.deferred.contains_key(*addr) {
                if nonce_of(self@.deferred[*addr][0]) < self@.info[*addr].0@ {
                    nonce_of(self@.deferred[*addr][0])
                } else {
                    self@.info[*addr].0@
                }
            } else {
                0
            }),
    {
        let mut ret: U256 = U256::zero();
        match self.get_local_nonce_and_balance(addr) {
            Some((nonce, _)) => {
                ret = nonce;
            },
            None => {},
        }
        match self.deferred_pool.get_lowest_nonce(addr) {
            Some(nonce) => {
                if nonce.lt(&ret) {
                    ret = nonce;
                }
            },
            None => {},
        }
        proof {
            reveal(core_ok);
            assert(self@.info.contains_key(*addr) <==> self@.deferred.contains_key(*addr));
            if self@.deferred.contains_key(*addr) {
                assert(bucket_ok(*addr, self@.deferred[*addr]));
            }
        }
        ret
    }

    /// The nonce that the sender should use next: the first nonce at or
    /// after `state_nonce` for which the pool holds no transaction of the
    /// sender.
    pub fn get_next_nonce(&self, address: &Address, state_nonce: U256) -> (r: U256)
        requires
            self.wf(),
        ensures
            state_nonce@ <= r@,
            all_present(bucket_of(self@.deferred, *address), state_nonce@, r@),
            resident(self@.deferred, *address, r@).is_none() || r@ == U256::spec_max(),
    {
        match self.deferred_pool.last_succ_nonce(*address, state_nonce) {
            Some(n) => n,
            None => {
                proof {
                    lemma_entry_at_none(
                        bucket_of(self@.deferred, *address),
                        state_nonce@,
                    );
                }
                state_nonce
            },
        }
    }

    /// Whether the pool holds the transaction with the hash as a packed one.
    pub fn check_tx_packed_in_deferred_pool(&self, tx_hash: &H256) -> (b: bool)
        requires
            self.wf(),
        ensures
            b == (self@.txs.contains_key(*tx_hash) && match resident(
                self@.deferred,
                self@.txs[*tx_hash].sender,
                self@.txs[*tx_hash].nonce@,
            ) {
                Some(e) => e.packed,
                None => false,
            }),
    {
        match self.txs.get(tx_hash) {
            Some(tx) => self.deferred_pool.check_tx_packed(tx.sender, tx.nonce),
            None => false,
        }
    }

    /// Makes the nonce and the balance of a sender known to the pool.
    fn update_nonce_and_balance(&mut self, address: &Address, nonce: U256, balance: U256, now: u64)
        requires
            old(self).parts_wf(),
        ensures
            final(self).parts_wf(),
            final(self)@ == with_info(old(self)@, *address, nonce, balance, now),
    {
        if !self.deferred_pool.contain_address(address) {
            return;
        }
        let count: usize = self.deferred_pool.count_less(address, &nonce);
        let timestamp: u64 = match self.garbage_collector.get_timestamp(address) {
            Some(t) => t,
            None => now,
        };
        self.garbage_collector.insert(address, count, timestamp);
        self.ready_nonces_and_balances.insert(*address, (nonce, balance));
    }

    /// Lists the transaction of a sender that is ready for the given nonce
    /// and balance, or none if none is.
    fn refresh_ready(&mut self, addr: &Address, nonce: U256, balance: U256)
        requires
            old(self).parts_wf(),
        ensures
            final(self).parts_wf(),
            final(self)@ == with_ready(old(self)@, *addr, nonce, balance),
    {
        let ret = self.deferred_pool.recalculate_readiness_with_local_info(addr, nonce, balance);
        self.ready_account_pool.update(addr, ret);
    }

    /// Recalculates the ready transaction of a sender from the nonce and the
    /// balance that the pool knows of it.
    fn recalculate_readiness_with_local_info(&mut self, addr: &Address)
        requires
            old(self).wf_but(*addr),
        ensures
            final(self).wf(),
            final(self)@ == with_ready(
                old(self)@,
                *addr,
                known_info(old(self)@, *addr).0,
                known_info(old(self)@, *addr).1,
            ),
    {
        let (nonce, balance) = match self.ready_nonces_and_balances.get(addr) {
            Some(x) => *x,
            None => (U256::zero(), U256::zero()),
        };
        proof {
            reveal(core_ok);
            assert(self@.info.contains_key(*addr) <==> self@.deferred.contains_key(*addr));
            lemma_with_ready_ok(self@, *addr, nonce, balance);
        }
        self.refresh_ready(addr, nonce, balance);
    }

    /// Makes the nonce and the balance of a sender known to the pool and
    /// recalculates the sender's ready transaction.
    fn recalculate_readiness_with_fixed_info(
        &mut self,
        addr: &Address,
        nonce: U256,
        balance: U256,
        now: u64,
    )
        requires
            old(self).wf_but(*addr),
        ensures
            final(self).wf(),
            final(self)@ == with_ready(
                with_info(old(self)@, *addr, nonce, balance, now),
                *addr,
                nonce,
                balance,
            ),
    {
        proof {
            lemma_with_info_ok(self@, *addr, nonce, balance, now);
            lemma_with_ready_ok(
                with_info(self@, *addr, nonce, balance, now),
                *addr,
                nonce,
                balance,
            );
        }
        self.update_nonce_and_balance(addr, nonce, balance, now);
        self.refresh_ready(addr, nonce, balance);
    }

    /// Makes the accounts that a block has changed known to the pool, at the
    /// time `now`.
    pub fn notify_modified_accounts_at(&mut self, accounts_from_execution: &Vec<Account>, now: u64)
        requires
            old(self).wf(),
        ensures
            final(self).wf(),
            final(self)@ == notified(old(self)@, accounts_from_execution@, now),
    {
        let mut i: usize = 0;
        while i < accounts_from_execution.len()
            invariant
                self.wf(),
                i <= accounts_from_execution@.len(),
                self@ == notified(old(self)@, accounts_from_execution@.subrange(0, i as int), now),
            decreases accounts_from_execution@.len() - i,
        {
            let account: Account = accounts_from_execution[i];
            self.recalculate_readiness_with_fixed_info(
                &account.address,
                account.nonce,
                account.balance,
                now,
            );
            i = i + 1;
            proof {
                let done = accounts_from_execution@.subrange(0, i as int);
                assert(done.drop_last() =~= accounts_from_execution@.subrange(0, i - 1));
                assert(done.last() == account);
            }
        }
        assert(accounts_from_execution@.subrange(0, i as int) =~= accounts_from_execution@);
    }

    /// Makes the accounts that a block has changed known to the pool, at the
    /// time that the system clock shows.
    pub fn notify_modified_accounts(&mut self, accounts_from_execution: Vec<Account>)
        requires
            old(self).wf(),
        ensures
            final(self).wf(),
            exists|now: u64| final(self)@ == notified(old(self)@, accounts_from_execution@, now),
    {
        let now: u64 = self.get_current_timestamp();
        self.notify_modified_accounts_at(&accounts_from_execution, now);
    }

    /// Picks the victim of a round of eviction and takes it out of the order
    /// of eviction.
    fn select_victim(&mut self, new_tx: &SignedTransaction) -> (r: Option<GarbageCollectorNode>)
        requires
            old(self).parts_wf(),
            forall|a: Address| #[trigger]
                old(self)@.gc.contains_key(a) ==> old(self)@.deferred.contains_key(a),
        ensures
            final(self).parts_wf(),
            r == victim(old(self)@, *new_tx),
            match r {
                Some(n) => old(self)@.gc.contains_key(n.sender) && old(self)@.gc[n.sender] == n
                    && final(self)@ == (PoolView {
                    gc: old(self)@.gc.remove(n.sender),
                    ..old(self)@
                }),
                None => final(self)@ == old(self)@,
            },
    {
        let ghost v0 = self@;
        let ghost gc0 = self.garbage_collector@;
        let ghost d = self.deferred_pool@;
        let mut cnt: usize = GC_CHECK_COUNT;
        let mut popped: Vec<GarbageCollectorNode> = Vec::new();
        let mut best: Option<GarbageCollectorNode> = None;
        let mut min_gas_price: U256 = new_tx.gas_price;
        let mut done: bool = false;
        proof {
            self.garbage_collector.lemma_wf();
            self.deferred_pool.lemma_wf();
        }
        while !done
            invariant
                self.parts_wf(),
                nodes_ok(gc0),
                buckets_ok(d),
                d == v0.deferred,
                gc0 == v0.gc,
                self@ == (PoolView { gc: self.garbage_collector@, ..v0 }),
                forall|a: Address| #[trigger] gc0.contains_key(a) ==> d.contains_key(a),
                forall|a: Address| #[trigger]
                    self.garbage_collector@.contains_key(a) ==> gc0.contains_key(a)
                        && self.garbage_collector@[a] == gc0[a],
                forall|a: Address| #[trigger]
                    gc0.contains_key(a) ==> self.garbage_collector@.contains_key(a) || exists|
                        j: int,
                    |
                        0 <= j < popped@.len() && (#[trigger] popped@[j]).sender == a,
                forall|j: int|
                    #![trigger popped@[j]]
                    0 <= j < popped@.len() ==> gc0.contains_key(popped@[j].sender)
                        && gc0[popped@[j].sender] == popped@[j]
                        && !self.garbage_collector@.contains_key(popped@[j].sender),
                match best {
                    Some(b) => exists|j: int| 0 <= j < popped@.len() && #[trigger] popped@[j] == b,
                    None => true,
                },
                self.garbage_collector@.dom().finite(),
                done ==> victim(v0, *new_tx) == best,
                !done ==> victim(v0, *new_tx) == pick_victim(
                    self.garbage_collector@,
                    d,
                    *new_tx,
                    cnt as nat,
                    min_gas_price@,
                    best,
                ),
            decreases
                    (if done {
                        0
                    } else {
                        self.garbage_collector@.len() + 1
                    }),
        {
            if cnt == 0 {
                done = true;
            } else {
                let ghost gc_before = self.garbage_collector@;
                let ghost popped_before = popped@;
                match self.garbage_collector.pop() {
                    None => {
                        done = true;
                    },
                    Some(node) => {
                        proof {
                            assert(is_top(gc_before, node)) by {
                                assert(top_node(gc_before) == Some(node));
                            }
                            assert(gc_before.contains_key(node.sender));
                            assert(gc0.contains_key(node.sender));
                            assert(self.garbage_collector@.dom() =~= gc_before.dom().remove(
                                node.sender,
                            ));
                        }
                        let present: bool = self.deferred_pool.contain_address(&node.sender);
                        assert(present);
                        popped.push(node);
                        proof {
                            assert(popped@[popped_before.len() as int] == node);
                            assert forall|j: int|
                                #![trigger popped@[j]]
                                0 <= j < popped@.len() implies gc0.contains_key(popped@[j].sender)
                                && gc0[popped@[j].sender] == popped@[j]
                                && !self.garbage_collector@.contains_key(popped@[j].sender) by {
                                if j < popped_before.len() {
                                    assert(popped@[j] == popped_before[j]);
                                }
                            }
                            assert forall|a: Address| #[trigger]
                                gc0.contains_key(a) implies self.garbage_collector@.contains_key(a)
                                || exists|j: int|
                                0 <= j < popped@.len() && (#[trigger] popped@[j]).sender == a by {
                                if a == node.sender {
                                    assert(popped@[popped_before.len() as int].sender == a);
                                } else if !gc_before.contains_key(a) {
                                    let j = choose|j: int|
                                        0 <= j < popped_before.len() && (
                                        #[trigger] popped_before[j]).sender == a;
                                    assert(popped@[j] == popped_before[j]);
                                }
                            }
                            match best {
                                Some(b) => {
                                    let j = choose|j: int|
                                        0 <= j < popped_before.len() && #[trigger] popped_before[j]
                                            == b;
                                    assert(popped@[j] == b);
                                },
                                None => {},
                            }
                        }
                        if node.count > 0 {
                            best = Some(node);
                            done = true;
                        } else if node.sender.same_key(&new_tx.sender) {
                        } else {
                            let lowest = self.deferred_pool.get_lowest_nonce_tx(&node.sender);
                            match lowest {
                                Some(to_remove_tx) => {
                                    if to_remove_tx.gas_price.lt(&min_gas_price) {
                                        min_gas_price = to_remove_tx.gas_price;
                                        best = Some(node);
                                    }
                                },
                                None => {},
                            }
                            cnt = cnt - 1;
                        }
                    },
                }
            }
        }
        let mut i: usize = 0;
        while i < popped.len()
            invariant
                self.parts_wf(),
                nodes_ok(gc0),
                gc0 == v0.gc,
                i <= popped@.len(),
                self@ == (PoolView { gc: self.garbage_collector@, ..v0 }),
                forall|a: Address| #[trigger]
                    self.garbage_collector@.contains_key(a) ==> gc0.contains_key(a)
                        && self.garbage_collector@[a] == gc0[a] && (match best {
                        Some(b) => b.sender != a,
                        None => true,
                    }),
                forall|a: Address| #[trigger]
                    gc0.contains_key(a) ==> self.garbage_collector@.contains_key(a) || (match best {
                        Some(b) => b.sender == a,
                        None => false,
                    }) || exists|j: int|
                        i <= j < popped@.len() && (#[trigger] popped@[j]).sender == a,
                forall|j: int|
                    #![trigger popped@[j]]
                    0 <= j < popped@.len() ==> gc0.contains_key(popped@[j].sender)
                        && gc0[popped@[j].sender] == popped@[j],
                match best {
                    Some(b) => gc0.contains_key(b.sender) && gc0[b.sender] == b,
                    None => true,
                },
            decreases popped@.len() - i,
        {
            let node: GarbageCollectorNode = popped[i];
            let skip: bool = match best {
                Some(b) => node.sender.same_key(&b.sender),
                None => false,
            };
            let ghost gc_before = self.garbage_collector@;
            if !skip {
                self.garbage_collector.insert(&node.sender, node.count, node.timestamp);
            }
            proof {
                assert(gc0[node.sender] == node);
                assert forall|a: Address| #[trigger]
                    gc0.contains_key(a) implies self.garbage_collector@.contains_key(a) || (
                match best {
                    Some(b) => b.sender == a,
                    None => false,
                }) || exists|j: int|
                    i + 1 <= j < popped@.len() && (#[trigger] popped@[j]).sender == a by {
                    if !gc_before.contains_key(a) && !(match best {
                        Some(b) => b.sender == a,
                        None => false,
                    }) {
                        let j = choose|j: int|
                            i <= j < popped@.len() && (#[trigger] popped@[j]).sender == a;
                        if j == i {
                            assert(self.garbage_collector@.contains_key(a));
                        }
                    }
                }
            }
            i = i + 1;
        }
        proof {
            match best {
                Some(b) => {
                    assert(self.garbage_collector@ =~= gc0.remove(b.sender));
                },
                None => {
                    assert(self.garbage_collector@ =~= gc0);
                },
            }
        }
        best
    }

    /// Evicts the lowest transaction of the victim's sender.
    fn evict_lowest(&mut self, victim: GarbageCollectorNode, now: u64)
        requires
            old(self).parts_wf(),
            old(self)@.deferred.contains_key(victim.sender),
            !old(self)@.gc.contains_key(victim.sender),
        ensures
            final(self).parts_wf(),
            final(self)@ == evict(old(self)@, victim, now),
    {
        let addr: Address = victim.sender;
        let ghost v0 = self@;
        proof {
            self.deferred_pool.lemma_wf();
            assert(bucket_ok(addr, v0.deferred[addr]));
            lemma_entry_at_index(v0.deferred[addr], 0);
        }
        let to_remove_tx: SignedTransaction = match self.deferred_pool.get_lowest_nonce_tx(&addr) {
            Some(tx) => tx,
            None => {
                return;
            },
        };
        match self.ready_account_pool.get(&addr) {
            Some(ready_tx) => {
                if ready_tx.hash.same_key(&to_remove_tx.hash) {
                    self.ready_account_pool.remove(&addr);
                }
            },
            None => {},
        }
        if !self.deferred_pool.check_tx_packed(addr, to_remove_tx.nonce) {
            self.unpacked_transaction_count = match self.unpacked_transaction_count.checked_sub(1) {
                Some(n) => n,
                None => 0,
            };
        }
        self.deferred_pool.remove_lowest_nonce(&addr);
        if !self.deferred_pool.contain_address(&addr) {
            self.ready_nonces_and_balances.remove(&addr);
        } else {
            let count: usize = if victim.count > 0 {
                victim.count - 1
            } else {
                0
            };
            self.garbage_collector.insert(&addr, count, now);
        }
        self.txs.remove(&to_remove_tx.hash);
        self.tx_sponsored_gas_map.remove(&to_remove_tx.hash);
        proof {
            let w = evict(v0, victim, now);
            assert(self@.gc =~= w.gc);
            assert(self@.info =~= w.info);
            assert(self@.ready =~= w.ready);
        }
    }

    /// Makes what room it can for a new transaction, at the time `now`.
    pub fn collect_garbage_at(&mut self, new_tx: &SignedTransaction, now: u64)
        requires
            old(self).wf(),
        ensures
            final(self).wf(),
            final(self)@ == collected(old(self)@, *new_tx, now),
    {
        while self.is_full() && !self.garbage_collector.is_empty()
            invariant
                self.wf(),
                collected(self@, *new_tx, now) == collected(old(self)@, *new_tx, now),
            decreases self@.txs.len(),
        {
            let ghost v = self@;
            proof {
                reveal(core_ok);
                assert forall|a: Address| #[trigger] v.gc.contains_key(a) implies v.deferred.contains_key(
                    a,
                ) by {}
            }
            let victim: GarbageCollectorNode = match self.select_victim(new_tx) {
                Some(n) => n,
                None => {
                    return;
                },
            };
            proof {
                lemma_evict_ok(v, victim, now);
                let mid = PoolView { gc: v.gc.remove(victim.sender), ..v };
                assert(evict(mid, victim, now).gc =~= evict(v, victim, now).gc);
                assert(evict(mid, victim, now) == evict(v, victim, now));
            }
            self.evict_lowest(victim, now);
        }
    }

    /// Makes what room it can for a new transaction, at the time that the
    /// system clock shows.
    pub fn collect_garbage(&mut self, new_tx: &SignedTransaction)
        requires
            old(self).wf(),
        ensures
            final(self).wf(),
            exists|now: u64| final(self)@ == collected(old(self)@, *new_tx, now),
    {
        let now: u64 = self.get_current_timestamp();
        self.collect_garbage_at(new_tx, now);
    }

    /// Puts an entry into its sender's bucket and, if the bucket takes it,
    /// into the maps by hash and the counters.
    fn insert_entry(
        &mut self,
        entry: TxWithReadyInfo,
        force: bool,
        state_nonce_and_balance: Option<(U256, U256)>,
        now: u64,
    ) -> (r: InsertResult)
        requires
            old(self).parts_wf(),
            match insert_outcome(
                bucket_of(old(self)@.deferred, entry.transaction.sender),
                entry,
                force,
            ) {
                InsertResult::NewAdded => old(self)@.unpacked < usize::MAX,
                InsertResult::Updated(prev) => old(self)@.unpacked >= unpacked_one(prev) && old(
                    self,
                )@.unpacked - unpacked_one(prev) + unpacked_one(entry) <= usize::MAX,
                InsertResult::Failed(_) => true,
            },
        ensures
            final(self).parts_wf(),
            r == insert_outcome(
                bucket_of(old(self)@.deferred, entry.transaction.sender),
                entry,
                force,
            ),
            final(self)@ == (match r {
                InsertResult::NewAdded => added(old(self)@, entry, state_nonce_and_balance, now),
                InsertResult::Updated(prev) => replaced(old(self)@, entry, prev),
                InsertResult::Failed(_) => old(self)@,
            }),
    {
        let transaction: SignedTransaction = entry.transaction;
        let sponsored: (U256, u64) = (entry.sponsored_gas, entry.sponsored_storage);
        let ghost w = self@;
        proof {
            self.deferred_pool.lemma_wf();
            if w.deferred.contains_key(transaction.sender) {
                assert(bucket_ok(transaction.sender, w.deferred[transaction.sender]));
            }
            lemma_insert(bucket_of(w.deferred, transaction.sender), entry, force, 0);
        }
        let result = self.deferred_pool.insert(entry, force);
        let replaced_tx: Option<TxWithReadyInfo> = match &result {
            InsertResult::Updated(prev) => Some(*prev),
            _ => None,
        };
        let new_added: bool = match &result {
            InsertResult::NewAdded => true,
            _ => false,
        };
        if new_added {
            match state_nonce_and_balance {
                Some((state_nonce, state_balance)) => {
                    self.update_nonce_and_balance(
                        &transaction.sender,
                        state_nonce,
                        state_balance,
                        now,
                    );
                },
                None => {},
            }
            self.txs.insert(transaction.hash, transaction);
            self.tx_sponsored_gas_map.insert(transaction.hash, sponsored);
            if !entry.packed {
                self.unpacked_transaction_count = self.unpacked_transaction_count + 1;
            }
        } else {
            match replaced_tx {
                Some(prev) => {
                    if !prev.is_already_packed() {
                        self.unpacked_transaction_count =
                        match self.unpacked_transaction_count.checked_sub(1) {
                            Some(n) => n,
                            None => 0,
                        };
                    }
                    self.txs.remove(&prev.transaction.hash);
                    self.txs.insert(transaction.hash, transaction);
                    self.tx_sponsored_gas_map.remove(&prev.transaction.hash);
                    self.tx_sponsored_gas_map.insert(transaction.hash, sponsored);
                    if !entry.packed {
                        self.unpacked_transaction_count = self.unpacked_transaction_count + 1;
                    }
                },
                None => {
                    assert(self@.deferred =~= w.deferred);
                },
            }
        }
        result
    }

    /// Puts a transaction into the pool, at the time `now`, without looking
    /// at the sender's nonce. For a sender and nonce that the pool does not
    /// hold, garbage collection runs first, and the transaction is refused if
    /// the pool stays full. The sender's ready transaction is left to be
    /// recalculated.
    fn insert_transaction_without_readiness_check(
        &mut self,
        transaction: SignedTransaction,
        packed: bool,
        force: bool,
        state_nonce_and_balance: Option<(U256, U256)>,
        sponsored: (U256, u64),
        now: u64,
    ) -> (r: InsertResult)
        requires
            old(self).wf(),
            hash_fresh(old(self)@, transaction),
            state_nonce_and_balance.is_some() || resident(
                old(self)@.deferred,
                transaction.sender,
                transaction.nonce@,
            ).is_some(),
        ensures
            final(self).wf_but(transaction.sender),
            r == insert_answer(old(self)@, entry_of(transaction, packed, sponsored), force, now),
            final(self)@ == insert_state(
                old(self)@,
                entry_of(transaction, packed, sponsored),
                force,
                state_nonce_and_balance,
                now,
            ),
    {
        let entry = TxWithReadyInfo {
            transaction,
            packed,
            sponsored_gas: sponsored.0,
            sponsored_storage: sponsored.1,
        };
        let ghost v0 = self@;
        proof {
            lemma_after_gc_ok(v0, entry, now);
        }
        if !self.deferred_pool.check_sender_and_nonce_exists(
            &transaction.sender,
            &transaction.nonce,
        ) {
            self.collect_garbage_at(&transaction, now);
            if self.is_full() {
                return InsertResult::Failed(InsertError::PoolFull);
            }
        }
        let ghost w = self@;
        proof {
            lemma_insert_ok(w, entry, force, state_nonce_and_balance, now);
        }
        self.insert_entry(entry, force, state_nonce_and_balance, now)
    }

    /// Whether the pool can take the transaction: its hash is free, or
    /// listed for the transaction's own sender and nonce.
    pub fn accepts_hash(&self, transaction: &SignedTransaction) -> (b: bool)
        requires
            self.wf(),
        ensures
            b == hash_fresh(self@, *transaction),
    {
        match self.txs.get(&transaction.hash) {
            Some(listed) => listed.sender.same_key(&transaction.sender) && listed.nonce.same(
                &transaction.nonce,
            ),
            None => true,
        }
    }

    /// The gas and the storage of a transaction that a sponsor with the
    /// given means pays for.
    pub fn sponsored_amounts(transaction: &SignedTransaction, sponsor_info: &SponsorInfo) -> (r: (
        U256,
        u64,
    ))
        ensures
            r == sponsorship(*transaction, *sponsor_info),
    {
        let cap: U256 = U256::from_u128(u128::MAX);
        let estimated_gas: U256 = match transaction.gas.checked_mul(&transaction.gas_price) {
            Some(product) => if cap.lt(&product) {
                cap
            } else {
                product
            },
            None => {
                proof {
                    assert(pow2_256() > u128::MAX) by (nonlinear_arith)
                        requires
                            pow2_256() == pow2_128() * pow2_128(),
                            pow2_128() > u128::MAX,
                    ;
                }
                cap
            },
        };
        let sponsored_gas: U256 = if estimated_gas.le(&sponsor_info.sponsor_gas_bound)
            && estimated_gas.le(&sponsor_info.sponsor_balance_for_gas) {
            transaction.gas
        } else {
            U256::zero()
        };
        proof {
            assert(transaction.storage_limit as nat * DRIPS_PER_STORAGE_COLLATERAL_UNIT as nat
                <= 0xFFFF_FFFF_FFFF_FFFF * 976_562_500_000_000) by (nonlinear_arith)
                requires
                    DRIPS_PER_STORAGE_COLLATERAL_UNIT == 976_562_500_000_000,
                    transaction.storage_limit <= 0xFFFF_FFFF_FFFF_FFFF,
            ;
            lemma_u256_view(sponsored_gas, U256 { hi: 0, lo: 0 });
        }
        let estimated_collateral: U256 = U256::from_u128(
            (transaction.storage_limit as u128) * (DRIPS_PER_STORAGE_COLLATERAL_UNIT as u128),
        );
        let sponsored_storage: u64 = if estimated_collateral.le(
            &sponsor_info.sponsor_balance_for_collateral,
        ) {
            transaction.storage_limit
        } else {
            0
        };
        (sponsored_gas, sponsored_storage)
    }

    /// Puts a transaction into the pool, given the sender's nonce and balance
    /// in the state, what a sponsor pays for, and the time. A transaction
    /// whose nonce is too far ahead of the state's, or behind it without
    /// being packed, is turned away. So is one for which the pool has no room
    /// even after garbage collection, and one that may not replace the
    /// transaction that the pool holds for its sender and nonce.
    pub fn insert_transaction_with_state(
        &mut self,
        transaction: SignedTransaction,
        packed: bool,
        force: bool,
        sponsored: (U256, u64),
        state_nonce: U256,
        state_balance: U256,
        now: u64,
    ) -> (r: Result<(), InsertError>)
        requires
            old(self).wf(),
            hash_fresh(old(self)@, transaction),
        ensures
            final(self).wf(),
            r == insert_verdict(
                old(self)@,
                entry_of(transaction, packed, sponsored),
                force,
                state_nonce,
                now,
            ),
            final(self)@ == insert_final(
                old(self)@,
                entry_of(transaction, packed, sponsored),
                force,
                (state_nonce, state_balance),
                now,
            ),
    {
        let too_far: bool = match state_nonce.checked_add(
            &U256::from_u64(FURTHEST_FUTURE_TRANSACTION_NONCE_OFFSET as u64),
        ) {
            Some(limit) => limit.le(&transaction.nonce),
            None => {
                proof {
                    lemma_u256_view(transaction.nonce, transaction.nonce);
                }
                false
            },
        };
        if too_far {
            return Err(InsertError::TooFarFuture);
        }
        if !packed && transaction.nonce.lt(&state_nonce) {
            return Err(InsertError::StaleNonce);
        }
        let ghost v0 = self@;
        let ghost e = entry_of(transaction, packed, sponsored);
        proof {
            lemma_after_gc_ok(v0, e, now);
        }
        let result = self.insert_transaction_without_readiness_check(
            transaction,
            packed,
            force,
            Some((state_nonce, state_balance)),
            sponsored,
            now,
        );
        match result {
            InsertResult::Failed(info) => {
                return Err(info);
            },
            _ => {},
        }
        self.recalculate_readiness_with_local_info(&transaction.sender);
        Ok(())
    }

    /// What a sponsor pays for a transaction, given what the account state
    /// says of the called contract: its sponsor, if it has one, and whether
    /// the sponsor pays for the sender.
    pub fn decide_sponsorship(
        transaction: &SignedTransaction,
        sponsor: Option<SponsorInfo>,
        privileged: bool,
    ) -> (r: (U256, u64))
        ensures
            r == sponsorship_for(*transaction, sponsor, privileged),
    {
        let to_contract: bool = match transaction.action {
            Action::Call(callee) => callee.maybe_contract_address(),
            Action::Create => false,
        };
        match sponsor {
            Some(sponsor_info) => {
                if to_contract && privileged {
                    Self::sponsored_amounts(transaction, &sponsor_info)
                } else {
                    (U256::zero(), 0)
                }
            },
            None => (U256::zero(), 0),
        }
    }

    /// What a sponsor pays for a transaction, by the account state. The
    /// account state is asked for the sponsor only of a transaction that
    /// calls a contract, and for the privilege only where there is a sponsor.
    fn resolve_sponsorship<O: AccountStateOracle>(
        account_cache: &O,
        transaction: &SignedTransaction,
    ) -> (r: Result<(U256, u64), OracleError>)
        ensures
            match r {
                Ok(amounts) => possible_sponsorship(*transaction, amounts),
                Err(_) => calls_contract(*transaction),
            },
            !calls_contract(*transaction) ==> r == Ok::<(U256, u64), OracleError>(
                sponsorship_for(*transaction, None, false),
            ),
    {
        match transaction.action {
            Action::Call(callee) => {
                if callee.maybe_contract_address() {
                    let sponsor = match account_cache.sponsor_info(&callee) {
                        Ok(sponsor) => sponsor,
                        Err(e) => {
                            return Err(e);
                        },
                    };
                    let privileged: bool = match sponsor {
                        Some(_) => match account_cache.commission_privilege(
                            &callee,
                            &transaction.sender,
                        ) {
                            Ok(privileged) => privileged,
                            Err(e) => {
                                return Err(e);
                            },
                        },
                        None => false,
                    };
                    let amounts = Self::decide_sponsorship(transaction, sponsor, privileged);
                    assert(amounts == sponsorship_for(*transaction, sponsor, privileged));
                    return Ok(amounts);
                }
            },
            Action::Create => {},
        }
        let amounts = Self::decide_sponsorship(transaction, None, false);
        assert(amounts == sponsorship_for(*transaction, None, false));
        Ok(amounts)
    }

    /// Puts a transaction into the pool and recalculates the sender's ready
    /// transaction. The sender's nonce and balance, and what a sponsor pays,
    /// are asked of the account state; the time is read from the system
    /// clock. A failure of the account state ends the insertion with the
    /// pool in a state that satisfies the invariant.
    pub fn insert_transaction_with_readiness_check<O: AccountStateOracle>(
        &mut self,
        account_cache: &O,
        transaction: SignedTransaction,
        packed: bool,
        force: bool,
    ) -> (r: Result<(), InsertError>)
        requires
            old(self).wf(),
            hash_fresh(old(self)@, transaction),
        ensures
            final(self).wf(),
            final(self)@.capacity == old(self)@.capacity,
            final(self)@.txs.len() <= final(self)@.capacity,
            match r {
                Ok(_) => match resident(
                    final(self)@.deferred,
                    transaction.sender,
                    transaction.nonce@,
                ) {
                    Some(e) => e.transaction == transaction && e.packed == packed,
                    None => false,
                },
                Err(InsertError::TooFarFuture) => final(self)@ == old(self)@,
                Err(InsertError::StaleNonce) => final(self)@ == old(self)@,
                Err(InsertError::PoolFull) => resident(
                    old(self)@.deferred,
                    transaction.sender,
                    transaction.nonce@,
                ).is_none() && final(self)@.txs.len() >= final(self)@.capacity,
                Err(InsertError::ReplaceUnderpriced { min_gas_price }) => match resident(
                    old(self)@.deferred,
                    transaction.sender,
                    transaction.nonce@,
                ) {
                    Some(prev) => final(self)@ == old(self)@ && !force && min_gas_price
                        == prev.transaction.gas_price && (prev.packed || transaction.gas_price@
                        <= min_gas_price@),
                    None => false,
                },
                Err(InsertError::OracleFailure(_)) => true,
            },
            ((match r {
                Err(InsertError::OracleFailure(_)) => true,
                _ => false,
            }) && final(self)@ == old(self)@) || exists|
                sponsored: (U256, u64),
                first: (U256, U256),
                now: u64,
            |
                possible_sponsorship(transaction, sponsored) && #[trigger] checked_insertion(
                    old(self)@,
                    transaction,
                    packed,
                    force,
                    sponsored,
                    first,
                    now,
                    r,
                    final(self)@,
                ),
    {
        proof {
            reveal(core_ok);
        }
        let sponsored = match Self::resolve_sponsorship(account_cache, &transaction) {
            Ok(sponsored) => sponsored,
            Err(e) => {
                return Err(InsertError::OracleFailure(e));
            },
        };
        let (state_nonce, state_balance) = match account_cache.nonce_and_balance(
            &transaction.sender,
        ) {
            Ok(state) => state,
            Err(e) => {
                return Err(InsertError::OracleFailure(e));
            },
        };
        let now: u64 = self.get_current_timestamp();
        let ghost v0 = self@;
        let ghost e = entry_of(transaction, packed, sponsored);
        proof {
            lemma_insert_final_facts(v0, e, force, (state_nonce, state_balance), now);
        }
        match self.insert_transaction_with_state(
            transaction,
            packed,
            force,
            sponsored,
            state_nonce,
            state_balance,
            now,
        ) {
            Ok(_) => {},
            Err(e) => {
                let r: Result<(), InsertError> = Err(e);
                assert(checked_insertion(
                    v0,
                    transaction,
                    packed,
                    force,
                    sponsored,
                    (state_nonce, state_balance),
                    now,
                    r,
                    self@,
                ));
                return r;
            },
        }
        let ghost mid = self@;
        match account_cache.nonce_and_balance(&transaction.sender) {
            Ok((nonce, balance)) => {
                self.recalculate_readiness_with_fixed_info(
                    &transaction.sender,
                    nonce,
                    balance,
                    now,
                );
                proof {
                    reveal(core_ok);
                    let second = (nonce, balance);
                    assert(self@ == with_ready(
                        with_info(mid, transaction.sender, second.0, second.1, now),
                        transaction.sender,
                        second.0,
                        second.1,
                    ));
                    assert(checked_insertion(
                        v0,
                        transaction,
                        packed,
                        force,
                        sponsored,
                        (state_nonce, state_balance),
                        now,
                        Ok(()),
                        self@,
                    ));
                }
                Ok(())
            },
            Err(e) => {
                let r: Result<(), InsertError> = Err(InsertError::OracleFailure(e));
                assert(checked_insertion(
                    v0,
                    transaction,
                    packed,
                    force,
                    sponsored,
                    (state_nonce, state_balance),
                    now,
                    r,
                    self@,
                ));
                r
            },
        }
    }

    /// Puts a transaction into the pool as
    /// [`Self::insert_transaction_with_readiness_check`] does, unless its
    /// hash is listed for another sender or nonce: then the pool stays as it
    /// is and `None` is returned.
    pub fn try_insert_transaction<O: AccountStateOracle>(
        &mut self,
        account_cache: &O,
        transaction: SignedTransaction,
        packed: bool,
        force: bool,
    ) -> (r: Option<Result<(), InsertError>>)
        requires
            old(self).wf(),
        ensures
            final(self).wf(),
            r.is_some() == hash_fresh(old(self)@, transaction),
            match r {
                Some(answer) => ((match answer {
                    Err(InsertError::OracleFailure(_)) => true,
                    _ => false,
                }) && final(self)@ == old(self)@) || exists|
                    sponsored: (U256, u64),
                    first: (U256, U256),
                    now: u64,
                |
                    possible_sponsorship(transaction, sponsored) && #[trigger] checked_insertion(
                        old(self)@,
                        transaction,
                        packed,
                        force,
                        sponsored,
                        first,
                        now,
                        answer,
                        final(self)@,
                    ),
                None => final(self)@ == old(self)@,
            },
    {
        if !self.accepts_hash(&transaction) {
            return None;
        }
        Some(self.insert_transaction_with_readiness_check(account_cache, transaction, packed, force))
    }

    /// What the pool knows of the pending transactions of an account: the
    /// account's known nonce, the number of its transactions from that nonce
    /// on, and the nonce and the hash of the first of them; zeros in place of
    /// the last three where there is none.
    pub fn get_account_pending_info(&self, address: &Address) -> (r: Option<
        (U256, U256, U256, H256),
    >)
        requires
            self.wf(),
        ensures
            match r {
                Some(t) => {
                    let b = bucket_of(self@.deferred, *address);
                    let lb = count_below(b, known_info(self@, *address).0@);
                    &&& t.0 == known_info(self@, *address).0
                    &&& lb < b.len() ==> t.1@ == b.len() - lb && t.2 == b[lb as int].transaction.nonce
                        && t.3 == b[lb as int].transaction.hash
                    &&& lb >= b.len() ==> t.1@ == 0 && t.2@ == 0 && t.3 == (H256 { hi: 0, lo: 0 })
                },
                None => false,
            },
    {
        let (local_nonce, _local_balance) = match self.get_local_nonce_and_balance(address) {
            Some(x) => x,
            None => (U256::zero(), U256::zero()),
        };
        proof {
            lemma_count_below_len(bucket_of(self@.deferred, *address), local_nonce@);
            if self@.deferred.contains_key(*address) {
                lemma_bucket_len(self@, *address);
            }
        }
        match self.deferred_pool.get_pending_info(address, &local_nonce) {
            Some((pending_count, pending_tx)) => Some(
                (local_nonce, U256::from_usize(pending_count), pending_tx.nonce, pending_tx.hash),
            ),
            None => Some((local_nonce, U256::zero(), U256::zero(), H256::zero())),
        }
    }

    /// The pending transactions of an account from `maybe_start_nonce` on, or
    /// from the account's known nonce, at most `maybe_limit` of them; the
    /// state of the first; and the number of all of them. The first is ready
    /// if it is the account's ready transaction or nothing keeps it pending.
    pub fn get_account_pending_transactions(
        &self,
        address: &Address,
        maybe_start_nonce: Option<U256>,
        maybe_limit: Option<usize>,
    ) -> (r: (Vec<SignedTransaction>, Option<TransactionStatus>, usize))
        requires
            self.wf(),
        ensures
            ({
                let local = known_info(self@, *address);
                let start = match maybe_start_nonce {
                    Some(n) => n,
                    None => local.0,
                };
                let b = bucket_of(self@.deferred, *address);
                let all = transactions_of(b.subrange(count_below(b, start@) as int, b.len() as int));
                let limit = match maybe_limit {
                    Some(l) => l as int,
                    None => usize::MAX as int,
                };
                &&& r.2 == all.len()
                &&& r.0@ == all.subrange(
                    0,
                    if limit < all.len() {
                        limit
                    } else {
                        all.len() as int
                    },
                )
                &&& r.1 == (if all.len() == 0 {
                    None
                } else if self@.ready.contains_key(*address) && self@.ready[*address] == all[0] {
                    Some(TransactionStatus::Ready)
                } else {
                    match pending_reason(b, local.0@, local.1@, all[0].nonce@) {
                        Some(reason) => Some(TransactionStatus::Pending(reason)),
                        None => Some(TransactionStatus::Ready),
                    }
                })
            }),
    {
        let (local_nonce, local_balance) = match self.get_local_nonce_and_balance(address) {
            Some(x) => x,
            None => (U256::zero(), U256::zero()),
        };
        let start_nonce: U256 = match maybe_start_nonce {
            Some(n) => n,
            None => local_nonce,
        };
        let (pending_txs, pending_reason) = self.deferred_pool.get_pending_transactions(
            address,
            &start_nonce,
            &local_nonce,
            &local_balance,
        );
        let mut pending_txs = pending_txs;
        let ghost all = pending_txs@;
        if pending_txs.len() == 0 {
            assert(pending_txs@ =~= all.subrange(0, 0));
            return (pending_txs, None, 0);
        }
        let first: SignedTransaction = pending_txs[0];
        let listed: bool = match self.ready_account_pool.get(address) {
            Some(ready_tx) => ready_tx.hash.same_key(&first.hash) && ready_tx.sender.same_key(
                &first.sender,
            ) && ready_tx.nonce.same(&first.nonce) && ready_tx.gas_price.same(&first.gas_price)
                && ready_tx.gas.same(&first.gas) && ready_tx.value.same(&first.value)
                && ready_tx.storage_limit == first.storage_limit && ready_tx.rlp_size
                == first.rlp_size && same_action(&ready_tx.action, &first.action),
            None => false,
        };
        let first_tx_status: TransactionStatus = if listed {
            TransactionStatus::Ready
        } else {
            match pending_reason {
                None => TransactionStatus::Ready,
                Some(reason) => TransactionStatus::Pending(reason),
            }
        };
        let pending_count: usize = pending_txs.len();
        let limit: usize = match maybe_limit {
            Some(l) => l,
            None => usize::MAX,
        };
        if limit < pending_count {
            pending_txs.truncate(limit);
        } else {
            assert(pending_txs@ =~= all.subrange(0, all.len() as int));
        }
        (pending_txs, Some(first_tx_status), pending_count)
    }

    /// The ready transactions and all transactions of the pool, each list in
    /// no particular order; with an address, only those of that sender.
    pub fn content(&self, address: Option<Address>) -> (r: (
        Vec<SignedTransaction>,
        Vec<SignedTransaction>,
    ))
        requires
            self.wf(),
        ensures
            r.0@.no_duplicates(),
            r.1@.no_duplicates(),
            forall|t: SignedTransaction|
                r.0@.contains(t) <==> (self@.ready.contains_key(t.sender) && self@.ready[t.sender]
                    == t && passes(address, t.sender)),
            forall|t: SignedTransaction|
                r.1@.contains(t) <==> (self@.txs.contains_key(t.hash) && self@.txs[t.hash] == t
                    && passes(address, t.sender)),
    {
        let mut ready_txs: Vec<SignedTransaction> = Vec::new();
        let n: usize = self.ready_account_pool.len();
        let ghost order = self.ready_account_pool.order();
        proof {
            self.ready_account_pool.lemma_wf();
        }
        let mut i: usize = 0;
        while i < n
            invariant
                self.wf(),
                order == self.ready_account_pool.order(),
                n == order.len(),
                i <= n,
                forall|a: int, b: int|
                    #![trigger order[a], order[b]]
                    0 <= a < b < order.len() ==> order[a].tx.sender != order[b].tx.sender,
                ready_txs@.no_duplicates(),
                forall|t: SignedTransaction|
                    ready_txs@.contains(t) <==> (exists|j: int|
                        0 <= j < i && (#[trigger] order[j]).tx == t && passes(address, t.sender)),
            decreases n - i,
        {
            let tx: SignedTransaction = self.ready_account_pool.tx_at(i);
            let keep: bool = match address {
                Some(a) => a.same_key(&tx.sender),
                None => true,
            };
            let ghost before = ready_txs@;
            if keep {
                ready_txs.push(tx);
            }
            proof {
                assert forall|t: SignedTransaction| ready_txs@.contains(t) implies (exists|j: int|
                    0 <= j < i + 1 && (#[trigger] order[j]).tx == t && passes(
                        address,
                        t.sender,
                    )) by {
                    if before.contains(t) {
                        let j = choose|j: int|
                            0 <= j < i && (#[trigger] order[j]).tx == t && passes(
                                address,
                                t.sender,
                            );
                        assert(order[j].tx == t);
                    } else {
                        let k = choose|k: int| 0 <= k < ready_txs@.len() && ready_txs@[k] == t;
                        if k < before.len() {
                            assert(before[k] == t);
                        }
                        assert(order[i as int].tx == t);
                    }
                }
                assert forall|t: SignedTransaction|
                    (exists|j: int|
                        0 <= j < i + 1 && (#[trigger] order[j]).tx == t && passes(
                            address,
                            t.sender,
                        )) implies ready_txs@.contains(t) by {
                    let j = choose|j: int|
                        0 <= j < i + 1 && (#[trigger] order[j]).tx == t && passes(
                            address,
                            t.sender,
                        );
                    if j < i {
                        assert(before.contains(t));
                        let k = choose|k: int| 0 <= k < before.len() && before[k] == t;
                        assert(ready_txs@[k] == t);
                    } else {
                        assert(ready_txs@[before.len() as int] == t);
                    }
                }
                if keep {
                    assert forall|a: int, b: int|
                        0 <= a < ready_txs@.len() && 0 <= b < ready_txs@.len() && a
                            != b implies ready_txs@[a] != ready_txs@[b] by {
                        let older = if a < b { a } else { b };
                        assert(before[older] == ready_txs@[older]);
                        if ready_txs@[a] == ready_txs@[b] {
                            assert(before.contains(tx));
                            let j = choose|j: int|
                                0 <= j < i && (#[trigger] order[j]).tx == tx && passes(
                                    address,
                                    tx.sender,
                                );
                            assert(order[j].tx.sender != order[i as int].tx.sender);
                        }
                    }
                }
            }
            i = i + 1;
        }
        proof {
            assert forall|t: SignedTransaction|
                ready_txs@.contains(t) <==> (self@.ready.contains_key(t.sender)
                    && self@.ready[t.sender] == t && passes(address, t.sender)) by {
                if ready_txs@.contains(t) {
                    let j = choose|j: int|
                        0 <= j < n && (#[trigger] order[j]).tx == t && passes(address, t.sender);
                    assert(order[j].tx == t);
                }
                if self@.ready.contains_key(t.sender) && self@.ready[t.sender] == t && passes(
                    address,
                    t.sender,
                ) {
                    let j = choose|j: int|
                        0 <= j < order.len() && order[j].tx == self@.ready[t.sender];
                    assert(order[j].tx == t);
                }
            }
        }
        let mut deferred_txs: Vec<SignedTransaction> = Vec::new();
        let m: usize = self.txs.len();
        let ghost keys = self.txs.spec_keys();
        let ghost vals = self.txs.spec_vals();
        proof {
            reveal(core_ok);
            self.txs.lemma_entries();
            assert forall|j: int| 0 <= j < keys.len() implies (#[trigger] vals[j]).hash
                == keys[j] by {
                assert(self@.txs.contains_key(keys[j]));
                assert(hash_resident(self@, keys[j]));
            }
        }
        let mut k: usize = 0;
        while k < m
            invariant
                self.wf(),
                keys == self.txs.spec_keys(),
                vals == self.txs.spec_vals(),
                m == vals.len(),
                m == keys.len(),
                k <= m,
                keys.no_duplicates(),
                forall|j: int| 0 <= j < keys.len() ==> (#[trigger] vals[j]).hash == keys[j],
                deferred_txs@.no_duplicates(),
                forall|t: SignedTransaction|
                    deferred_txs@.contains(t) <==> (exists|j: int|
                        0 <= j < k && #[trigger] vals[j] == t && passes(address, t.sender)),
            decreases m - k,
        {
            let tx: SignedTransaction = *self.txs.value_at(k);
            let keep: bool = match address {
                Some(a) => a.same_key(&tx.sender),
                None => true,
            };
            let ghost before = deferred_txs@;
            if keep {
                deferred_txs.push(tx);
            }
            proof {
                assert forall|t: SignedTransaction| deferred_txs@.contains(t) implies (exists|
                    j: int,
                |
                    0 <= j < k + 1 && #[trigger] vals[j] == t && passes(address, t.sender)) by {
                    if before.contains(t) {
                        let j = choose|j: int|
                            0 <= j < k && #[trigger] vals[j] == t && passes(address, t.sender);
                        assert(vals[j] == t);
                    } else {
                        let x = choose|x: int|
                            0 <= x < deferred_txs@.len() && deferred_txs@[x] == t;
                        if x < before.len() {
                            assert(before[x] == t);
                        }
                        assert(vals[k as int] == t);
                    }
                }
                assert forall|t: SignedTransaction|
                    (exists|j: int|
                        0 <= j < k + 1 && #[trigger] vals[j] == t && passes(
                            address,
                            t.sender,
                        )) implies deferred_txs@.contains(t) by {
                    let j = choose|j: int|
                        0 <= j < k + 1 && #[trigger] vals[j] == t && passes(address, t.sender);
                    if j < k {
                        assert(before.contains(t));
                        let x = choose|x: int| 0 <= x < before.len() && before[x] == t;
                        assert(deferred_txs@[x] == t);
                    } else {
                        assert(deferred_txs@[before.len() as int] == t);
                    }
                }
                if keep {
                    assert forall|a: int, b: int|
                        0 <= a < deferred_txs@.len() && 0 <= b < deferred_txs@.len() && a
                            != b implies deferred_txs@[a] != deferred_txs@[b] by {
                        let older = if a < b { a } else { b };
                        assert(before[older] == deferred_txs@[older]);
                        if deferred_txs@[a] == deferred_txs@[b] {
                            assert(before.contains(tx));
                            let j = choose|j: int|
                                0 <= j < k && #[trigger] vals[j] == tx && passes(
                                    address,
                                    tx.sender,
                                );
                            assert(keys[j] != keys[k as int]);
                        }
                    }
                }
            }
            k = k + 1;
        }
        proof {
            assert forall|t: SignedTransaction|
                deferred_txs@.contains(t) <==> (self@.txs.contains_key(t.hash)
                    && self@.txs[t.hash] == t && passes(address, t.sender)) by {
                if deferred_txs@.contains(t) {
                    let j = choose|j: int|
                        0 <= j < m && #[trigger] vals[j] == t && passes(address, t.sender);
                    assert(self@.txs.contains_key(keys[j]));
                }
                if self@.txs.contains_key(t.hash) && self@.txs[t.hash] == t && passes(
                    address,
                    t.sender,
                ) {
                    assert(keys.contains(t.hash));
                    let j = keys.index_of(t.hash);
                    assert(keys[j] == t.hash);
                    assert(self@.txs.contains_key(keys[j]));
                    assert(vals[j] == t);
                }
            }
        }
        (ready_txs, deferred_txs)
    }

    /// Marks the entry of a transaction that the pool holds as packed or as
    /// not packed, and recalculates the sender's ready transaction.
    fn set_packed(&mut self, tx: &SignedTransaction, packed: bool)
        requires
            old(self).wf(),
            match resident(old(self)@.deferred, tx.sender, tx.nonce@) {
                Some(e) => e.transaction == *tx,
                None => false,
            },
        ensures
            final(self).wf(),
            final(self)@ == with_ready(
                flipped(old(self)@, *tx, packed),
                tx.sender,
                known_info(old(self)@, tx.sender).0,
                known_info(old(self)@, tx.sender).1,
            ),
    {
        let sponsored: (U256, u64) = match self.tx_sponsored_gas_map.get(&tx.hash) {
            Some(x) => *x,
            None => (U256::zero(), 0),
        };
        proof {
            lemma_flip(self@, *tx, packed);
        }
        self.insert_transaction_without_readiness_check(*tx, packed, true, None, sponsored, 0);
        self.recalculate_readiness_with_local_info(&tx.sender);
    }

    /// Does to a drawn transaction what the verdict on it asks for. On `Pack`
    /// the transaction is selected and marked as packed, and the ready
    /// transaction of its sender is recalculated. On `Pending` it is set
    /// aside. On `Drop` nothing happens: the transaction stays in the pool
    /// without being ready.
    pub fn apply_verdict(
        &mut self,
        tx: &SignedTransaction,
        verdict: PackingCheckResult,
        selected: &mut Vec<SignedTransaction>,
        recycle: &mut Vec<SignedTransaction>,
    )
        requires
            old(self).wf(),
            match resident(old(self)@.deferred, tx.sender, tx.nonce@) {
                Some(e) => e.transaction == *tx,
                None => false,
            },
        ensures
            final(self).wf(),
            match verdict {
                PackingCheckResult::Pack => {
                    &&& final(selected)@ == old(selected)@.push(*tx)
                    &&& final(recycle)@ == old(recycle)@
                    &&& final(self)@ == with_ready(
                        flipped(old(self)@, *tx, true),
                        tx.sender,
                        known_info(old(self)@, tx.sender).0,
                        known_info(old(self)@, tx.sender).1,
                    )
                },
                PackingCheckResult::Pending => {
                    &&& final(selected)@ == old(selected)@
                    &&& final(recycle)@ == old(recycle)@.push(*tx)
                    &&& final(self)@ == old(self)@
                },
                PackingCheckResult::Drop => {
                    &&& final(selected)@ == old(selected)@
                    &&& final(recycle)@ == old(recycle)@
                    &&& final(self)@ == old(self)@
                },
            },
    {
        match verdict {
            PackingCheckResult::Pack => {
                selected.push(*tx);
                self.set_packed(tx, true);
            },
            PackingCheckResult::Pending => {
                recycle.push(*tx);
            },
            PackingCheckResult::Drop => {},
        }
    }

    /// Whether a transaction does not fit into what is left of the gas limit
    /// and the size limit of a block.
    pub fn exceeds_block_limits(
        block_gas_limit: &U256,
        total_tx_gas_limit: &U256,
        block_size_limit: usize,
        total_tx_size: usize,
        tx: &SignedTransaction,
    ) -> (b: bool)
        ensures
            b == (total_tx_gas_limit@ + tx.gas@ > block_gas_limit@ || total_tx_size + tx.rlp_size
                > block_size_limit),
    {
        let gas_fits: bool = match block_gas_limit.checked_sub(total_tx_gas_limit) {
            Some(gas_left) => tx.gas.le(&gas_left),
            None => false,
        };
        let size_fits: bool = match block_size_limit.checked_sub(total_tx_size) {
            Some(size_left) => tx.rlp_size <= size_left,
            None => false,
        };
        !gas_fits || !size_fits
    }

    /// Selects at most `num_txs` ready transactions for a block, by repeated
    /// draws weighted by gas price, within the gas limit and the size limit
    /// of the block. A drawn transaction that does not fit is set aside, and
    /// the tenth such ends the selection. Each that fits undergoes the check
    /// `verifier`: on `Pack` it is selected and marked as packed, so that the
    /// sender's next transaction can become ready; on `Pending` it is set
    /// aside; on `Drop` it loses its place among the ready transactions.
    /// When the selection ends, what was set aside is listed as ready again,
    /// and the selected transactions are marked as not packed, the last one
    /// first. Apart from the ready transactions the pool is as it was.
    pub fn pack_transactions_with<R: PackingRecheck, G: RandomSource>(
        &mut self,
        num_txs: usize,
        block_gas_limit: U256,
        block_size_limit: usize,
        best_epoch_height: u64,
        best_block_number: u64,
        verifier: &R,
        rng: &mut G,
    ) -> (r: Vec<SignedTransaction>)
        requires
            old(self).wf(),
        ensures
            final(self).wf(),
            r@.len() <= num_txs,
            gas_sum(r@) <= block_gas_limit@,
            size_sum(r@) <= block_size_limit,
            r@.no_duplicates(),
            forall|k: int| 0 <= k < r@.len() ==> packable(old(self)@, #[trigger] r@[k]),
            final(self)@ == (PoolView {
                ready: final(self)@.ready,
                order: final(self)@.order,
                ..old(self)@
            }),
            forall|a: Address| #[trigger]
                final(self)@.ready.contains_key(a) ==> old(self)@.ready.contains_key(a),
            exists|draws: Seq<(u128, PackingCheckResult)>|
                #![trigger pack_run(old(self)@, draws, block_gas_limit@, block_size_limit as nat)]
                pack_draws(
                    old(self)@,
                    num_txs as nat,
                    block_gas_limit@,
                    block_size_limit as nat,
                    draws,
                ) && r@ == pack_run(
                    old(self)@,
                    draws,
                    block_gas_limit@,
                    block_size_limit as nat,
                ).selected && final(self)@ == packed_pool(
                    old(self)@,
                    draws,
                    block_gas_limit@,
                    block_size_limit as nat,
                ),
    {
        let ghost v0 = self@;
        let ghost gl = block_gas_limit@;
        let ghost sl = block_size_limit as nat;
        let ghost mut draws: Seq<(u128, PackingCheckResult)> = Seq::empty();
        let mut packed_transactions: Vec<SignedTransaction> = Vec::new();
        let mut recycle_txs: Vec<SignedTransaction> = Vec::new();
        let mut total_tx_gas_limit: U256 = U256::zero();
        let mut total_tx_size: usize = 0;
        let mut big_tx_resample_times_limit: usize = BIG_TX_RESAMPLE_LIMIT;
        let mut done: bool = false;
        proof {
            lemma_packing_start(v0);
        }
        while !done && packed_transactions.len() < num_txs
            invariant
                self.wf(),
                pool_ok(v0),
                packing_state(self@, v0, packed_transactions@),
                packed_transactions@.len() <= num_txs,
                total_tx_gas_limit@ == gas_sum(packed_transactions@),
                total_tx_size == size_sum(packed_transactions@),
                total_tx_gas_limit@ <= block_gas_limit@,
                total_tx_size <= block_size_limit,
                !done ==> big_tx_resample_times_limit >= 1,
                self@.ready.dom().finite(),
                gl == block_gas_limit@,
                sl == block_size_limit as nat,
                pack_run(v0, draws, gl, sl) == (PackState {
                    pool: self@,
                    selected: packed_transactions@,
                    recycle: recycle_txs@,
                    budget: big_tx_resample_times_limit as nat,
                    done,
                }),
                forall|j: int|
                    0 <= j < draws.len() ==> !pack_finished(
                        #[trigger] pack_run(v0, draws.subrange(0, j), gl, sl),
                        num_txs as nat,
                    ),
                forall|k: int|
                    0 <= k < recycle_txs@.len() ==> packable(v0, #[trigger] recycle_txs@[k])
                        && !packed_transactions@.contains(recycle_txs@[k])
                        && !self@.ready.contains_key(recycle_txs@[k].sender),
                forall|a: Address| #[trigger]
                    self@.ready.contains_key(a) ==> v0.ready.contains_key(a),
                forall|k: int|
                    0 <= k < recycle_txs@.len() ==> v0.ready.contains_key(
                        (#[trigger] recycle_txs@[k]).sender,
                    ),
                forall|k: int|
                    0 <= k < packed_transactions@.len() ==> v0.ready.contains_key(
                        (#[trigger] packed_transactions@[k]).sender,
                    ),
            decreases
                    num_txs - packed_transactions@.len(),
                    (if done {
                        0
                    } else {
                        self@.ready.len() + 1
                    }),
        {
            let ghost before = self@;
            let ghost sel = packed_transactions@;
            let ghost rec = recycle_txs@;
            let rand: u128 = rng.next_u128();
            let ghost state = pack_run(v0, draws, gl, sl);
            let ghost draws_before = draws;
            match self.ready_account_pool.pop_with(rand) {
                None => {
                    done = true;
                    proof {
                        draws = draws_before.push((rand, PackingCheckResult::Drop));
                    }
                },
                Some(tx) => {
                    proof {
                        self.ready_account_pool.lemma_wf();
                        lemma_popped(before, v0, sel, tx, self@.order);
                        assert(self@ == (PoolView {
                            ready: before.ready.remove(tx.sender),
                            order: self@.order,
                            ..before
                        }));
                    }
                    if Self::exceeds_block_limits(
                        &block_gas_limit,
                        &total_tx_gas_limit,
                        block_size_limit,
                        total_tx_size,
                        &tx,
                    ) {
                        recycle_txs.push(tx);
                        big_tx_resample_times_limit = big_tx_resample_times_limit - 1;
                        if big_tx_resample_times_limit == 0 {
                            done = true;
                        }
                        proof {
                            draws = draws_before.push((rand, PackingCheckResult::Drop));
                            assert forall|k: int| 0 <= k < recycle_txs@.len() implies packable(
                                v0,
                                #[trigger] recycle_txs@[k],
                            ) && !packed_transactions@.contains(recycle_txs@[k])
                                && !self@.ready.contains_key(recycle_txs@[k].sender) by {
                                if k < rec.len() {
                                    assert(recycle_txs@[k] == rec[k]);
                                }
                            }
                        }
                    } else {
                        let verdict: PackingCheckResult = verifier.recheck(
                            &tx,
                            best_epoch_height,
                            best_block_number,
                        );
                        let ghost mid = self@;
                        self.apply_verdict(
                            &tx,
                            verdict,
                            &mut packed_transactions,
                            &mut recycle_txs,
                        );
                        match verdict {
                            PackingCheckResult::Pack => {
                                proof {
                                    lemma_u256_view(block_gas_limit, block_gas_limit);
                                }
                                total_tx_gas_limit = match total_tx_gas_limit.checked_add(&tx.gas) {
                                    Some(total) => total,
                                    None => total_tx_gas_limit,
                                };
                                total_tx_size = total_tx_size + tx.rlp_size;
                                proof {
                                    draws = draws_before.push((rand, PackingCheckResult::Pack));
                                    assert(packed_transactions@.drop_last() =~= sel);
                                    lemma_packed_step(mid, v0, sel, tx, self@);
                                    assert forall|k: int|
                                        0 <= k < recycle_txs@.len() implies packable(
                                        v0,
                                        #[trigger] recycle_txs@[k],
                                    ) && !packed_transactions@.contains(recycle_txs@[k])
                                        && !self@.ready.contains_key(recycle_txs@[k].sender) by {
                                        let x = recycle_txs@[k];
                                        assert(!before.ready.contains_key(x.sender));
                                        assert(x.sender != tx.sender);
                                        if packed_transactions@.contains(x) {
                                            let j = choose|j: int|
                                                0 <= j < packed_transactions@.len()
                                                    && packed_transactions@[j] == x;
                                            if j < sel.len() {
                                                assert(sel[j] == x);
                                            }
                                        }
                                    }
                                }
                            },
                            PackingCheckResult::Pending => {
                                proof {
                                    draws = draws_before.push((rand, PackingCheckResult::Pending));
                                    assert forall|k: int|
                                        0 <= k < recycle_txs@.len() implies packable(
                                        v0,
                                        #[trigger] recycle_txs@[k],
                                    ) && !packed_transactions@.contains(recycle_txs@[k])
                                        && !self@.ready.contains_key(recycle_txs@[k].sender) by {
                                        if k < rec.len() {
                                            assert(recycle_txs@[k] == rec[k]);
                                        }
                                    }
                                }
                            },
                            PackingCheckResult::Drop => {
                                proof {
                                    draws = draws_before.push((rand, PackingCheckResult::Drop));
                                }
                            },
                        }
                    }
                },
            }
            proof {
                assert forall|k: int| 0 <= k < recycle_txs@.len() implies v0.ready.contains_key(
                    (#[trigger] recycle_txs@[k]).sender,
                ) by {
                    if k < rec.len() {
                        assert(recycle_txs@[k] == rec[k]);
                    }
                }
                assert forall|k: int|
                    0 <= k < packed_transactions@.len() implies v0.ready.contains_key(
                    (#[trigger] packed_transactions@[k]).sender,
                ) by {
                    if k < sel.len() {
                        assert(packed_transactions@[k] == sel[k]);
                    }
                }
                assert(draws.drop_last() =~= draws_before);
                assert(draws.subrange(0, draws_before.len() as int) =~= draws_before);
                assert forall|j: int| 0 <= j < draws.len() implies !pack_finished(
                    #[trigger] pack_run(v0, draws.subrange(0, j), gl, sl),
                    num_txs as nat,
                ) by {
                    if j < draws_before.len() {
                        assert(draws.subrange(0, j) =~= draws_before.subrange(0, j));
                    }
                }
            }
        }
        let ghost end = pack_run(v0, draws, gl, sl);
        let mut i: usize = 0;
        while i < recycle_txs.len()
            invariant
                self.wf(),
                pool_ok(v0),
                i <= recycle_txs@.len(),
                packing_state(self@, v0, packed_transactions@),
                end.recycle == recycle_txs@,
                self@ == recycled(end.pool, recycle_txs@.subrange(0, i as int)),
                forall|a: Address| #[trigger]
                    self@.ready.contains_key(a) ==> v0.ready.contains_key(a),
                forall|k: int|
                    0 <= k < recycle_txs@.len() ==> v0.ready.contains_key(
                        (#[trigger] recycle_txs@[k]).sender,
                    ),
                forall|k: int|
                    0 <= k < packed_transactions@.len() ==> v0.ready.contains_key(
                        (#[trigger] packed_transactions@[k]).sender,
                    ),
                forall|k: int|
                    0 <= k < recycle_txs@.len() ==> packable(v0, #[trigger] recycle_txs@[k])
                        && !packed_transactions@.contains(recycle_txs@[k]),
            decreases recycle_txs@.len() - i,
        {
            let tx: SignedTransaction = recycle_txs[i];
            let ghost cur = self@;
            self.ready_account_pool.insert(tx);
            proof {
                lemma_recycled(cur, v0, packed_transactions@, tx, self@.order);
                let done_part = recycle_txs@.subrange(0, i + 1);
                assert(done_part.drop_last() =~= recycle_txs@.subrange(0, i as int));
                assert(done_part.last() == tx);
            }
            i = i + 1;
        }
        let mut k: usize = packed_transactions.len();
        assert(packed_transactions@.subrange(0, k as int) =~= packed_transactions@);
        assert(recycle_txs@.subrange(0, recycle_txs@.len() as int) =~= recycle_txs@);
        let ghost target = packed_pool(v0, draws, gl, sl);
        while k > 0
            invariant
                self.wf(),
                pool_ok(v0),
                k <= packed_transactions@.len(),
                packing_state(self@, v0, packed_transactions@.subrange(0, k as int)),
                unpacked_all(self@, packed_transactions@.subrange(0, k as int)) == target,
                forall|a: Address| #[trigger]
                    self@.ready.contains_key(a) ==> v0.ready.contains_key(a),
                forall|j: int|
                    0 <= j < packed_transactions@.len() ==> v0.ready.contains_key(
                        (#[trigger] packed_transactions@[j]).sender,
                    ),
                forall|j: int|
                    0 <= j < packed_transactions@.len() ==> packable(
                        v0,
                        #[trigger] packed_transactions@[j],
                    ),
                packed_transactions@.no_duplicates(),
            decreases k,
        {
            let tx: SignedTransaction = packed_transactions[k - 1];
            let ghost mid = self@;
            let ghost sel = packed_transactions@.subrange(0, k as int);
            proof {
                assert(sel.last() == tx);
                assert(sel.drop_last() =~= packed_transactions@.subrange(0, k - 1));
                lemma_unpack_ready(mid, v0, sel);
            }
            self.set_packed(&tx, false);
            proof {
                lemma_unpacked_step(mid, v0, sel, self@);
            }
            k = k - 1;
        }
        proof {
            assert(packed_transactions@.subrange(0, 0) =~= Seq::<SignedTransaction>::empty());
            lemma_packing_end(self@, v0);
            assert(pack_draws(v0, num_txs as nat, gl, sl, draws));
        }
        packed_transactions
    }

    /// Selects at most `num_txs` ready transactions for a block, as
    /// [`Self::pack_transactions_with`] does, with the random number
    /// generator of the current thread.
    pub fn pack_transactions<R: PackingRecheck>(
        &mut self,
        num_txs: usize,
        block_gas_limit: U256,
        block_size_limit: usize,
        best_epoch_height: u64,
        best_block_number: u64,
        verifier: &R,
    ) -> (r: Vec<SignedTransaction>)
        requires
            old(self).wf(),
        ensures
            final(self).wf(),
            r@.len() <= num_txs,
            gas_sum(r@) <= block_gas_limit@,
            size_sum(r@) <= block_size_limit,
            r@.no_duplicates(),
            forall|k: int| 0 <= k < r@.len() ==> packable(old(self)@, #[trigger] r@[k]),
            final(self)@ == (PoolView {
                ready: final(self)@.ready,
                order: final(self)@.order,
                ..old(self)@
            }),
            forall|a: Address| #[trigger]
                final(self)@.ready.contains_key(a) ==> old(self)@.ready.contains_key(a),
            exists|draws: Seq<(u128, PackingCheckResult)>|
                #![trigger pack_run(old(self)@, draws, block_gas_limit@, block_size_limit as nat)]
                pack_draws(
                    old(self)@,
                    num_txs as nat,
                    block_gas_limit@,
                    block_size_limit as nat,
                    draws,
                ) && r@ == pack_run(
                    old(self)@,
                    draws,
                    block_gas_limit@,
                    block_size_limit as nat,
                ).selected && final(self)@ == packed_pool(
                    old(self)@,
                    draws,
                    block_gas_limit@,
                    block_size_limit as nat,
                ),
    {
        let mut rng = ThreadRandom::new();
        self.pack_transactions_with(
            num_txs,
            block_gas_limit,
            block_size_limit,
            best_epoch_height,
            best_block_number,
            verifier,
            &mut rng,
        )
    }
}

/// Whether the two actions are the same.
fn same_action(a: &Action, b: &Action) -> (r: bool)
    ensures
        r == (*a == *b),
{
    match a {
        Action::Create => match b {
            Action::Create => true,
            Action::Call(_) => false,
        },
        Action::Call(x) => match b {
            Action::Create => false,
            Action::Call(y) => x.same_key(y),
        },
    }
}

} // verus!
