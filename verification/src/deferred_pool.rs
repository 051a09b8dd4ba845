//! All pending transactions, by sender and nonce.

use crate::map_sum::map_sum;
use crate::nonce_pool::{
    all_present, count_below, count_unpacked, entry_at, insert_outcome, insert_seq,
    pending_reason, ready_entry, sorted_by_nonce, transactions_of, NoncePool,
};
use crate::types::{
    Address, InsertResult, PendingReason, SignedTransaction, TxWithReadyInfo,
};
use crate::u256::U256;
use crate::vec_map::VecMap;
use vstd::prelude::*;

verus! {

/// What holds of the transactions of one sender: there is at least one, their
/// nonces strictly increase, and all are signed by the sender.
pub open spec fn bucket_ok(sender: Address, s: Seq<TxWithReadyInfo>) -> bool {
    &&& s.len() > 0
    &&& sorted_by_nonce(s)
    &&& forall|i: int| 0 <= i < s.len() ==> (#[trigger] s[i]).transaction.sender == sender
}

/// What holds of the transactions of all senders.
pub open spec fn buckets_ok(m: Map<Address, Seq<TxWithReadyInfo>>) -> bool {
    &&& m.dom().finite()
    &&& forall|a: Address| #[trigger] m.contains_key(a) ==> bucket_ok(a, m[a])
}

/// The transactions of a sender; none for a sender that has no entry.
pub open spec fn bucket_of(m: Map<Address, Seq<TxWithReadyInfo>>, a: Address) -> Seq<
    TxWithReadyInfo,
> {
    if m.contains_key(a) {
        m[a]
    } else {
        Seq::empty()
    }
}

/// The entry of a sender and nonce, if there is one.
pub open spec fn resident(m: Map<Address, Seq<TxWithReadyInfo>>, a: Address, nonce: nat)
    -> Option<TxWithReadyInfo> {
    entry_at(bucket_of(m, a), nonce)
}

/// The function that gives the number of transactions of a bucket.
pub open spec fn len_fn() -> spec_fn(Seq<TxWithReadyInfo>) -> nat {
    |s: Seq<TxWithReadyInfo>| s.len()
}

/// The function that gives the number of transactions of a bucket that are
/// not packed.
pub open spec fn unpacked_fn() -> spec_fn(Seq<TxWithReadyInfo>) -> nat {
    |s: Seq<TxWithReadyInfo>| count_unpacked(s)
}

/// The number of transactions of all senders.
pub open spec fn total_len(m: Map<Address, Seq<TxWithReadyInfo>>) -> nat {
    map_sum(m, len_fn())
}

/// The number of transactions of all senders that are not packed.
pub open spec fn total_unpacked(m: Map<Address, Seq<TxWithReadyInfo>>) -> nat {
    map_sum(m, unpacked_fn())
}

/// The map after the lowest nonce of a sender has been taken out.
pub open spec fn without_lowest(m: Map<Address, Seq<TxWithReadyInfo>>, a: Address) -> Map<
    Address,
    Seq<TxWithReadyInfo>,
> {
    if !m.contains_key(a) {
        m
    } else if m[a].len() <= 1 {
        m.remove(a)
    } else {
        m.insert(a, m[a].subrange(1, m[a].len() as int))
    }
}

/// The pending transactions of every sender that has any.
pub struct DeferredPool {
    buckets: VecMap<Address, NoncePool>,
}

impl View for DeferredPool {
    type V = Map<Address, Seq<TxWithReadyInfo>>;

    closed spec fn view(&self) -> Map<Address, Seq<TxWithReadyInfo>> {
        Map::new(|a: Address| self.buckets@.contains_key(a), |a: Address| self.buckets@[a]@)
    }
}

impl DeferredPool {
    /// The representation invariant.
    pub closed spec fn wf(&self) -> bool {
        &&& self.buckets.wf()
        &&& buckets_ok(self@)
    }

    /// A well-formed pool has a finite number of senders, each with at least
    /// one transaction, sorted by nonce and signed by that sender.
    pub proof fn lemma_wf(&self)
        requires
            self.wf(),
        ensures
            buckets_ok(self@),
    {
    }

    /// The bucket of a sender that has one is its entry in the model.
    proof fn lemma_bucket(&self, a: Address)
        requires
            self.wf(),
            self.buckets@.contains_key(a),
        ensures
            self@.contains_key(a),
            self@[a] == self.buckets@[a]@,
            bucket_ok(a, self@[a]),
            self.buckets@[a].wf(),
    {
        assert(self@.contains_key(a));
    }

    /// A pool without transactions.
    pub fn new() -> (r: DeferredPool)
        ensures
            r.wf(),
            r@ == Map::<Address, Seq<TxWithReadyInfo>>::empty(),
    {
        let r = DeferredPool { buckets: VecMap::new() };
        assert(r@ =~= Map::<Address, Seq<TxWithReadyInfo>>::empty());
        r
    }

    /// Removes every transaction.
    pub fn clear(&mut self)
        ensures
            final(self).wf(),
            final(self)@ == Map::<Address, Seq<TxWithReadyInfo>>::empty(),
    {
        self.buckets.clear();
        assert(self@ =~= Map::<Address, Seq<TxWithReadyInfo>>::empty());
    }

    /// The number of senders.
    pub fn len(&self) -> (n: usize)
        requires
            self.wf(),
        ensures
            n == self@.len(),
    {
        proof {
            assert(self@.dom() =~= self.buckets@.dom());
        }
        self.buckets.len()
    }

    /// Adds a transaction to the bucket of its sender, which is created if
    /// the sender had none.
    pub fn insert(&mut self, tx: TxWithReadyInfo, force: bool) -> (r: InsertResult)
        requires
            old(self).wf(),
        ensures
            final(self).wf(),
            r == insert_outcome(bucket_of(old(self)@, tx.transaction.sender), tx, force),
            final(self)@ == old(self)@.insert(
                tx.transaction.sender,
                insert_seq(bucket_of(old(self)@, tx.transaction.sender), tx, force),
            ),
    {
        let sender: Address = tx.transaction.sender;
        let ghost m0 = self@;
        let ghost b0 = bucket_of(m0, sender);
        proof {
            assert(self@.dom() =~= self.buckets@.dom());
            if m0.contains_key(sender) {
                assert(bucket_ok(sender, m0[sender]));
            }
        }
        let mut bucket: NoncePool = match self.buckets.remove(&sender) {
            Some(b) => b,
            None => NoncePool::new(),
        };
        assert(bucket@ == b0);
        let r = bucket.insert(&tx, force);
        let ghost b1 = bucket@;
        self.buckets.insert(sender, bucket);
        proof {
            assert(self@ =~= m0.insert(sender, b1));
            assert(self@.dom() =~= self.buckets@.dom());
            let lb = count_below(b0, tx.transaction.nonce@) as int;
            crate::nonce_pool::lemma_count_below_splits(b0, tx.transaction.nonce@);
            assert forall|i: int| 0 <= i < b1.len() implies (#[trigger] b1[i]).transaction.sender
                == sender by {
                if b1.len() == b0.len() + 1 {
                    if i < lb {
                        assert(b1[i] == b0[i]);
                    } else if i > lb {
                        assert(b1[i] == b0[i - 1]);
                    }
                } else if i != lb {
                    assert(b1[i] == b0[i]);
                }
            }
            assert forall|a: Address| #[trigger] self@.contains_key(a) implies bucket_ok(
                a,
                self@[a],
            ) by {
                if a != sender {
                    assert(m0.contains_key(a));
                }
            }
        }
        r
    }

    /// Whether the sender has a transaction in the pool.
    pub fn contain_address(&self, addr: &Address) -> (b: bool)
        requires
            self.wf(),
        ensures
            b == self@.contains_key(*addr),
    {
        self.buckets.contains_key(addr)
    }

    /// The entry of a sender and nonce.
    pub fn get_tx_by_nonce(&self, addr: &Address, nonce: &U256) -> (r: Option<TxWithReadyInfo>)
        requires
            self.wf(),
        ensures
            r == resident(self@, *addr, nonce@),
    {
        match self.buckets.get(addr) {
            Some(bucket) => {
                proof {
                    self.lemma_bucket(*addr);
                }
                bucket.get_tx_by_nonce(nonce)
            },
            None => None,
        }
    }

    /// Whether the pool holds a transaction of the sender with the nonce.
    pub fn check_sender_and_nonce_exists(&self, sender: &Address, nonce: &U256) -> (b: bool)
        requires
            self.wf(),
        ensures
            b == resident(self@, *sender, nonce@).is_some(),
    {
        self.get_tx_by_nonce(sender, nonce).is_some()
    }

    /// The number of transactions of the sender whose nonce is below `nonce`.
    pub fn count_less(&self, sender: &Address, nonce: &U256) -> (n: usize)
        requires
            self.wf(),
        ensures
            n == count_below(bucket_of(self@, *sender), nonce@),
            n <= bucket_of(self@, *sender).len(),
    {
        match self.buckets.get(sender) {
            Some(bucket) => {
                proof {
                    self.lemma_bucket(*sender);
                }
                bucket.count_less(nonce)
            },
            None => 0,
        }
    }

    /// Takes out the transaction of the sender with the lowest nonce. A
    /// sender whose last transaction leaves has no entry any more.
    pub fn remove_lowest_nonce(&mut self, addr: &Address) -> (r: Option<TxWithReadyInfo>)
        requires
            old(self).wf(),
        ensures
            final(self).wf(),
            final(self)@ == without_lowest(old(self)@, *addr),
            r == (if old(self)@.contains_key(*addr) {
                Some(old(self)@[*addr][0])
            } else {
                None
            }),
    {
        let ghost m0 = self@;
        proof {
            assert(self@.dom() =~= self.buckets@.dom());
            if m0.contains_key(*addr) {
                assert(bucket_ok(*addr, m0[*addr]));
            }
        }
        match self.buckets.remove(addr) {
            None => {
                assert(self@ =~= m0);
                None
            },
            Some(bucket) => {
                let mut bucket = bucket;
                let r = bucket.remove_lowest_nonce();
                let ghost b1 = bucket@;
                if !bucket.is_empty() {
                    self.buckets.insert(*addr, bucket);
                    proof {
                        assert(self@ =~= m0.insert(*addr, b1));
                        assert forall|i: int| 0 <= i < b1.len() implies (
                        #[trigger] b1[i]).transaction.sender == *addr by {
                            assert(b1[i] == m0[*addr][i + 1]);
                        }
                        assert forall|a: Address| #[trigger] self@.contains_key(a) implies bucket_ok(
                            a,
                            self@[a],
                        ) by {
                            if a != *addr {
                                assert(m0.contains_key(a));
                            }
                        }
                    }
                } else {
                    proof {
                        assert(self@ =~= m0.remove(*addr));
                        assert forall|a: Address| #[trigger] self@.contains_key(a) implies bucket_ok(
                            a,
                            self@[a],
                        ) by {
                            assert(m0.contains_key(a));
                        }
                    }
                }
                r
            },
        }
    }

    /// The lowest nonce of the sender's transactions.
    pub fn get_lowest_nonce(&self, addr: &Address) -> (r: Option<U256>)
        requires
            self.wf(),
        ensures
            r == (if self@.contains_key(*addr) {
                Some(self@[*addr][0].transaction.nonce)
            } else {
                None
            }),
    {
        match self.get_lowest_nonce_tx(addr) {
            Some(tx) => Some(tx.nonce),
            None => None,
        }
    }

    /// The sender's transaction with the lowest nonce.
    pub fn get_lowest_nonce_tx(&self, addr: &Address) -> (r: Option<SignedTransaction>)
        requires
            self.wf(),
        ensures
            r == (if self@.contains_key(*addr) {
                Some(self@[*addr][0].transaction)
            } else {
                None
            }),
    {
        match self.buckets.get(addr) {
            Some(bucket) => {
                proof {
                    self.lemma_bucket(*addr);
                }
                bucket.get_lowest_nonce_tx()
            },
            None => None,
        }
    }

    /// The transaction of the sender that is ready, given the sender's next
    /// nonce and balance.
    pub fn recalculate_readiness_with_local_info(
        &self,
        addr: &Address,
        nonce: U256,
        balance: U256,
    ) -> (r: Option<SignedTransaction>)
        requires
            self.wf(),
        ensures
            r == match ready_entry(bucket_of(self@, *addr), nonce@, balance@) {
                Some(e) => Some(e.transaction),
                None => None,
            },
    {
        match self.buckets.get(addr) {
            Some(bucket) => {
                proof {
                    self.lemma_bucket(*addr);
                }
                bucket.recalculate_readiness_with_local_info(&nonce, &balance)
            },
            None => {
                assert forall|k: int| !crate::nonce_pool::is_ready_at(
                    bucket_of(self@, *addr),
                    nonce@,
                    balance@,
                    k,
                ) by {}
                None
            },
        }
    }

    /// The number of the sender's transactions whose nonce is at least
    /// `nonce`, and the first of them.
    pub fn get_pending_info(&self, addr: &Address, nonce: &U256) -> (r: Option<
        (usize, SignedTransaction),
    >)
        requires
            self.wf(),
        ensures
            r == (if count_below(bucket_of(self@, *addr), nonce@) < bucket_of(self@, *addr).len() {
                Some(
                    (
                        (bucket_of(self@, *addr).len() - count_below(
                            bucket_of(self@, *addr),
                            nonce@,
                        )) as usize,
                        bucket_of(self@, *addr)[count_below(
                            bucket_of(self@, *addr),
                            nonce@,
                        ) as int].transaction,
                    ),
                )
            } else {
                None
            }),
    {
        match self.buckets.get(addr) {
            Some(bucket) => {
                proof {
                    self.lemma_bucket(*addr);
                }
                bucket.get_pending_info(nonce)
            },
            None => None,
        }
    }

    /// The sender's transactions whose nonce is at least `start_nonce`, in
    /// the order of their nonces, and why the first of them is not ready for
    /// the sender's next nonce and balance.
    pub fn get_pending_transactions(
        &self,
        addr: &Address,
        start_nonce: &U256,
        local_nonce: &U256,
        local_balance: &U256,
    ) -> (r: (Vec<SignedTransaction>, Option<PendingReason>))
        requires
            self.wf(),
        ensures
            r.0@ == transactions_of(
                bucket_of(self@, *addr).subrange(
                    count_below(bucket_of(self@, *addr), start_nonce@) as int,
                    bucket_of(self@, *addr).len() as int,
                ),
            ),
            r.1 == (if r.0@.len() > 0 {
                pending_reason(
                    bucket_of(self@, *addr),
                    local_nonce@,
                    local_balance@,
                    r.0@[0].nonce@,
                )
            } else {
                None
            }),
    {
        match self.buckets.get(addr) {
            Some(bucket) => {
                proof {
                    self.lemma_bucket(*addr);
                }
                let pending_txs = bucket.get_pending_transactions(start_nonce);
                let reason = if pending_txs.len() > 0 {
                    bucket.check_pending_reason_with_local_info(
                        local_nonce,
                        local_balance,
                        &pending_txs[0],
                    )
                } else {
                    None
                };
                (pending_txs, reason)
            },
            None => {
                let pending_txs: Vec<SignedTransaction> = Vec::new();
                assert(pending_txs@ =~= transactions_of(
                    bucket_of(self@, *addr).subrange(
                        count_below(bucket_of(self@, *addr), start_nonce@) as int,
                        bucket_of(self@, *addr).len() as int,
                    ),
                ));
                (pending_txs, None)
            },
        }
    }

    /// Whether the pool holds a packed transaction of the sender with the
    /// nonce.
    pub fn check_tx_packed(&self, addr: Address, nonce: U256) -> (b: bool)
        requires
            self.wf(),
        ensures
            b == match resident(self@, addr, nonce@) {
                Some(e) => e.packed,
                None => false,
            },
    {
        match self.get_tx_by_nonce(&addr, &nonce) {
            Some(e) => e.is_already_packed(),
            None => false,
        }
    }

    /// The first nonce at or after `from_nonce` for which the sender has no
    /// transaction, or `None` for a sender without transactions. Should the
    /// sender have every nonce from `from_nonce` to the largest one, the
    /// largest one is returned.
    pub fn last_succ_nonce(&self, addr: Address, from_nonce: U256) -> (r: Option<U256>)
        requires
            self.wf(),
        ensures
            r.is_some() == self@.contains_key(addr),
            match r {
                Some(n) => {
                    &&& from_nonce@ <= n@
                    &&& all_present(self@[addr], from_nonce@, n@)
                    &&& (entry_at(self@[addr], n@).is_none() || n@ == U256::spec_max())
                },
                None => true,
            },
    {
        match self.buckets.get(&addr) {
            Some(bucket) => {
                proof {
                    self.lemma_bucket(addr);
                }
                Some(bucket.first_missing_nonce(&from_nonce))
            },
            None => None,
        }
    }
}

} // verus!
