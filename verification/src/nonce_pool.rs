//! The pending transactions of one sender, ordered by nonce.

use crate::types::{InsertError, InsertResult, PendingReason, SignedTransaction, TxWithReadyInfo};
use crate::u256::{lemma_u256_view, pow2_256, U256};
use vstd::prelude::*;

verus! {

/// The nonce of an entry.
pub open spec fn nonce_of(e: TxWithReadyInfo) -> nat {
    e.transaction.nonce@
}

/// Whether the nonces strictly increase along the sequence.
pub open spec fn sorted_by_nonce(s: Seq<TxWithReadyInfo>) -> bool {
    forall|i: int, j: int| 0 <= i < j < s.len() ==> nonce_of(s[i]) < nonce_of(s[j])
}

/// The number of entries whose nonce is below `n`. In a sorted sequence this
/// is the position of the first entry whose nonce is at least `n`.
pub open spec fn count_below(s: Seq<TxWithReadyInfo>, n: nat) -> nat
    decreases s.len(),
{
    if s.len() == 0 {
        0
    } else {
        count_below(s.drop_last(), n) + if nonce_of(s.last()) < n {
            1nat
        } else {
            0nat
        }
    }
}

/// The entry with nonce `n`, if the sorted sequence holds one.
pub open spec fn entry_at(s: Seq<TxWithReadyInfo>, n: nat) -> Option<TxWithReadyInfo> {
    let lb = count_below(s, n) as int;
    if lb < s.len() && nonce_of(s[lb]) == n {
        Some(s[lb])
    } else {
        None
    }
}

/// The balance that the entries at the positions from `from` up to, but not
/// including, `to` need together.
pub open spec fn cost_sum(s: Seq<TxWithReadyInfo>, from: int, to: int) -> nat
    decreases to - from,
{
    if from >= to {
        0
    } else {
        cost_sum(s, from, to - 1) + s[to - 1].spec_cost()
    }
}

/// Whether the entry at position `k` is the ready one for a sender whose next
/// nonce is `base` and whose balance is `balance`: the nonces from `base` up
/// to that of the entry are all present, the entries before it are packed, it
/// is not, and the balance covers all of them.
pub open spec fn is_ready_at(s: Seq<TxWithReadyInfo>, base: nat, balance: nat, k: int) -> bool {
    let lb = count_below(s, base) as int;
    &&& lb <= k < s.len()
    &&& forall|j: int| #![trigger s[j]] lb <= j <= k ==> nonce_of(s[j]) == base + (j - lb)
    &&& forall|j: int| #![trigger s[j]] lb <= j < k ==> s[j].packed
    &&& !s[k].packed
    &&& cost_sum(s, lb, k + 1) <= balance
}

/// The ready entry for a sender whose next nonce is `base` and whose balance
/// is `balance`, if there is one.
pub open spec fn ready_entry(s: Seq<TxWithReadyInfo>, base: nat, balance: nat) -> Option<
    TxWithReadyInfo,
> {
    if exists|k: int| is_ready_at(s, base, balance, k) {
        Some(s[choose|k: int| is_ready_at(s, base, balance, k)])
    } else {
        None
    }
}

/// Why the entry with nonce `nonce` is not ready for a sender whose next
/// nonce is `known` and whose balance is `balance`: a nonce from `known` up
/// to `nonce` is missing, or the balance does not cover the entries with
/// these nonces. A nonce below `known` has no reason.
pub open spec fn pending_reason(s: Seq<TxWithReadyInfo>, known: nat, balance: nat, nonce: nat)
    -> Option<PendingReason> {
    let lb = count_below(s, known) as int;
    let ub = count_below(s, nonce + 1) as int;
    if nonce < known {
        None
    } else if ub - lb != nonce + 1 - known {
        Some(PendingReason::FutureNonce)
    } else if cost_sum(s, lb, ub) > balance {
        Some(PendingReason::NotEnoughCash)
    } else {
        None
    }
}

/// What an insertion answers.
pub open spec fn insert_outcome(s: Seq<TxWithReadyInfo>, e: TxWithReadyInfo, force: bool)
    -> InsertResult {
    match entry_at(s, nonce_of(e)) {
        None => InsertResult::NewAdded,
        Some(resident) => if e.spec_should_replace(resident, force) {
            InsertResult::Updated(resident)
        } else {
            InsertResult::Failed(
                InsertError::ReplaceUnderpriced { min_gas_price: resident.transaction.gas_price },
            )
        },
    }
}

/// The entries after an insertion.
pub open spec fn insert_seq(s: Seq<TxWithReadyInfo>, e: TxWithReadyInfo, force: bool) -> Seq<
    TxWithReadyInfo,
> {
    let lb = count_below(s, nonce_of(e)) as int;
    match entry_at(s, nonce_of(e)) {
        None => s.insert(lb, e),
        Some(resident) => if e.spec_should_replace(resident, force) {
            s.update(lb, e)
        } else {
            s
        },
    }
}

/// The transactions of the entries, in the same order.
pub open spec fn transactions_of(s: Seq<TxWithReadyInfo>) -> Seq<SignedTransaction> {
    Seq::new(s.len(), |i: int| s[i].transaction)
}

/// The number of entries that are not packed.
pub open spec fn count_unpacked(s: Seq<TxWithReadyInfo>) -> nat
    decreases s.len(),
{
    if s.len() == 0 {
        0
    } else {
        count_unpacked(s.drop_last()) + if s.last().packed {
            0nat
        } else {
            1nat
        }
    }
}

/// In a sorted sequence, the position that splits the nonces below `n` from
/// the others is the number of nonces below `n`.
pub proof fn lemma_count_below(s: Seq<TxWithReadyInfo>, n: nat, lb: int)
    requires
        sorted_by_nonce(s),
        0 <= lb <= s.len(),
        forall|i: int| 0 <= i < lb ==> nonce_of(s[i]) < n,
        forall|i: int| lb <= i < s.len() ==> nonce_of(s[i]) >= n,
    ensures
        count_below(s, n) == lb,
    decreases s.len(),
{
    if s.len() > 0 {
        let t = s.drop_last();
        if lb == s.len() {
            lemma_count_below(t, n, lb - 1);
        } else {
            lemma_count_below(t, n, lb);
        }
    }
}

/// In a sorted sequence, the number of nonces below `n` is a position that
/// splits the nonces below `n` from the others.
pub proof fn lemma_count_below_splits(s: Seq<TxWithReadyInfo>, n: nat)
    requires
        sorted_by_nonce(s),
    ensures
        0 <= count_below(s, n) <= s.len(),
        forall|i: int| 0 <= i < count_below(s, n) ==> nonce_of(#[trigger] s[i]) < n,
        forall|i: int| count_below(s, n) <= i < s.len() ==> nonce_of(#[trigger] s[i]) >= n,
    decreases s.len(),
{
    if s.len() > 0 {
        let t = s.drop_last();
        lemma_count_below_splits(t, n);
        assert forall|i: int| 0 <= i < t.len() implies s[i] == t[i] by {}
        if nonce_of(s.last()) < n {
            if count_below(t, n) < t.len() {
                assert(nonce_of(t[count_below(t, n) as int]) >= n);
                assert(nonce_of(s[count_below(t, n) as int]) < nonce_of(s.last()));
            }
            assert forall|i: int| 0 <= i < s.len() implies nonce_of(#[trigger] s[i]) < n by {
                if i < s.len() - 1 {
                    assert(nonce_of(s[i]) < nonce_of(s[s.len() - 1]));
                }
            }
        } else {
            assert forall|i: int| 0 <= i < count_below(s, n) implies nonce_of(#[trigger] s[i])
                < n by {
                assert(s[i] == t[i]);
            }
            assert forall|i: int| count_below(s, n) <= i < s.len() implies nonce_of(
                #[trigger] s[i],
            ) >= n by {
                if i < t.len() {
                    assert(s[i] == t[i]);
                }
            }
        }
    }
}

/// The balance needed grows with the range.
pub proof fn lemma_cost_sum_grows(s: Seq<TxWithReadyInfo>, from: int, a: int, b: int)
    requires
        from <= a <= b,
    ensures
        cost_sum(s, from, a) <= cost_sum(s, from, b),
    decreases b - a,
{
    if a < b {
        lemma_cost_sum_grows(s, from, a, b - 1);
    }
}

/// At most one entry is ready.
pub proof fn lemma_ready_unique(s: Seq<TxWithReadyInfo>, base: nat, balance: nat, k: int)
    requires
        is_ready_at(s, base, balance, k),
    ensures
        ready_entry(s, base, balance) == Some(s[k]),
{
    let c = choose|c: int| is_ready_at(s, base, balance, c);
    if c < k {
        assert(s[c].packed);
    }
    if k < c {
        assert(s[k].packed);
    }
}

/// Whether the sorted sequence holds every nonce from `from` up to, but not
/// including, `to`.
pub open spec fn all_present(s: Seq<TxWithReadyInfo>, from: nat, to: nat) -> bool {
    forall|x: nat| from <= x < to ==> (#[trigger] entry_at(s, x)).is_some()
}

/// A run of consecutive nonces that starts at the first entry not below
/// `from` holds every nonce that it spans.
pub proof fn lemma_run_present(s: Seq<TxWithReadyInfo>, from: nat, i: int)
    requires
        sorted_by_nonce(s),
        count_below(s, from) <= i <= s.len(),
        forall|j: int|
            #![trigger s[j]]
            count_below(s, from) <= j < i ==> nonce_of(s[j]) == from + (j - count_below(s, from)),
    ensures
        all_present(s, from, (from + (i - count_below(s, from))) as nat),
        forall|j: int|
            #![trigger s[j]]
            count_below(s, from) <= j < i ==> count_below(s, nonce_of(s[j])) == j,
{
    let lb = count_below(s, from) as int;
    lemma_count_below_splits(s, from);
    assert forall|j: int| #![trigger s[j]] lb <= j < i implies count_below(s, nonce_of(s[j]))
        == j by {
        lemma_count_below(s, nonce_of(s[j]), j);
    }
    assert forall|x: nat| from <= x < from + (i - lb) implies (#[trigger] entry_at(
        s,
        x,
    )).is_some() by {
        let j = lb + (x - from);
        assert(nonce_of(s[j]) == x);
    }
}

/// The pending transactions of one sender: at most one for each nonce, kept
/// in the order of their nonces.
pub struct NoncePool {
    txs: Vec<TxWithReadyInfo>,
}

impl View for NoncePool {
    type V = Seq<TxWithReadyInfo>;

    closed spec fn view(&self) -> Seq<TxWithReadyInfo> {
        self.txs@
    }
}

impl NoncePool {
    /// The representation invariant: the nonces strictly increase.
    pub open spec fn wf(&self) -> bool {
        sorted_by_nonce(self@)
    }

    /// A pool without transactions.
    pub fn new() -> (r: NoncePool)
        ensures
            r.wf(),
            r@ == Seq::<TxWithReadyInfo>::empty(),
    {
        NoncePool { txs: Vec::new() }
    }

    /// The number of transactions.
    pub fn len(&self) -> (n: usize)
        ensures
            n == self@.len(),
    {
        self.txs.len()
    }

    /// Whether the pool holds no transaction.
    pub fn is_empty(&self) -> (b: bool)
        ensures
            b == (self@.len() == 0),
    {
        self.txs.len() == 0
    }

    /// The entry at a position of the nonce order.
    pub fn entry(&self, i: usize) -> (e: TxWithReadyInfo)
        requires
            i < self@.len(),
        ensures
            e == self@[i as int],
    {
        self.txs[i]
    }

    /// The position of the first entry whose nonce is at least `nonce`.
    fn lower_bound(&self, nonce: &U256) -> (r: usize)
        requires
            self.wf(),
        ensures
            r == count_below(self@, nonce@),
            r <= self@.len(),
            forall|i: int| 0 <= i < r ==> nonce_of(#[trigger] self@[i]) < nonce@,
            forall|i: int| r <= i < self@.len() ==> nonce_of(#[trigger] self@[i]) >= nonce@,
    {
        let mut lo: usize = 0;
        let mut hi: usize = self.txs.len();
        while lo < hi
            invariant
                self.wf(),
                lo <= hi <= self@.len(),
                forall|i: int| 0 <= i < lo ==> nonce_of(#[trigger] self@[i]) < nonce@,
                forall|i: int| hi <= i < self@.len() ==> nonce_of(#[trigger] self@[i]) >= nonce@,
            decreases hi - lo,
        {
            let mid: usize = lo + (hi - lo) / 2;
            if self.txs[mid].transaction.nonce.lt(nonce) {
                lo = mid + 1;
            } else {
                hi = mid;
            }
        }
        proof {
            lemma_count_below(self@, nonce@, lo as int);
        }
        lo
    }

    /// The position after the last entry whose nonce is at most `nonce`.
    fn upper_bound(&self, nonce: &U256) -> (r: usize)
        requires
            self.wf(),
        ensures
            r == count_below(self@, nonce@ + 1),
            r <= self@.len(),
    {
        match nonce.checked_add(&U256::from_u64(1)) {
            Some(next) => self.lower_bound(&next),
            None => {
                proof {
                    assert forall|i: int| 0 <= i < self@.len() implies nonce_of(self@[i])
                        < nonce@ + 1 by {
                        lemma_u256_view(self@[i].transaction.nonce, *nonce);
                    }
                    lemma_count_below(self@, nonce@ + 1, self@.len() as int);
                }
                self.txs.len()
            },
        }
    }

    /// Adds an entry. An entry of the same nonce is replaced if the new one
    /// should replace it; otherwise the pool stays as it is and the answer
    /// names the gas price to exceed.
    pub fn insert(&mut self, entry: &TxWithReadyInfo, force: bool) -> (r: InsertResult)
        requires
            old(self).wf(),
        ensures
            final(self).wf(),
            r == insert_outcome(old(self)@, *entry, force),
            final(self)@ == insert_seq(old(self)@, *entry, force),
    {
        let lb: usize = self.lower_bound(&entry.transaction.nonce);
        if lb < self.txs.len() && self.txs[lb].transaction.nonce.same(&entry.transaction.nonce) {
            let resident: TxWithReadyInfo = self.txs[lb];
            if entry.should_replace(&resident, force) {
                self.txs.push(*entry);
                self.txs.swap_remove(lb);
                assert(self@ =~= old(self)@.update(lb as int, *entry));
                InsertResult::Updated(resident)
            } else {
                InsertResult::Failed(
                    InsertError::ReplaceUnderpriced {
                        min_gas_price: resident.transaction.gas_price,
                    },
                )
            }
        } else {
            self.txs.insert(lb, *entry);
            proof {
                lemma_u256_view(entry.transaction.nonce, entry.transaction.nonce);
                if lb < old(self)@.len() {
                    lemma_u256_view(old(self)@[lb as int].transaction.nonce, entry.transaction.nonce);
                }
                assert forall|i: int, j: int| 0 <= i < j < self@.len() implies nonce_of(self@[i])
                    < nonce_of(self@[j]) by {
                    let i0 = if i < lb { i } else { i - 1 };
                    let j0 = if j < lb { j } else { j - 1 };
                    if i != lb {
                        assert(self@[i] == old(self)@[i0]);
                    }
                    if j != lb {
                        assert(self@[j] == old(self)@[j0]);
                    }
                }
            }
            InsertResult::NewAdded
        }
    }

    /// Takes out the entry with the lowest nonce.
    pub fn remove_lowest_nonce(&mut self) -> (r: Option<TxWithReadyInfo>)
        requires
            old(self).wf(),
        ensures
            final(self).wf(),
            old(self)@.len() == 0 ==> r.is_none() && final(self)@ == old(self)@,
            old(self)@.len() > 0 ==> r == Some(old(self)@[0]) && final(self)@ == old(self)@.subrange(
                1,
                old(self)@.len() as int,
            ),
    {
        if self.txs.len() == 0 {
            None
        } else {
            let e = self.txs.remove(0);
            assert(self@ =~= old(self)@.subrange(1, old(self)@.len() as int));
            Some(e)
        }
    }

    /// The transaction with the lowest nonce.
    pub fn get_lowest_nonce_tx(&self) -> (r: Option<SignedTransaction>)
        ensures
            r == (if self@.len() > 0 {
                Some(self@[0].transaction)
            } else {
                None
            }),
    {
        if self.txs.len() == 0 {
            None
        } else {
            Some(self.txs[0].transaction)
        }
    }

    /// The entry with the given nonce.
    pub fn get_tx_by_nonce(&self, nonce: &U256) -> (r: Option<TxWithReadyInfo>)
        requires
            self.wf(),
        ensures
            r == entry_at(self@, nonce@),
    {
        let lb: usize = self.lower_bound(nonce);
        if lb < self.txs.len() && self.txs[lb].transaction.nonce.same(nonce) {
            Some(self.txs[lb])
        } else {
            None
        }
    }

    /// Whether the pool holds an entry with the given nonce.
    pub fn check_nonce_exists(&self, nonce: &U256) -> (b: bool)
        requires
            self.wf(),
        ensures
            b == entry_at(self@, nonce@).is_some(),
    {
        self.get_tx_by_nonce(nonce).is_some()
    }

    /// The number of entries whose nonce is below `nonce`.
    pub fn count_less(&self, nonce: &U256) -> (n: usize)
        requires
            self.wf(),
        ensures
            n == count_below(self@, nonce@),
            n <= self@.len(),
    {
        self.lower_bound(nonce)
    }

    /// The smallest nonce in the pool that is at least `nonce`.
    pub fn succ_nonce(&self, nonce: &U256) -> (r: Option<U256>)
        requires
            self.wf(),
        ensures
            r == (if count_below(self@, nonce@) < self@.len() {
                Some(self@[count_below(self@, nonce@) as int].transaction.nonce)
            } else {
                None
            }),
    {
        let lb: usize = self.lower_bound(nonce);
        if lb < self.txs.len() {
            Some(self.txs[lb].transaction.nonce)
        } else {
            None
        }
    }

    /// The first nonce at or after `from` that the pool does not hold. Should
    /// the pool hold every nonce from `from` to the largest one, the largest
    /// one is returned.
    pub fn first_missing_nonce(&self, from: &U256) -> (r: U256)
        requires
            self.wf(),
        ensures
            from@ <= r@,
            all_present(self@, from@, r@),
            entry_at(self@, r@).is_none() || r@ == U256::spec_max(),
    {
        let lb: usize = self.lower_bound(from);
        let mut i: usize = lb;
        let mut next: U256 = *from;
        loop
            invariant
                self.wf(),
                lb == count_below(self@, from@),
                lb <= i <= self@.len(),
                next@ == from@ + (i - lb),
                forall|j: int|
                    #![trigger self@[j]]
                    lb <= j < i ==> nonce_of(self@[j]) == from@ + (j - lb),
            decreases self@.len() - i,
        {
            proof {
                lemma_run_present(self@, from@, i as int);
                lemma_count_below_splits(self@, from@);
            }
            if i >= self.txs.len() || !self.txs[i].transaction.nonce.same(&next) {
                proof {
                    if i < self@.len() {
                        if i > lb {
                            assert(nonce_of(self@[i - 1]) < nonce_of(self@[i as int]));
                        }
                        assert(nonce_of(self@[i as int]) > next@);
                    }
                    lemma_count_below(self@, next@, i as int);
                }
                return next;
            }
            match next.checked_add(&U256::from_u64(1)) {
                Some(n) => {
                    next = n;
                    i = i + 1;
                },
                None => {
                    proof {
                        lemma_u256_view(next, next);
                    }
                    return next;
                },
            }
        }
    }

    /// The transaction that is ready for a sender whose next nonce is `nonce`
    /// and whose balance is `balance`.
    pub fn recalculate_readiness_with_local_info(&self, nonce: &U256, balance: &U256) -> (r:
        Option<SignedTransaction>)
        requires
            self.wf(),
        ensures
            r == match ready_entry(self@, nonce@, balance@) {
                Some(e) => Some(e.transaction),
                None => None,
            },
    {
        let lb: usize = self.lower_bound(nonce);
        let mut i: usize = lb;
        let mut expected: U256 = *nonce;
        let mut spent: U256 = U256::zero();
        loop
            invariant
                self.wf(),
                lb == count_below(self@, nonce@),
                lb <= i <= self@.len(),
                expected@ == nonce@ + (i - lb),
                spent@ == cost_sum(self@, lb as int, i as int),
                spent@ <= balance@,
                forall|j: int|
                    #![trigger self@[j]]
                    lb <= j < i ==> nonce_of(self@[j]) == nonce@ + (j - lb) && self@[j].packed,
            decreases self@.len() - i,
        {
            if i >= self.txs.len() {
                return None;
            }
            let e: TxWithReadyInfo = self.txs[i];
            if !e.transaction.nonce.same(&expected) {
                assert forall|k: int| !is_ready_at(self@, nonce@, balance@, k) by {
                    if is_ready_at(self@, nonce@, balance@, k) {
                        if k < i {
                            assert(self@[k].packed);
                        } else {
                            assert(nonce_of(self@[i as int]) == nonce@ + (i - lb));
                        }
                    }
                }
                return None;
            }
            proof {
                lemma_u256_view(*balance, *balance);
            }
            let total: Option<U256> = match e.calc_tx_cost() {
                Some(cost) => spent.checked_add(&cost),
                None => None,
            };
            let affordable: bool = match total {
                Some(t) => t.le(balance),
                None => false,
            };
            assert(affordable == (cost_sum(self@, lb as int, i + 1) <= balance@));
            if !affordable {
                assert forall|k: int| !is_ready_at(self@, nonce@, balance@, k) by {
                    if is_ready_at(self@, nonce@, balance@, k) {
                        if k < i {
                            assert(self@[k].packed);
                        } else {
                            lemma_cost_sum_grows(self@, lb as int, i + 1, k + 1);
                        }
                    }
                }
                return None;
            }
            if !e.packed {
                proof {
                    assert(is_ready_at(self@, nonce@, balance@, i as int));
                    lemma_ready_unique(self@, nonce@, balance@, i as int);
                }
                return Some(e.transaction);
            }
            match expected.checked_add(&U256::from_u64(1)) {
                Some(next) => {
                    expected = next;
                },
                None => {
                    assert forall|k: int| !is_ready_at(self@, nonce@, balance@, k) by {
                        if is_ready_at(self@, nonce@, balance@, k) {
                            if k <= i {
                                assert(self@[k].packed);
                            } else {
                                lemma_u256_view(self@[i + 1].transaction.nonce, *nonce);
                                assert(nonce_of(self@[i + 1]) == nonce@ + (i + 1 - lb));
                            }
                        }
                    }
                    return None;
                },
            }
            spent = total.unwrap();
            i = i + 1;
        }
    }

    /// The number of entries whose nonce is at least `nonce`, and the first
    /// of them.
    pub fn get_pending_info(&self, nonce: &U256) -> (r: Option<(usize, SignedTransaction)>)
        requires
            self.wf(),
        ensures
            r == (if count_below(self@, nonce@) < self@.len() {
                Some(
                    (
                        (self@.len() - count_below(self@, nonce@)) as usize,
                        self@[count_below(self@, nonce@) as int].transaction,
                    ),
                )
            } else {
                None
            }),
    {
        let lb: usize = self.lower_bound(nonce);
        if lb < self.txs.len() {
            Some((self.txs.len() - lb, self.txs[lb].transaction))
        } else {
            None
        }
    }

    /// The transactions whose nonce is at least `nonce`, in the order of
    /// their nonces.
    pub fn get_pending_transactions(&self, nonce: &U256) -> (r: Vec<SignedTransaction>)
        requires
            self.wf(),
        ensures
            r@ == transactions_of(
                self@.subrange(count_below(self@, nonce@) as int, self@.len() as int),
            ),
    {
        let lb: usize = self.lower_bound(nonce);
        let mut out: Vec<SignedTransaction> = Vec::new();
        let mut i: usize = lb;
        while i < self.txs.len()
            invariant
                lb <= i <= self@.len(),
                out@ == transactions_of(self@.subrange(lb as int, i as int)),
            decreases self@.len() - i,
        {
            out.push(self.txs[i].transaction);
            i = i + 1;
            assert(out@ =~= transactions_of(self@.subrange(lb as int, i as int)));
        }
        out
    }

    /// Whether the balance covers the entries at the positions from `from`
    /// up to, but not including, `to`.
    fn covers(&self, from: usize, to: usize, balance: &U256) -> (b: bool)
        requires
            from <= to <= self@.len(),
        ensures
            b == (cost_sum(self@, from as int, to as int) <= balance@),
    {
        let mut i: usize = from;
        let mut spent: U256 = U256::zero();
        proof {
            lemma_u256_view(*balance, *balance);
        }
        while i < to
            invariant
                from <= i <= to <= self@.len(),
                spent@ == cost_sum(self@, from as int, i as int),
                spent@ <= balance@,
                balance@ < pow2_256(),
            decreases to - i,
        {
            let total: Option<U256> = match self.txs[i].calc_tx_cost() {
                Some(cost) => spent.checked_add(&cost),
                None => None,
            };
            let affordable: bool = match total {
                Some(t) => t.le(balance),
                None => false,
            };
            if !affordable {
                proof {
                    lemma_cost_sum_grows(self@, from as int, i + 1, to as int);
                }
                return false;
            }
            spent = total.unwrap();
            i = i + 1;
        }
        true
    }

    /// Why the transaction is not ready for a sender whose next nonce is
    /// `nonce` and whose balance is `balance`, if anything keeps it.
    pub fn check_pending_reason_with_local_info(
        &self,
        nonce: &U256,
        balance: &U256,
        pending_tx: &SignedTransaction,
    ) -> (r: Option<PendingReason>)
        requires
            self.wf(),
        ensures
            r == pending_reason(self@, nonce@, balance@, pending_tx.nonce@),
    {
        let gap: U256 = match pending_tx.nonce.checked_sub(nonce) {
            Some(gap) => gap,
            None => {
                return None;
            },
        };
        let lb: usize = self.lower_bound(nonce);
        let ub: usize = self.upper_bound(&pending_tx.nonce);
        proof {
            lemma_count_below_splits(self@, nonce@);
            lemma_count_below_splits(self@, pending_tx.nonce@ + 1);
            if ub < lb {
                assert(nonce_of(self@[ub as int]) >= pending_tx.nonce@ + 1);
                assert(nonce_of(self@[ub as int]) < nonce@);
            }
        }
        let present: U256 = U256::from_usize(ub - lb);
        let complete: bool = match gap.checked_add(&U256::from_u64(1)) {
            Some(wanted) => wanted.same(&present),
            None => {
                proof {
                    lemma_u256_view(present, present);
                    assert(present@ <= usize::MAX);
                    assert(pow2_256() > usize::MAX) by (nonlinear_arith)
                        requires
                            pow2_256() == crate::u256::pow2_128() * crate::u256::pow2_128(),
                            crate::u256::pow2_128() > usize::MAX,
                    ;
                }
                false
            },
        };
        if !complete {
            return Some(PendingReason::FutureNonce);
        }
        if !self.covers(lb, ub, balance) {
            return Some(PendingReason::NotEnoughCash);
        }
        None
    }
}

} // verus!
