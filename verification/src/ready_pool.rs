//! The ready transactions, at most one for each sender, from which a block
//! is filled by a draw weighted by gas price.

use crate::outside::random_u128;
use crate::types::{Address, SignedTransaction};
use crate::vec_map::VecMap;
use vstd::prelude::*;

verus! {

/// `base` to the power `exp`.
pub open spec fn power(base: nat, exp: nat) -> nat
    decreases exp,
{
    if exp == 0 {
        1
    } else {
        base * power(base, (exp - 1) as nat)
    }
}

/// The weight of a transaction in the draw: the gas price divided by
/// `scaling`, capped at the largest 128-bit number, raised to the power
/// `exp`, and capped again.
pub open spec fn tx_weight(gas_price: nat, scaling: nat, exp: nat) -> nat {
    let scaled = gas_price / scaling;
    let base = if scaled > u128::MAX {
        u128::MAX as nat
    } else {
        scaled
    };
    if power(base, exp) > u128::MAX {
        u128::MAX as nat
    } else {
        power(base, exp)
    }
}

/// A ready transaction with its weight.
#[derive(Clone, Copy, Debug, PartialEq, Eq, Structural)]
pub struct ReadyNode {
    /// The transaction.
    pub tx: SignedTransaction,
    /// Its weight in the draw.
    pub weight: u128,
}

/// The sum of the weights of the first `n` nodes.
pub open spec fn weight_sum(s: Seq<ReadyNode>, n: int) -> nat
    decreases n,
{
    if n <= 0 {
        0
    } else {
        weight_sum(s, n - 1) + s[n - 1].weight as nat
    }
}

/// Whether the draw with the random number `rand` falls on the node at
/// position `i`: the number, reduced modulo the sum of all weights, lies in
/// the node's stretch of the line on which the weights are laid end to end.
pub open spec fn is_drawn(s: Seq<ReadyNode>, rand: nat, i: int) -> bool {
    let total = weight_sum(s, s.len() as int);
    &&& 0 <= i < s.len()
    &&& total > 0
    &&& weight_sum(s, i) <= rand % total < weight_sum(s, i + 1)
}

/// The position on which the draw with the random number `rand` falls; none
/// when all weights are zero.
pub open spec fn drawn_index(s: Seq<ReadyNode>, rand: nat) -> Option<int> {
    if exists|i: int| is_drawn(s, rand, i) {
        Some(choose|i: int| is_drawn(s, rand, i))
    } else {
        None
    }
}

/// The transaction on which the draw with the random number `rand` falls.
pub open spec fn draw_result(s: Seq<ReadyNode>, rand: nat) -> Option<SignedTransaction> {
    match drawn_index(s, rand) {
        Some(i) => Some(s[i].tx),
        None => None,
    }
}

/// The position of a sender's node in the order, if the sender has one.
pub open spec fn position_of(order: Seq<ReadyNode>, a: Address) -> Option<int> {
    if exists|i: int| 0 <= i < order.len() && (#[trigger] order[i]).tx.sender == a {
        Some(choose|i: int| 0 <= i < order.len() && (#[trigger] order[i]).tx.sender == a)
    } else {
        None
    }
}

/// The order after a node has been listed: in the place of the node of the
/// same sender, or at the end if the sender had none.
pub open spec fn order_with(order: Seq<ReadyNode>, node: ReadyNode) -> Seq<ReadyNode> {
    match position_of(order, node.tx.sender) {
        Some(i) => order.update(i, node),
        None => order.push(node),
    }
}

/// The order after the node of a sender has been taken out.
pub open spec fn order_without(order: Seq<ReadyNode>, a: Address) -> Seq<ReadyNode> {
    match position_of(order, a) {
        Some(i) => order.remove(i),
        None => order,
    }
}

/// The node of a transaction, given the divisor and the exponent of the
/// weight.
pub open spec fn ready_node(tx: SignedTransaction, scaling: nat, exp: nat) -> ReadyNode {
    ReadyNode { tx, weight: tx_weight(tx.gas_price@, scaling, exp) as u128 }
}

/// The sums of the weights grow with the number of nodes.
pub proof fn lemma_weight_sum_grows(s: Seq<ReadyNode>, a: int, b: int)
    requires
        a <= b,
    ensures
        weight_sum(s, a) <= weight_sum(s, b),
    decreases b - a,
{
    if a < b {
        lemma_weight_sum_grows(s, a, b - 1);
    }
}

/// The draw falls on at most one position.
pub proof fn lemma_drawn_unique(s: Seq<ReadyNode>, rand: nat, i: int)
    requires
        is_drawn(s, rand, i),
    ensures
        drawn_index(s, rand) == Some(i),
{
    let c = choose|c: int| is_drawn(s, rand, c);
    if c < i {
        lemma_weight_sum_grows(s, c + 1, i);
    }
    if i < c {
        lemma_weight_sum_grows(s, i + 1, c);
    }
}

/// The ready transactions by sender.
pub struct ReadyAccountPool {
    treap: VecMap<Address, ReadyNode>,
    tx_weight_scaling: u64,
    tx_weight_exp: u8,
}

impl View for ReadyAccountPool {
    type V = Map<Address, SignedTransaction>;

    closed spec fn view(&self) -> Map<Address, SignedTransaction> {
        Map::new(|a: Address| self.treap@.contains_key(a), |a: Address| self.treap@[a].tx)
    }
}

impl ReadyAccountPool {
    /// The nodes in the order in which the draw walks them.
    pub closed spec fn order(&self) -> Seq<ReadyNode> {
        self.treap.spec_vals()
    }

    /// The divisor of the gas price in the weight.
    pub closed spec fn spec_scaling(&self) -> nat {
        self.tx_weight_scaling as nat
    }

    /// The exponent of the weight.
    pub closed spec fn spec_exp(&self) -> nat {
        self.tx_weight_exp as nat
    }

    /// The representation invariant.
    pub closed spec fn wf(&self) -> bool {
        &&& self.treap.wf()
        &&& self.tx_weight_scaling > 0
        &&& forall|a: Address| #[trigger]
            self.treap@.contains_key(a) ==> self.treap@[a].tx.sender == a && self.treap@[a].weight
                == tx_weight(
                self.treap@[a].tx.gas_price@,
                self.tx_weight_scaling as nat,
                self.tx_weight_exp as nat,
            )
    }

    /// In a well-formed pool every transaction is listed under its sender,
    /// the order holds each listed transaction once with its weight, and the
    /// number of senders is finite.
    pub proof fn lemma_wf(&self)
        requires
            self.wf(),
        ensures
            self@.dom().finite(),
            self@.len() == self.order().len(),
            self.spec_scaling() > 0,
            forall|a: Address| #[trigger] self@.contains_key(a) ==> self@[a].sender == a,
            forall|i: int|
                #![trigger self.order()[i]]
                0 <= i < self.order().len() ==> self@.contains_key(self.order()[i].tx.sender)
                    && self@[self.order()[i].tx.sender] == self.order()[i].tx
                    && self.order()[i].weight == tx_weight(
                    self.order()[i].tx.gas_price@,
                    self.spec_scaling(),
                    self.spec_exp(),
                ),
            forall|a: Address| #[trigger]
                self@.contains_key(a) ==> exists|i: int|
                    0 <= i < self.order().len() && self.order()[i].tx == self@[a],
            forall|i: int, j: int|
                #![trigger self.order()[i], self.order()[j]]
                0 <= i < j < self.order().len() ==> self.order()[i].tx.sender
                    != self.order()[j].tx.sender,
    {
        self.treap.lemma_entries();
        assert forall|i: int, j: int|
            #![trigger self.order()[i], self.order()[j]]
            0 <= i < j < self.order().len() implies self.order()[i].tx.sender
            != self.order()[j].tx.sender by {
            let ki = self.treap.spec_keys()[i];
            let kj = self.treap.spec_keys()[j];
            assert(self.treap@.contains_key(ki) && self.treap@.contains_key(kj));
            assert(ki != kj);
        }
        assert(self@.dom() =~= self.treap@.dom());
        assert forall|i: int| #![trigger self.order()[i]] 0 <= i < self.order().len() implies {
            &&& self@.contains_key(self.order()[i].tx.sender)
            &&& self@[self.order()[i].tx.sender] == self.order()[i].tx
            &&& self.order()[i].weight == tx_weight(
                self.order()[i].tx.gas_price@,
                self.spec_scaling(),
                self.spec_exp(),
            )
        } by {
            let k = self.treap.spec_keys()[i];
            assert(self.treap@.contains_key(k));
        }
        assert forall|a: Address| #[trigger] self@.contains_key(a) implies exists|i: int|
            0 <= i < self.order().len() && self.order()[i].tx == self@[a] by {
            assert(self.treap@.contains_key(a));
            let i = self.treap.spec_keys().index_of(a);
            assert(self.treap.spec_keys()[i] == a);
            assert(self.order()[i].tx == self@[a]);
        }
    }

    /// The position of a sender's node in the order is that of the sender
    /// among the keys.
    proof fn lemma_position(&self, a: Address)
        requires
            self.wf(),
        ensures
            self@.contains_key(a) == self.treap@.contains_key(a),
            self.treap.spec_keys().len() == self.order().len(),
            forall|i: int|
                #![trigger self.order()[i]]
                0 <= i < self.order().len() && self.order()[i].tx.sender == a
                    ==> self.treap@.contains_key(a) && self.treap.spec_keys().index_of(a) == i,
    {
        self.treap.lemma_entries();
        assert forall|i: int|
            #![trigger self.order()[i]]
            0 <= i < self.order().len() && self.order()[i].tx.sender
                == a implies self.treap@.contains_key(a) && self.treap.spec_keys().index_of(a)
            == i by {
            let k = self.treap.spec_keys()[i];
            assert(self.treap@.contains_key(k));
            assert(k == a);
            let j = self.treap.spec_keys().index_of(a);
            assert(self.treap.spec_keys()[j] == a);
        }
    }

    /// An empty pool with the given divisor and exponent for the weights.
    pub fn new(tx_weight_scaling: u64, tx_weight_exp: u8) -> (r: ReadyAccountPool)
        requires
            tx_weight_scaling > 0,
        ensures
            r.wf(),
            r@ == Map::<Address, SignedTransaction>::empty(),
            r.order() == Seq::<ReadyNode>::empty(),
            r.spec_scaling() == tx_weight_scaling,
            r.spec_exp() == tx_weight_exp,
    {
        let r = ReadyAccountPool { treap: VecMap::new(), tx_weight_scaling, tx_weight_exp };
        assert(r@ =~= Map::<Address, SignedTransaction>::empty());
        proof {
            r.treap.lemma_entries();
            assert(r.order() =~= Seq::<ReadyNode>::empty());
        }
        r
    }

    /// Removes every transaction.
    pub fn clear(&mut self)
        requires
            old(self).wf(),
        ensures
            final(self).wf(),
            final(self)@ == Map::<Address, SignedTransaction>::empty(),
            final(self).order() == Seq::<ReadyNode>::empty(),
            final(self).spec_scaling() == old(self).spec_scaling(),
            final(self).spec_exp() == old(self).spec_exp(),
    {
        self.treap.clear();
        proof {
            self.treap.lemma_entries();
            assert(self.order() =~= Seq::<ReadyNode>::empty());
        }
        assert(self@ =~= Map::<Address, SignedTransaction>::empty());
    }

    /// The number of senders with a ready transaction.
    pub fn len(&self) -> (n: usize)
        requires
            self.wf(),
        ensures
            n == self@.len(),
            n == self.order().len(),
    {
        proof {
            assert(self@.dom() =~= self.treap@.dom());
        }
        self.treap.len()
    }

    /// The transaction at a position of the order of the draw.
    pub fn tx_at(&self, i: usize) -> (tx: SignedTransaction)
        requires
            self.wf(),
            i < self.order().len(),
        ensures
            tx == self.order()[i as int].tx,
    {
        self.treap.value_at(i).tx
    }

    /// The ready transaction of a sender.
    pub fn get(&self, address: &Address) -> (r: Option<SignedTransaction>)
        requires
            self.wf(),
        ensures
            r == (if self@.contains_key(*address) {
                Some(self@[*address])
            } else {
                None
            }),
    {
        match self.treap.get(address) {
            Some(node) => Some(node.tx),
            None => None,
        }
    }

    /// Takes out the ready transaction of a sender.
    pub fn remove(&mut self, address: &Address) -> (r: Option<SignedTransaction>)
        requires
            old(self).wf(),
        ensures
            final(self).wf(),
            final(self)@ == old(self)@.remove(*address),
            r == (if old(self)@.contains_key(*address) {
                Some(old(self)@[*address])
            } else {
                None
            }),
            final(self).spec_scaling() == old(self).spec_scaling(),
            final(self).spec_exp() == old(self).spec_exp(),
            !old(self)@.contains_key(*address) ==> final(self).order() == old(self).order(),
            forall|i: int|
                #![trigger old(self).order()[i]]
                0 <= i < old(self).order().len() && old(self).order()[i].tx.sender == *address
                    ==> final(self).order() == old(self).order().remove(i),
            final(self).order() == order_without(old(self).order(), *address),
    {
        proof {
            self.lemma_position(*address);
            self.lemma_wf();
        }
        let r = match self.treap.remove(address) {
            Some(node) => Some(node.tx),
            None => None,
        };
        proof {
            assert(self@ =~= old(self)@.remove(*address));
            assert forall|a: Address| #[trigger] self.treap@.contains_key(a) implies old(
                self,
            ).treap@.contains_key(a) by {}
        }
        r
    }

    /// The weight of a gas price.
    fn weight_of(&self, tx: &SignedTransaction) -> (w: u128)
        requires
            self.tx_weight_scaling > 0,
        ensures
            w == tx_weight(
                tx.gas_price@,
                self.tx_weight_scaling as nat,
                self.tx_weight_exp as nat,
            ),
    {
        let base: u128 = tx.gas_price.quotient_clamped(self.tx_weight_scaling);
        let mut weight: u128 = 1;
        let mut i: u8 = 0;
        while i < self.tx_weight_exp
            invariant
                i <= self.tx_weight_exp,
                weight as nat == (if power(base as nat, i as nat) > u128::MAX {
                    u128::MAX as nat
                } else {
                    power(base as nat, i as nat)
                }),
            decreases self.tx_weight_exp - i,
        {
            let ghost p = power(base as nat, i as nat);
            proof {
                assert(power(base as nat, (i + 1) as nat) == base as nat * p);
                if p > u128::MAX {
                    if base == 0 {
                        assert(i > 0);
                        assert(p == 0nat * power(0, (i - 1) as nat));
                    }
                    assert(base as nat * p > u128::MAX) by (nonlinear_arith)
                        requires
                            base >= 1,
                            p > u128::MAX,
                    ;
                    if base >= 2 {
                        assert(weight as nat * base as nat > u128::MAX) by (nonlinear_arith)
                            requires
                                base >= 2,
                                weight == u128::MAX,
                        ;
                    }
                } else {
                    assert(weight as nat * base as nat == base as nat * p) by (nonlinear_arith)
                        requires
                            weight as nat == p,
                    ;
                }
            }
            weight = match weight.checked_mul(base) {
                Some(w) => w,
                None => u128::MAX,
            };
            i = i + 1;
        }
        weight
    }

    /// Lists a transaction as the ready one of its sender and returns the
    /// one that was listed.
    pub fn insert(&mut self, tx: SignedTransaction) -> (r: Option<SignedTransaction>)
        requires
            old(self).wf(),
        ensures
            final(self).wf(),
            final(self)@ == old(self)@.insert(tx.sender, tx),
            r == (if old(self)@.contains_key(tx.sender) {
                Some(old(self)@[tx.sender])
            } else {
                None
            }),
            final(self).spec_scaling() == old(self).spec_scaling(),
            final(self).spec_exp() == old(self).spec_exp(),
            !old(self)@.contains_key(tx.sender) ==> final(self).order() == old(self).order().push(
                ReadyNode {
                    tx,
                    weight: tx_weight(tx.gas_price@, old(self).spec_scaling(), old(self).spec_exp())
                        as u128,
                },
            ),
            forall|i: int|
                #![trigger old(self).order()[i]]
                0 <= i < old(self).order().len() && old(self).order()[i].tx.sender == tx.sender
                    ==> final(self).order() == old(self).order().update(
                    i,
                    ReadyNode {
                        tx,
                        weight: tx_weight(
                            tx.gas_price@,
                            old(self).spec_scaling(),
                            old(self).spec_exp(),
                        ) as u128,
                    },
                ),
            final(self).order() == order_with(
                old(self).order(),
                ready_node(tx, old(self).spec_scaling(), old(self).spec_exp()),
            ),
    {
        proof {
            self.lemma_position(tx.sender);
            self.lemma_wf();
        }
        let weight: u128 = self.weight_of(&tx);
        let r = match self.treap.insert(tx.sender, ReadyNode { tx, weight }) {
            Some(node) => Some(node.tx),
            None => None,
        };
        proof {
            assert(self@ =~= old(self)@.insert(tx.sender, tx));
            assert forall|a: Address| #[trigger] self.treap@.contains_key(a) && a
                != tx.sender implies old(self).treap@.contains_key(a) by {}
        }
        r
    }

    /// Sets or clears the ready transaction: with a transaction, lists it
    /// under its sender; without, removes the one of `address`. Returns the
    /// transaction that was listed there.
    pub fn update(&mut self, address: &Address, tx: Option<SignedTransaction>) -> (r: Option<
        SignedTransaction,
    >)
        requires
            old(self).wf(),
        ensures
            final(self).wf(),
            final(self)@ == (match tx {
                Some(t) => old(self)@.insert(t.sender, t),
                None => old(self)@.remove(*address),
            }),
            final(self).order() == (match tx {
                Some(t) => order_with(
                    old(self).order(),
                    ready_node(t, old(self).spec_scaling(), old(self).spec_exp()),
                ),
                None => order_without(old(self).order(), *address),
            }),
            final(self).spec_scaling() == old(self).spec_scaling(),
            final(self).spec_exp() == old(self).spec_exp(),
    {
        match tx {
            Some(t) => self.insert(t),
            None => self.remove(address),
        }
    }

    /// The sum of all weights, or `None` when it exceeds 128 bits.
    fn sum_weight(&self) -> (r: Option<u128>)
        requires
            self.wf(),
        ensures
            match r {
                Some(t) => t as nat == weight_sum(self.order(), self.order().len() as int),
                None => weight_sum(self.order(), self.order().len() as int) > u128::MAX,
            },
    {
        let n: usize = self.treap.len();
        let mut i: usize = 0;
        let mut total: u128 = 0;
        while i < n
            invariant
                self.wf(),
                n == self.order().len(),
                i <= n,
                total as nat == weight_sum(self.order(), i as int),
            decreases n - i,
        {
            match total.checked_add(self.treap.value_at(i).weight) {
                Some(t) => {
                    total = t;
                },
                None => {
                    proof {
                        lemma_weight_sum_grows(self.order(), i + 1, n as int);
                    }
                    return None;
                },
            }
            i = i + 1;
        }
        Some(total)
    }

    /// Draws a transaction with the given random number, takes it out and
    /// returns it. Nothing is drawn when all weights are zero.
    pub fn pop_with(&mut self, rand: u128) -> (r: Option<SignedTransaction>)
        requires
            old(self).wf(),
        ensures
            final(self).wf(),
            final(self).spec_scaling() == old(self).spec_scaling(),
            final(self).spec_exp() == old(self).spec_exp(),
            match r {
                Some(tx) => old(self)@.contains_key(tx.sender) && old(self)@[tx.sender] == tx,
                None => true,
            },
            match drawn_index(old(self).order(), rand as nat) {
                Some(i) => r == Some(old(self).order()[i].tx) && final(self)@ == old(self)@.remove(
                    old(self).order()[i].tx.sender,
                ) && final(self).order() == old(self).order().remove(i),
                None => r.is_none() && final(self)@ == old(self)@ && final(self).order() == old(
                    self,
                ).order(),
            },
    {
        let n: usize = self.treap.len();
        let ghost s = self.order();
        let ghost total = weight_sum(s, s.len() as int);
        let target: u128 = match self.sum_weight() {
            None => {
                proof {
                    vstd::arithmetic::div_mod::lemma_small_mod(rand as nat, total);
                }
                rand
            },
            Some(t) => {
                if t == 0 {
                    assert forall|i: int| !is_drawn(s, rand as nat, i) by {}
                    return None;
                }
                rand % t
            },
        };
        assert(target as nat == rand as nat % total);
        proof {
            vstd::arithmetic::div_mod::lemma_mod_bound(rand as int, total as int);
        }
        let mut i: usize = 0;
        let mut acc: u128 = 0;
        loop
            invariant
                self.wf(),
                s == self.order(),
                self == old(self),
                n == s.len(),
                i <= n,
                total == weight_sum(s, s.len() as int),
                total > 0,
                target as nat == rand as nat % total,
                (target as nat) < total,
                acc as nat == weight_sum(s, i as int),
                acc <= target,
            decreases n - i,
        {
            if i >= n {
                proof {
                    assert(false);
                }
                return None;
            }
            let node: ReadyNode = *self.treap.value_at(i);
            let hit: bool = match acc.checked_add(node.weight) {
                Some(next) => target < next,
                None => true,
            };
            if hit {
                proof {
                    assert(is_drawn(s, rand as nat, i as int));
                    lemma_drawn_unique(s, rand as nat, i as int);
                    self.lemma_wf();
                    self.treap.lemma_entries();
                    let k = self.treap.spec_keys()[i as int];
                    assert(self.treap@.contains_key(k));
                    assert(k == node.tx.sender);
                    assert(self.treap.spec_keys().index_of(k) == i);
                }
                let removed = self.remove(&node.tx.sender);
                return removed;
            }
            acc = acc + node.weight;
            i = i + 1;
        }
    }

    /// Draws a transaction at random, each with a chance in proportion to
    /// its weight, takes it out and returns it. Nothing is drawn when all
    /// weights are zero.
    pub fn pop(&mut self) -> (r: Option<SignedTransaction>)
        requires
            old(self).wf(),
        ensures
            final(self).wf(),
            final(self).spec_scaling() == old(self).spec_scaling(),
            final(self).spec_exp() == old(self).spec_exp(),
            match r {
                Some(tx) => old(self)@.contains_key(tx.sender) && old(self)@[tx.sender] == tx
                    && final(self)@ == old(self)@.remove(tx.sender),
                None => final(self)@ == old(self)@ && final(self).order() == old(self).order()
                    && weight_sum(old(self).order(), old(self).order().len() as int) == 0,
            },
            exists|rand: u128| r == #[trigger] draw_result(old(self).order(), rand as nat),
    {
        let rand: u128 = random_u128();
        proof {
            old(self).lemma_wf();
            if drawn_index(old(self).order(), rand as nat).is_none() {
                let s = old(self).order();
                let total = weight_sum(s, s.len() as int);
                if total > 0 {
                    lemma_draw_exists(s, rand as nat, s.len() as int);
                }
            }
        }
        let r = self.pop_with(rand);
        assert(r == draw_result(old(self).order(), rand as nat));
        r
    }
}

/// Where the weights are not all zero, the draw falls on some position.
pub proof fn lemma_draw_exists(s: Seq<ReadyNode>, rand: nat, n: int)
    requires
        0 <= n <= s.len(),
        weight_sum(s, s.len() as int) > 0,
        rand % weight_sum(s, s.len() as int) < weight_sum(s, n),
    ensures
        exists|i: int| is_drawn(s, rand, i),
    decreases n,
{
    let total = weight_sum(s, s.len() as int);
    if n > 0 {
        if rand % total < weight_sum(s, n - 1) {
            lemma_draw_exists(s, rand, n - 1);
        } else {
            assert(is_drawn(s, rand, n - 1));
        }
    }
}

} // verus!
