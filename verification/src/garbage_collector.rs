//! The senders of the pool in the order in which their transactions are
//! evicted.

use crate::map_sum::map_sum;
use crate::types::Address;
use crate::vec_map::{seq_sum, VecMap};
use vstd::prelude::*;

verus! {

/// What the collector records of a sender.
#[derive(Clone, Copy, Debug, PartialEq, Eq, Structural)]
pub struct GarbageCollectorNode {
    /// The sender.
    pub sender: Address,
    /// The number of the sender's transactions whose nonce is below the
    /// sender's nonce in the state.
    pub count: usize,
    /// When a transaction of the sender was last evicted, or when the sender
    /// entered the pool.
    pub timestamp: u64,
}

/// Whether `a` is evicted before `b`: the larger count first, then the
/// older timestamp, then the smaller address.
pub open spec fn outranks(a: GarbageCollectorNode, b: GarbageCollectorNode) -> bool {
    a.count > b.count || (a.count == b.count && (a.timestamp < b.timestamp || (a.timestamp
        == b.timestamp && a.sender.spec_lt(b.sender))))
}

/// Whether `n` is a node of the map that is evicted before all others.
pub open spec fn is_top(m: Map<Address, GarbageCollectorNode>, n: GarbageCollectorNode) -> bool {
    &&& m.contains_key(n.sender)
    &&& m[n.sender] == n
    &&& forall|a: Address| #[trigger] m.contains_key(a) && a != n.sender ==> outranks(n, m[a])
}

/// The node that is evicted first, if there is any node.
pub open spec fn top_node(m: Map<Address, GarbageCollectorNode>) -> Option<GarbageCollectorNode> {
    if exists|n: GarbageCollectorNode| is_top(m, n) {
        Some(choose|n: GarbageCollectorNode| is_top(m, n))
    } else {
        None
    }
}

/// What holds of the nodes: they are finitely many, each under its sender.
pub open spec fn nodes_ok(m: Map<Address, GarbageCollectorNode>) -> bool {
    &&& m.dom().finite()
    &&& forall|a: Address| #[trigger] m.contains_key(a) ==> m[a].sender == a
}

/// The function that gives the count of a node.
pub open spec fn count_fn() -> spec_fn(GarbageCollectorNode) -> nat {
    |n: GarbageCollectorNode| n.count as nat
}

/// The sum of the counts of all nodes.
pub open spec fn gc_total(m: Map<Address, GarbageCollectorNode>) -> nat {
    map_sum(m, count_fn())
}

/// At most one node is evicted before all others.
pub proof fn lemma_top_unique(m: Map<Address, GarbageCollectorNode>, n: GarbageCollectorNode)
    requires
        is_top(m, n),
    ensures
        top_node(m) == Some(n),
{
    let c = choose|c: GarbageCollectorNode| is_top(m, c);
    if c.sender != n.sender {
        assert(outranks(n, m[c.sender]));
        assert(outranks(c, m[n.sender]));
    }
}

/// The senders with their counts and timestamps.
pub struct GarbageCollector {
    data: VecMap<Address, GarbageCollectorNode>,
}

impl View for GarbageCollector {
    type V = Map<Address, GarbageCollectorNode>;

    closed spec fn view(&self) -> Map<Address, GarbageCollectorNode> {
        self.data@
    }
}

impl GarbageCollector {
    /// The representation invariant.
    pub closed spec fn wf(&self) -> bool {
        &&& self.data.wf()
        &&& nodes_ok(self@)
    }

    /// A well-formed collector has finitely many nodes, each under its
    /// sender.
    pub proof fn lemma_wf(&self)
        requires
            self.wf(),
        ensures
            nodes_ok(self@),
    {
    }

    /// A collector without senders.
    pub fn new() -> (r: GarbageCollector)
        ensures
            r.wf(),
            r@ == Map::<Address, GarbageCollectorNode>::empty(),
    {
        GarbageCollector { data: VecMap::new() }
    }

    /// Removes every sender.
    pub fn clear(&mut self)
        ensures
            final(self).wf(),
            final(self)@ == Map::<Address, GarbageCollectorNode>::empty(),
    {
        self.data.clear();
    }

    /// The number of senders.
    pub fn len(&self) -> (n: usize)
        requires
            self.wf(),
        ensures
            n == self@.len(),
    {
        self.data.len()
    }

    /// Whether the collector has no sender.
    pub fn is_empty(&self) -> (b: bool)
        requires
            self.wf(),
        ensures
            b == (self@.len() == 0),
            b == (self@ == Map::<Address, GarbageCollectorNode>::empty()),
    {
        self.data.is_empty()
    }

    /// The sum of the counts of all senders, capped at the largest number
    /// that the machine holds.
    pub fn gc_size(&self) -> (n: usize)
        requires
            self.wf(),
        ensures
            n as nat == (if gc_total(self@) > usize::MAX {
                usize::MAX as nat
            } else {
                gc_total(self@)
            }),
    {
        let len: usize = self.data.len();
        let mut i: usize = 0;
        let mut total: usize = 0;
        proof {
            self.data.lemma_sum(count_fn());
        }
        while i < len
            invariant
                self.wf(),
                len == self.data.spec_vals().len(),
                i <= len,
                total as nat == seq_sum(self.data.spec_vals(), count_fn(), i as int),
                gc_total(self@) == seq_sum(self.data.spec_vals(), count_fn(), len as int),
            decreases len - i,
        {
            match total.checked_add(self.data.value_at(i).count) {
                Some(t) => {
                    total = t;
                },
                None => {
                    proof {
                        crate::vec_map::lemma_seq_sum_grows(
                            self.data.spec_vals(),
                            count_fn(),
                            i + 1,
                            len as int,
                        );
                    }
                    return usize::MAX;
                },
            }
            i = i + 1;
        }
        total
    }

    /// Records the count and the timestamp of a sender, in place of what was
    /// recorded of it.
    pub fn insert(&mut self, sender: &Address, count: usize, timestamp: u64)
        requires
            old(self).wf(),
        ensures
            final(self).wf(),
            final(self)@ == old(self)@.insert(
                *sender,
                GarbageCollectorNode { sender: *sender, count, timestamp },
            ),
    {
        self.data.insert(*sender, GarbageCollectorNode { sender: *sender, count, timestamp });
        proof {
            assert forall|a: Address| #[trigger] self@.contains_key(a) implies self@[a].sender
                == a by {
                if a != *sender {
                    assert(old(self)@.contains_key(a));
                }
            }
        }
    }

    /// The position of the node that is evicted first.
    fn top_index(&self) -> (r: Option<usize>)
        requires
            self.wf(),
        ensures
            match r {
                Some(i) => i < self.data.spec_vals().len() && is_top(
                    self@,
                    self.data.spec_vals()[i as int],
                ),
                None => self@ == Map::<Address, GarbageCollectorNode>::empty(),
            },
    {
        if self.data.is_empty() {
            return None;
        }
        let len: usize = self.data.len();
        let mut best: usize = 0;
        let mut i: usize = 1;
        proof {
            self.data.lemma_entries();
        }
        while i < len
            invariant
                self.wf(),
                len == self.data.spec_vals().len(),
                len == self.data.spec_keys().len(),
                self.data.spec_keys().no_duplicates(),
                forall|j: int|
                    0 <= j < len ==> self@.contains_key(#[trigger] self.data.spec_keys()[j])
                        && self@[self.data.spec_keys()[j]] == self.data.spec_vals()[j],
                1 <= i <= len,
                best < i,
                forall|j: int|
                    #![trigger self.data.spec_vals()[j]]
                    0 <= j < i && j != best ==> outranks(
                        self.data.spec_vals()[best as int],
                        self.data.spec_vals()[j],
                    ),
            decreases len - i,
        {
            let candidate: GarbageCollectorNode = *self.data.value_at(i);
            let leader: GarbageCollectorNode = *self.data.value_at(best);
            proof {
                let ki = self.data.spec_keys()[i as int];
                let kb = self.data.spec_keys()[best as int];
                assert(self@.contains_key(ki) && self@.contains_key(kb));
                assert(candidate.sender == ki && leader.sender == kb);
                assert(ki != kb);
            }
            let ahead: bool = candidate.count > leader.count || (candidate.count == leader.count
                && (candidate.timestamp < leader.timestamp || (candidate.timestamp
                == leader.timestamp && candidate.sender.lt(&leader.sender))));
            if ahead {
                best = i;
            }
            i = i + 1;
        }
        proof {
            let n = self.data.spec_vals()[best as int];
            let kb = self.data.spec_keys()[best as int];
            assert(self@.contains_key(kb));
            assert forall|a: Address| #[trigger] self@.contains_key(a) && a
                != n.sender implies outranks(n, self@[a]) by {
                let j = self.data.spec_keys().index_of(a);
                assert(self.data.spec_keys()[j] == a);
                assert(self@[a] == self.data.spec_vals()[j]);
            }
        }
        Some(best)
    }

    /// The node that is evicted first.
    pub fn top(&self) -> (r: Option<GarbageCollectorNode>)
        requires
            self.wf(),
        ensures
            r == top_node(self@),
    {
        match self.top_index() {
            Some(i) => {
                let n: GarbageCollectorNode = *self.data.value_at(i);
                proof {
                    lemma_top_unique(self@, n);
                }
                Some(n)
            },
            None => {
                assert forall|n: GarbageCollectorNode| !is_top(self@, n) by {}
                None
            },
        }
    }

    /// Takes out the node that is evicted first.
    pub fn pop(&mut self) -> (r: Option<GarbageCollectorNode>)
        requires
            old(self).wf(),
        ensures
            final(self).wf(),
            r == top_node(old(self)@),
            final(self)@ == (match r {
                Some(n) => old(self)@.remove(n.sender),
                None => old(self)@,
            }),
            r.is_none() == (old(self)@.len() == 0),
    {
        match self.top_index() {
            Some(i) => {
                let n: GarbageCollectorNode = *self.data.value_at(i);
                proof {
                    lemma_top_unique(self@, n);
                    self.data.lemma_entries();
                }
                self.data.remove(&n.sender);
                proof {
                    assert forall|a: Address| #[trigger] self@.contains_key(a) implies self@[a].sender
                        == a by {
                        assert(old(self)@.contains_key(a));
                    }
                }
                Some(n)
            },
            None => {
                assert forall|n: GarbageCollectorNode| !is_top(self@, n) by {}
                assert(self@.dom() =~= Set::<Address>::empty());
                None
            },
        }
    }

    /// When a transaction of the sender was last evicted.
    pub fn get_timestamp(&self, sender: &Address) -> (r: Option<u64>)
        requires
            self.wf(),
        ensures
            r == (if self@.contains_key(*sender) {
                Some(self@[*sender].timestamp)
            } else {
                None
            }),
    {
        match self.data.get(sender) {
            Some(node) => Some(node.timestamp),
            None => None,
        }
    }

    /// What is recorded of a sender.
    pub fn get(&self, sender: &Address) -> (r: Option<GarbageCollectorNode>)
        requires
            self.wf(),
        ensures
            r == (if self@.contains_key(*sender) {
                Some(self@[*sender])
            } else {
                None
            }),
    {
        match self.data.get(sender) {
            Some(node) => Some(*node),
            None => None,
        }
    }
}

} // verus!
