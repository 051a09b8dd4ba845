//! Facts about sequences of transactions sorted by nonce: how lookups and
//! counts change when an entry is added, replaced or taken out.

use crate::nonce_pool::{
    count_below, count_unpacked, entry_at, insert_outcome, insert_seq, lemma_count_below,
    lemma_count_below_splits, nonce_of, sorted_by_nonce,
};
use crate::types::{InsertResult, TxWithReadyInfo};
use vstd::prelude::*;

verus! {

/// One for an entry that is not packed, zero for one that is.
pub open spec fn unpacked_one(e: TxWithReadyInfo) -> nat {
    if e.packed {
        0
    } else {
        1
    }
}

/// One for an entry whose nonce is below `n`, zero otherwise.
pub open spec fn below_one(e: TxWithReadyInfo, n: nat) -> nat {
    if nonce_of(e) < n {
        1
    } else {
        0
    }
}

/// The entry at each position of a sorted sequence is the one found under
/// its nonce.
pub proof fn lemma_entry_at_index(s: Seq<TxWithReadyInfo>, i: int)
    requires
        sorted_by_nonce(s),
        0 <= i < s.len(),
    ensures
        count_below(s, nonce_of(s[i])) == i,
        entry_at(s, nonce_of(s[i])) == Some(s[i]),
{
    lemma_count_below(s, nonce_of(s[i]), i);
}

/// An entry found under a nonce stands at some position and has that nonce.
pub proof fn lemma_entry_at_some(s: Seq<TxWithReadyInfo>, x: nat)
    requires
        sorted_by_nonce(s),
        entry_at(s, x).is_some(),
    ensures
        0 <= count_below(s, x) < s.len(),
        entry_at(s, x) == Some(s[count_below(s, x) as int]),
        nonce_of(s[count_below(s, x) as int]) == x,
{
}

/// No entry is found under a nonce that no position has.
pub proof fn lemma_entry_at_none(s: Seq<TxWithReadyInfo>, x: nat)
    requires
        forall|i: int| 0 <= i < s.len() ==> nonce_of(#[trigger] s[i]) != x,
    ensures
        entry_at(s, x).is_none(),
{
    lemma_count_below_len(s, x);
}

/// The number of nonces below `n` is at most the length.
pub proof fn lemma_count_below_len(s: Seq<TxWithReadyInfo>, n: nat)
    ensures
        count_below(s, n) <= s.len(),
    decreases s.len(),
{
    if s.len() > 0 {
        lemma_count_below_len(s.drop_last(), n);
    }
}

/// The number of unpacked entries is at most the length.
pub proof fn lemma_count_unpacked_len(s: Seq<TxWithReadyInfo>)
    ensures
        count_unpacked(s) <= s.len(),
    decreases s.len(),
{
    if s.len() > 0 {
        lemma_count_unpacked_len(s.drop_last());
    }
}

/// The number of nonces below `n` adds up over a concatenation.
pub proof fn lemma_count_below_add(a: Seq<TxWithReadyInfo>, b: Seq<TxWithReadyInfo>, n: nat)
    ensures
        count_below(a + b, n) == count_below(a, n) + count_below(b, n),
    decreases b.len(),
{
    if b.len() == 0 {
        assert(a + b =~= a);
    } else {
        assert((a + b).drop_last() =~= a + b.drop_last());
        lemma_count_below_add(a, b.drop_last(), n);
    }
}

/// The number of unpacked entries adds up over a concatenation.
pub proof fn lemma_count_unpacked_add(a: Seq<TxWithReadyInfo>, b: Seq<TxWithReadyInfo>)
    ensures
        count_unpacked(a + b) == count_unpacked(a) + count_unpacked(b),
    decreases b.len(),
{
    if b.len() == 0 {
        assert(a + b =~= a);
    } else {
        assert((a + b).drop_last() =~= a + b.drop_last());
        lemma_count_unpacked_add(a, b.drop_last());
    }
}

/// The counts of a sequence with one entry.
pub proof fn lemma_counts_single(e: TxWithReadyInfo, n: nat)
    ensures
        count_below(seq![e], n) == below_one(e, n),
        count_unpacked(seq![e]) == unpacked_one(e),
{
    assert(seq![e].drop_last() =~= Seq::<TxWithReadyInfo>::empty());
    assert(count_below(seq![e].drop_last(), n) == 0);
    assert(count_unpacked(seq![e].drop_last()) == 0);
}

/// The counts after an entry has been put in at a position.
pub proof fn lemma_counts_insert(s: Seq<TxWithReadyInfo>, i: int, e: TxWithReadyInfo, n: nat)
    requires
        0 <= i <= s.len(),
    ensures
        count_below(s.insert(i, e), n) == count_below(s, n) + below_one(e, n),
        count_unpacked(s.insert(i, e)) == count_unpacked(s) + unpacked_one(e),
{
    let a = s.subrange(0, i);
    let b = s.subrange(i, s.len() as int);
    assert(s =~= a + b);
    assert(s.insert(i, e) =~= (a + seq![e]) + b);
    lemma_counts_single(e, n);
    lemma_count_below_add(a, b, n);
    lemma_count_below_add(a, seq![e], n);
    lemma_count_below_add(a + seq![e], b, n);
    lemma_count_unpacked_add(a, b);
    lemma_count_unpacked_add(a, seq![e]);
    lemma_count_unpacked_add(a + seq![e], b);
}

/// The counts after the entry at a position has been replaced.
pub proof fn lemma_counts_update(s: Seq<TxWithReadyInfo>, i: int, e: TxWithReadyInfo, n: nat)
    requires
        0 <= i < s.len(),
    ensures
        count_below(s.update(i, e), n) + below_one(s[i], n) == count_below(s, n) + below_one(e, n),
        count_unpacked(s.update(i, e)) + unpacked_one(s[i]) == count_unpacked(s) + unpacked_one(e),
{
    let a = s.subrange(0, i);
    let b = s.subrange(i + 1, s.len() as int);
    assert(s =~= (a + seq![s[i]]) + b);
    assert(s.update(i, e) =~= (a + seq![e]) + b);
    lemma_counts_single(e, n);
    lemma_counts_single(s[i], n);
    lemma_count_below_add(a, seq![e], n);
    lemma_count_below_add(a + seq![e], b, n);
    lemma_count_below_add(a, seq![s[i]], n);
    lemma_count_below_add(a + seq![s[i]], b, n);
    lemma_count_unpacked_add(a, seq![e]);
    lemma_count_unpacked_add(a + seq![e], b);
    lemma_count_unpacked_add(a, seq![s[i]]);
    lemma_count_unpacked_add(a + seq![s[i]], b);
}

/// What holds of a sorted sequence after its first entry has been taken out.
pub proof fn lemma_tail(s: Seq<TxWithReadyInfo>, n: nat)
    requires
        sorted_by_nonce(s),
        s.len() > 0,
    ensures
        sorted_by_nonce(s.subrange(1, s.len() as int)),
        count_below(s.subrange(1, s.len() as int), n) + below_one(s[0], n) == count_below(s, n),
        count_unpacked(s.subrange(1, s.len() as int)) + unpacked_one(s[0]) == count_unpacked(s),
        entry_at(s.subrange(1, s.len() as int), n) == (if n == nonce_of(s[0]) {
            None
        } else {
            entry_at(s, n)
        }),
{
    let t = s.subrange(1, s.len() as int);
    assert(s =~= seq![s[0]] + t);
    lemma_counts_single(s[0], n);
    lemma_count_below_add(seq![s[0]], t, n);
    lemma_count_unpacked_add(seq![s[0]], t);
    assert forall|i: int, j: int| 0 <= i < j < t.len() implies nonce_of(t[i]) < nonce_of(t[j]) by {
        assert(t[i] == s[i + 1] && t[j] == s[j + 1]);
    }
    lemma_count_below_splits(s, n);
    lemma_count_below_splits(t, n);
    if n == nonce_of(s[0]) {
        assert forall|i: int| 0 <= i < t.len() implies nonce_of(#[trigger] t[i]) != n by {
            assert(t[i] == s[i + 1]);
        }
        lemma_entry_at_none(t, n);
    } else {
        let lb = count_below(s, n) as int;
        let lt = count_below(t, n) as int;
        if nonce_of(s[0]) < n {
            assert(lt == lb - 1);
            if lt < t.len() {
                assert(t[lt] == s[lb]);
            }
        } else {
            assert(lb == 0) by {
                if lb > 0 {
                    assert(nonce_of(s[0]) < n);
                }
            }
            assert(lt == 0);
            assert(nonce_of(s[0]) > n);
            if t.len() > 0 {
                assert(t[0] == s[1]);
                assert(nonce_of(s[1]) > nonce_of(s[0]));
            }
        }
    }
}

/// What holds of a sorted sequence after an insertion.
pub proof fn lemma_insert(s: Seq<TxWithReadyInfo>, e: TxWithReadyInfo, force: bool, n: nat)
    requires
        sorted_by_nonce(s),
    ensures
        sorted_by_nonce(insert_seq(s, e, force)),
        match insert_outcome(s, e, force) {
            InsertResult::NewAdded => {
                &&& entry_at(s, nonce_of(e)).is_none()
                &&& insert_seq(s, e, force) == s.insert(count_below(s, nonce_of(e)) as int, e)
                &&& insert_seq(s, e, force).len() == s.len() + 1
                &&& count_below(insert_seq(s, e, force), n) == count_below(s, n) + below_one(e, n)
                &&& count_unpacked(insert_seq(s, e, force)) == count_unpacked(s) + unpacked_one(e)
                &&& entry_at(insert_seq(s, e, force), n) == (if n == nonce_of(e) {
                    Some(e)
                } else {
                    entry_at(s, n)
                })
            },
            InsertResult::Updated(prev) => {
                &&& entry_at(s, nonce_of(e)) == Some(prev)
                &&& nonce_of(prev) == nonce_of(e)
                &&& insert_seq(s, e, force) == s.update(count_below(s, nonce_of(e)) as int, e)
                &&& insert_seq(s, e, force).len() == s.len()
                &&& count_below(insert_seq(s, e, force), n) == count_below(s, n)
                &&& count_unpacked(insert_seq(s, e, force)) + unpacked_one(prev) == count_unpacked(
                    s,
                ) + unpacked_one(e)
                &&& entry_at(insert_seq(s, e, force), n) == (if n == nonce_of(e) {
                    Some(e)
                } else {
                    entry_at(s, n)
                })
            },
            InsertResult::Failed(_) => {
                &&& entry_at(s, nonce_of(e)).is_some()
                &&& insert_seq(s, e, force) == s
            },
        },
{
    let x = nonce_of(e);
    let lb = count_below(s, x) as int;
    let t = insert_seq(s, e, force);
    lemma_count_below_splits(s, x);
    lemma_count_below_splits(s, n);
    match insert_outcome(s, e, force) {
        InsertResult::NewAdded => {
            assert(t == s.insert(lb, e));
            lemma_counts_insert(s, lb, e, n);
            assert forall|i: int, j: int| 0 <= i < j < t.len() implies nonce_of(t[i]) < nonce_of(
                t[j],
            ) by {
                let i0 = if i < lb { i } else { i - 1 };
                let j0 = if j < lb { j } else { j - 1 };
                if i != lb {
                    assert(t[i] == s[i0]);
                }
                if j != lb {
                    assert(t[j] == s[j0]);
                }
            }
            lemma_count_below_splits(t, n);
            let ln = count_below(s, n) as int;
            let lt = count_below(t, n) as int;
            if n == x {
                assert(lt == lb);
                assert(t[lb] == e);
            } else if x < n {
                assert(lt == ln + 1);
                if lt < t.len() {
                    assert(lb <= ln) by {
                        if ln < lb {
                            assert(nonce_of(s[ln]) < x);
                        }
                    }
                    assert(t[lt] == s[ln]);
                }
            } else {
                assert(lt == ln);
                assert(ln <= lb) by {
                    if lb < ln {
                        assert(nonce_of(s[lb]) < n);
                    }
                }
                if ln < lb {
                    assert(t[ln] == s[ln]);
                } else if ln < s.len() {
                    assert(t[ln] == e);
                    assert(nonce_of(s[ln]) != n) by {
                        assert(nonce_of(s[ln]) >= x);
                        assert(nonce_of(s[ln]) != x);
                    }
                } else {
                    assert(t[ln] == e);
                }
            }
        },
        InsertResult::Updated(prev) => {
            assert(t == s.update(lb, e));
            lemma_counts_update(s, lb, e, n);
            assert forall|i: int, j: int| 0 <= i < j < t.len() implies nonce_of(t[i]) < nonce_of(
                t[j],
            ) by {
                assert(nonce_of(t[i]) == nonce_of(s[i]));
                assert(nonce_of(t[j]) == nonce_of(s[j]));
            }
            lemma_count_below_splits(t, n);
            let ln = count_below(s, n) as int;
            if ln < s.len() {
                assert(nonce_of(t[ln]) == nonce_of(s[ln]));
            }
            if n == x {
                assert(ln == lb);
            } else if ln < s.len() && nonce_of(s[ln]) == n {
                assert(ln != lb);
            }
        },
        InsertResult::Failed(_) => {},
    }
}

} // verus!
