use transaction_pool::nonce_pool::NoncePool;
use transaction_pool::types::{
    Action, Address, InsertError, InsertResult, PendingReason, SignedTransaction, TxWithReadyInfo,
    H256,
};
use transaction_pool::u256::U256;

fn entry(nonce: u64, gas_price: u64, packed: bool) -> TxWithReadyInfo {
    TxWithReadyInfo {
        transaction: SignedTransaction {
            hash: H256::new(nonce as u128, gas_price as u128),
            sender: Address::new(0x1000_0000, 1),
            nonce: U256::from_u64(nonce),
            gas_price: U256::from_u64(gas_price),
            gas: U256::from_u64(50000),
            value: U256::from_u64(10000),
            storage_limit: 0,
            action: Action::Create,
            rlp_size: 100,
        },
        packed,
        sponsored_gas: U256::zero(),
        sponsored_storage: 0,
    }
}

fn filled(nonces: &[u64], packed: bool) -> NoncePool {
    let mut pool = NoncePool::new();
    for n in nonces {
        assert_eq!(pool.insert(&entry(*n, 10, packed), false), InsertResult::NewAdded);
    }
    pool
}

const COST: u64 = 50000 * 10 + 10000;

#[test]
fn ready_transitions() {
    let mut pool = filled(&[5, 6, 8, 9], false);
    let balance = U256::from_u64(4 * COST);
    assert_eq!(balance, U256::from_u64(2_040_000));
    let at = |pool: &NoncePool, base: u64, balance: &U256| {
        pool.recalculate_readiness_with_local_info(&U256::from_u64(base), balance)
    };
    assert_eq!(at(&pool, 5, &balance), Some(entry(5, 10, false).transaction));
    assert_eq!(at(&pool, 7, &balance), None);
    assert_eq!(at(&pool, 8, &balance), Some(entry(8, 10, false).transaction));
    assert_eq!(pool.insert(&entry(7, 10, false), false), InsertResult::NewAdded);
    assert_eq!(at(&pool, 5, &balance), Some(entry(5, 10, false).transaction));
    assert_eq!(at(&pool, 9, &balance), Some(entry(9, 10, false).transaction));
    assert_eq!(at(&pool, 10, &balance), None);
    // one unit less still covers the first transaction, which is not packed
    assert_eq!(
        at(&pool, 5, &U256::from_u64(2_039_999)),
        Some(entry(5, 10, false).transaction)
    );
    // less than the cost of the first transaction covers nothing
    assert_eq!(at(&pool, 5, &U256::from_u64(COST - 1)), None);
    assert_eq!(at(&pool, 5, &U256::from_u64(COST)), Some(entry(5, 10, false).transaction));
}

#[test]
fn packed_prefix() {
    let mut pool = filled(&[5, 6, 7], true);
    assert_eq!(pool.insert(&entry(8, 10, false), false), InsertResult::NewAdded);
    assert_eq!(pool.insert(&entry(9, 10, false), false), InsertResult::NewAdded);
    let five = U256::from_u64(5);
    assert_eq!(
        pool.recalculate_readiness_with_local_info(&five, &U256::from_u64(4 * COST)),
        Some(entry(8, 10, false).transaction)
    );
    assert_eq!(
        pool.recalculate_readiness_with_local_info(&five, &U256::from_u64(4 * COST - 1)),
        None
    );
    assert_eq!(pool.recalculate_readiness_with_local_info(&five, &U256::from_u64(2 * COST)), None);
}

#[test]
fn all_packed_is_not_ready() {
    let pool = filled(&[5, 6], true);
    assert_eq!(
        pool.recalculate_readiness_with_local_info(&U256::from_u64(5), &U256::from_u64(10 * COST)),
        None
    );
    let empty = NoncePool::new();
    assert_eq!(
        empty.recalculate_readiness_with_local_info(&U256::from_u64(0), &U256::from_u64(COST)),
        None
    );
}

#[test]
fn replace_by_fee() {
    let mut pool = NoncePool::new();
    assert_eq!(pool.insert(&entry(2, 10, false), false), InsertResult::NewAdded);
    assert_eq!(
        pool.insert(&entry(2, 11, false), false),
        InsertResult::Updated(entry(2, 10, false))
    );
    assert_eq!(
        pool.insert(&entry(2, 10, false), false),
        InsertResult::Failed(InsertError::ReplaceUnderpriced {
            min_gas_price: U256::from_u64(11)
        })
    );
    assert_eq!(
        pool.insert(&entry(2, 11, false), false),
        InsertResult::Failed(InsertError::ReplaceUnderpriced {
            min_gas_price: U256::from_u64(11)
        })
    );
    assert_eq!(pool.len(), 1);
    assert_eq!(pool.get_tx_by_nonce(&U256::from_u64(2)), Some(entry(2, 11, false)));
    // by force a lower price replaces
    assert_eq!(
        pool.insert(&entry(2, 3, true), true),
        InsertResult::Updated(entry(2, 11, false))
    );
    // a packed entry is replaced by force only
    assert_eq!(
        pool.insert(&entry(2, 100, false), false),
        InsertResult::Failed(InsertError::ReplaceUnderpriced { min_gas_price: U256::from_u64(3) })
    );
    assert_eq!(
        pool.insert(&entry(2, 100, false), true),
        InsertResult::Updated(entry(2, 3, true))
    );
    assert_eq!(pool.len(), 1);
}

#[test]
fn nonce_pool_queries() {
    let mut pool = filled(&[9, 5, 6, 8], false);
    assert_eq!(pool.len(), 4);
    assert!(!pool.is_empty());
    assert_eq!(pool.entry(0), entry(5, 10, false));
    assert_eq!(pool.entry(3), entry(9, 10, false));
    assert_eq!(pool.get_lowest_nonce_tx(), Some(entry(5, 10, false).transaction));
    assert!(pool.check_nonce_exists(&U256::from_u64(8)));
    assert!(!pool.check_nonce_exists(&U256::from_u64(7)));
    assert_eq!(pool.count_less(&U256::from_u64(5)), 0);
    assert_eq!(pool.count_less(&U256::from_u64(8)), 2);
    assert_eq!(pool.count_less(&U256::from_u64(100)), 4);
    assert_eq!(pool.succ_nonce(&U256::from_u64(7)), Some(U256::from_u64(8)));
    assert_eq!(pool.succ_nonce(&U256::from_u64(6)), Some(U256::from_u64(6)));
    assert_eq!(pool.succ_nonce(&U256::from_u64(10)), None);
    assert_eq!(pool.first_missing_nonce(&U256::from_u64(5)), U256::from_u64(7));
    assert_eq!(pool.first_missing_nonce(&U256::from_u64(8)), U256::from_u64(10));
    assert_eq!(pool.first_missing_nonce(&U256::from_u64(3)), U256::from_u64(3));
    assert_eq!(
        pool.get_pending_info(&U256::from_u64(6)),
        Some((3, entry(6, 10, false).transaction))
    );
    assert_eq!(pool.get_pending_info(&U256::from_u64(10)), None);
    assert_eq!(
        pool.get_pending_transactions(&U256::from_u64(7)),
        vec![entry(8, 10, false).transaction, entry(9, 10, false).transaction]
    );
    assert_eq!(pool.remove_lowest_nonce(), Some(entry(5, 10, false)));
    assert_eq!(pool.len(), 3);
    assert_eq!(pool.get_lowest_nonce_tx(), Some(entry(6, 10, false).transaction));
}

#[test]
fn first_missing_nonce_stops_at_the_largest() {
    let max = U256 { hi: u128::MAX, lo: u128::MAX };
    let mut last = entry(0, 10, false);
    last.transaction.nonce = max;
    let mut pool = NoncePool::new();
    pool.insert(&last, false);
    assert_eq!(pool.first_missing_nonce(&max), max);
    assert_eq!(
        pool.check_pending_reason_with_local_info(&max, &U256::from_u64(COST), &last.transaction),
        None
    );
}

#[test]
fn pending_reasons() {
    let pool = filled(&[5, 6, 8], false);
    let reason = |known: u64, balance: u64, nonce: u64| {
        pool.check_pending_reason_with_local_info(
            &U256::from_u64(known),
            &U256::from_u64(balance),
            &entry(nonce, 10, false).transaction,
        )
    };
    assert_eq!(reason(5, 2 * COST, 6), None);
    assert_eq!(reason(5, 2 * COST - 1, 6), Some(PendingReason::NotEnoughCash));
    assert_eq!(reason(5, 10 * COST, 8), Some(PendingReason::FutureNonce));
    assert_eq!(reason(4, 10 * COST, 5), Some(PendingReason::FutureNonce));
    assert_eq!(reason(8, COST, 8), None);
    assert_eq!(reason(8, 0, 8), Some(PendingReason::NotEnoughCash));
    // a nonce that the sender has passed has no reason
    assert_eq!(reason(7, 0, 5), None);
}
