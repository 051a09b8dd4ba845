use transaction_pool::deferred_pool::DeferredPool;
use transaction_pool::types::{
    Action, Address, InsertError, InsertResult, SignedTransaction, TxWithReadyInfo, H256,
};
use transaction_pool::u256::U256;

fn new_test_tx(sender: &Address, nonce: usize, gas_price: usize, value: usize) -> SignedTransaction {
    SignedTransaction {
        hash: H256::new(
            ((sender.hi as u128) << 64) | nonce as u128,
            sender.lo ^ ((gas_price as u128) << 64) ^ value as u128,
        ),
        sender: *sender,
        nonce: U256::from_usize(nonce),
        gas_price: U256::from_usize(gas_price),
        gas: U256::from_u64(50000),
        value: U256::from_usize(value),
        storage_limit: 0,
        action: Action::Call(Address::new(0x1000_0000, 77)),
        rlp_size: 100,
    }
}

fn new_test_tx_with_read_info(
    sender: &Address,
    nonce: usize,
    gas_price: usize,
    value: usize,
    packed: bool,
) -> TxWithReadyInfo {
    let transaction = new_test_tx(sender, nonce, gas_price, value);
    TxWithReadyInfo { transaction, packed, sponsored_gas: U256::from_u64(0), sponsored_storage: 0 }
}

#[test]
fn test_deferred_pool_insert_and_remove() {
    let mut deferred_pool = DeferredPool::new();

    // insert txs of same sender
    let alice = Address::new(0x1000_0001, 1);
    let bob = Address::new(0x1000_0002, 2);
    let eva = Address::new(0x1000_0003, 3);

    let alice_tx1 = new_test_tx_with_read_info(&alice, 5, 10, 100, false);
    let alice_tx2 = new_test_tx_with_read_info(&alice, 6, 10, 100, false);
    let bob_tx1 = new_test_tx_with_read_info(&bob, 1, 10, 100, false);
    let bob_tx2 = new_test_tx_with_read_info(&bob, 2, 10, 100, false);
    let bob_tx2_new = new_test_tx_with_read_info(&bob, 2, 11, 100, false);

    assert_eq!(deferred_pool.insert(alice_tx1.clone(), false), InsertResult::NewAdded);

    assert_eq!(deferred_pool.contain_address(&alice), true);

    assert_eq!(deferred_pool.contain_address(&eva), false);

    assert_eq!(deferred_pool.remove_lowest_nonce(&eva), None);

    assert_eq!(deferred_pool.contain_address(&bob), false);

    assert_eq!(deferred_pool.insert(alice_tx2.clone(), false), InsertResult::NewAdded);

    assert_eq!(deferred_pool.remove_lowest_nonce(&bob), None);

    assert_eq!(deferred_pool.insert(bob_tx1.clone(), false), InsertResult::NewAdded);

    assert_eq!(deferred_pool.contain_address(&bob), true);

    assert_eq!(deferred_pool.insert(bob_tx2.clone(), false), InsertResult::NewAdded);

    assert_eq!(
        deferred_pool.insert(bob_tx2_new.clone(), false),
        InsertResult::Updated(bob_tx2.clone())
    );

    assert_eq!(
        deferred_pool.insert(bob_tx2.clone(), false),
        InsertResult::Failed(InsertError::ReplaceUnderpriced {
            min_gas_price: bob_tx2_new.transaction.gas_price
        })
    );

    assert_eq!(deferred_pool.get_lowest_nonce(&bob), Some(U256::from_u64(1)));

    assert_eq!(deferred_pool.remove_lowest_nonce(&bob), Some(bob_tx1.clone()));

    assert_eq!(deferred_pool.get_lowest_nonce(&bob), Some(U256::from_u64(2)));

    assert_eq!(deferred_pool.contain_address(&bob), true);

    assert_eq!(deferred_pool.remove_lowest_nonce(&bob), Some(bob_tx2_new.clone()));

    assert_eq!(deferred_pool.get_lowest_nonce(&bob), None);

    assert_eq!(deferred_pool.contain_address(&bob), false);
}

#[test]
fn test_deferred_pool_recalculate_readiness() {
    let mut deferred_pool = DeferredPool::new();

    let alice = Address::new(0x1000_0001, 1);

    let gas = 50000;
    let tx1 = new_test_tx_with_read_info(&alice, 5, 10, 10000, true);
    let tx2 = new_test_tx_with_read_info(&alice, 6, 10, 10000, true);
    let tx3 = new_test_tx_with_read_info(&alice, 7, 10, 10000, true);
    let tx4 = new_test_tx_with_read_info(&alice, 8, 10, 10000, false);
    let tx5 = new_test_tx_with_read_info(&alice, 9, 10, 10000, false);
    let exact_cost: u64 = 4 * (gas * 10 + 10000);

    deferred_pool.insert(tx1.clone(), false);
    deferred_pool.insert(tx2.clone(), false);
    deferred_pool.insert(tx4.clone(), false);
    deferred_pool.insert(tx5.clone(), false);

    assert_eq!(
        deferred_pool.recalculate_readiness_with_local_info(
            &alice,
            U256::from_u64(5),
            U256::from_u64(exact_cost)
        ),
        None
    );

    assert_eq!(
        deferred_pool.recalculate_readiness_with_local_info(
            &alice,
            U256::from_u64(7),
            U256::from_u64(exact_cost)
        ),
        None
    );

    assert_eq!(
        deferred_pool.recalculate_readiness_with_local_info(
            &alice,
            U256::from_u64(8),
            U256::from_u64(exact_cost)
        ),
        Some(tx4.transaction.clone())
    );

    deferred_pool.insert(tx3.clone(), false);
    assert_eq!(
        deferred_pool.recalculate_readiness_with_local_info(
            &alice,
            U256::from_u64(4),
            U256::from_u64(exact_cost)
        ),
        None
    );

    assert_eq!(
        deferred_pool.recalculate_readiness_with_local_info(
            &alice,
            U256::from_u64(5),
            U256::from_u64(exact_cost)
        ),
        Some(tx4.transaction.clone())
    );

    assert_eq!(
        deferred_pool.recalculate_readiness_with_local_info(
            &alice,
            U256::from_u64(7),
            U256::from_u64(exact_cost)
        ),
        Some(tx4.transaction.clone())
    );

    assert_eq!(
        deferred_pool.recalculate_readiness_with_local_info(
            &alice,
            U256::from_u64(8),
            U256::from_u64(exact_cost)
        ),
        Some(tx4.transaction.clone())
    );

    assert_eq!(
        deferred_pool.recalculate_readiness_with_local_info(
            &alice,
            U256::from_u64(9),
            U256::from_u64(exact_cost)
        ),
        Some(tx5.transaction.clone())
    );

    assert_eq!(
        deferred_pool.recalculate_readiness_with_local_info(
            &alice,
            U256::from_u64(10),
            U256::from_u64(exact_cost)
        ),
        None
    );

    assert_eq!(
        deferred_pool.recalculate_readiness_with_local_info(
            &alice,
            U256::from_u64(5),
            U256::from_u64(exact_cost - 1)
        ),
        None
    );
}
