use transaction_pool::ready_pool::ReadyAccountPool;
use transaction_pool::types::{Action, Address, SignedTransaction, TxWithReadyInfo, H256};
use transaction_pool::u256::U256;

fn numbers_tx(sender: u128, nonce: u64, gas_price: U256) -> SignedTransaction {
    SignedTransaction {
        hash: H256::new(sender, nonce as u128),
        sender: Address::new(0x1000_0000, sender),
        nonce: U256::from_u64(nonce),
        gas_price,
        gas: U256::from_u64(21000),
        value: U256::from_u64(0),
        storage_limit: 0,
        action: Action::Create,
        rlp_size: 10,
    }
}

#[test]
fn u256_order_follows_the_number() {
    let small = U256 { hi: 0, lo: u128::MAX };
    let large = U256 { hi: 1, lo: 0 };
    assert!(small.lt(&large));
    assert!(!large.lt(&small));
    assert!(small.le(&small));
    assert!(!small.same(&large));
    assert!(U256::zero().is_zero());
    assert!(!large.is_zero());
    assert!(small < large);
}

#[test]
fn u256_addition_carries_and_overflows() {
    let a = U256 { hi: 0, lo: u128::MAX };
    assert_eq!(a.checked_add(&U256::from_u64(1)), Some(U256 { hi: 1, lo: 0 }));
    let max = U256 { hi: u128::MAX, lo: u128::MAX };
    assert_eq!(max.checked_add(&U256::from_u64(1)), None);
    assert_eq!(max.checked_add(&U256::zero()), Some(max));
    assert_eq!(
        U256 { hi: 3, lo: 5 }.checked_add(&U256 { hi: 4, lo: u128::MAX }),
        Some(U256 { hi: 8, lo: 4 })
    );
}

#[test]
fn u256_subtraction_borrows_and_underflows() {
    let a = U256 { hi: 1, lo: 0 };
    assert_eq!(a.checked_sub(&U256::from_u64(1)), Some(U256 { hi: 0, lo: u128::MAX }));
    assert_eq!(U256::from_u64(1).checked_sub(&a), None);
    assert_eq!(U256::from_u64(1).saturating_sub(&a), U256::zero());
    assert_eq!(U256::from_u64(7).saturating_sub(&U256::from_u64(2)), U256::from_u64(5));
}

#[test]
fn u256_multiplication_is_exact() {
    let a = U256::from_u128(u128::MAX);
    // (2^128 - 1)^2 = 2^256 - 2^129 + 1
    assert_eq!(a.checked_mul(&a), Some(U256 { hi: u128::MAX - 1, lo: 1 }));
    let b = U256 { hi: 1, lo: 0 };
    assert_eq!(b.checked_mul(&b), None);
    assert_eq!(b.checked_mul(&U256::from_u64(3)), Some(U256 { hi: 3, lo: 0 }));
    assert_eq!(U256::from_u64(3).checked_mul(&b), Some(U256 { hi: 3, lo: 0 }));
    assert_eq!(
        U256::from_u64(50000).checked_mul(&U256::from_u64(10)),
        Some(U256::from_u64(500000))
    );
    let c = U256 { hi: 1u128 << 127, lo: 0 };
    assert_eq!(c.checked_mul(&U256::from_u64(2)), None);
    assert_eq!(
        U256::from_u128(1u128 << 100).checked_mul(&U256::from_u128(1u128 << 100)),
        Some(U256 { hi: 1u128 << 72, lo: 0 })
    );
}

#[test]
fn u256_quotient_is_clamped() {
    assert_eq!(U256::from_u64(100).quotient_clamped(7), 14);
    assert_eq!(U256::from_u64(6).quotient_clamped(7), 0);
    assert_eq!(U256 { hi: 7, lo: 0 }.quotient_clamped(7), u128::MAX);
    assert_eq!(U256 { hi: 1, lo: 0 }.quotient_clamped(2), 1u128 << 127);
    assert_eq!(U256 { hi: 1, lo: 5 }.quotient_clamped(1), u128::MAX);
    assert_eq!(U256 { hi: 2, lo: 9 }.quotient_clamped(3), ((2u128 << 126) / 3) * 4 + 5);
}

#[test]
fn cost_counts_value_gas_and_storage() {
    let mut tx = numbers_tx(1, 0, U256::from_u64(10));
    tx.gas = U256::from_u64(50000);
    tx.value = U256::from_u64(10000);
    tx.storage_limit = 3;
    let plain = TxWithReadyInfo {
        transaction: tx,
        packed: false,
        sponsored_gas: U256::zero(),
        sponsored_storage: 0,
    };
    assert_eq!(
        plain.calc_tx_cost(),
        Some(U256::from_u64(10000 + 500000 + 3 * 976_562_500_000_000))
    );
    let sponsored = TxWithReadyInfo {
        transaction: tx,
        packed: false,
        sponsored_gas: U256::from_u64(50000),
        sponsored_storage: 3,
    };
    assert_eq!(sponsored.calc_tx_cost(), Some(U256::from_u64(10000)));
    let mut huge = tx;
    huge.gas_price = U256 { hi: u128::MAX, lo: 0 };
    let overflowing = TxWithReadyInfo {
        transaction: huge,
        packed: false,
        sponsored_gas: U256::zero(),
        sponsored_storage: 0,
    };
    assert_eq!(overflowing.calc_tx_cost(), None);
}

#[test]
fn address_type_bits_mark_contracts() {
    assert!(Address::new(0x8000_0000, 0).maybe_contract_address());
    assert!(Address::new(0x8fff_ffff, 9).maybe_contract_address());
    assert!(!Address::new(0x1000_0000, 0).maybe_contract_address());
    assert!(!Address::new(0x0800_0000, 0).maybe_contract_address());
    assert!(Address::new(1, 5).lt(&Address::new(2, 0)));
    assert!(Address::new(1, 5).lt(&Address::new(1, 6)));
    assert!(!Address::new(1, 5).lt(&Address::new(1, 5)));
}

#[test]
fn draw_follows_the_weights() {
    // scaling 10, exponent 2: gas prices 20, 30, 5 weigh 4, 9, 0
    let mut pool = ReadyAccountPool::new(10, 2);
    let a = numbers_tx(1, 0, U256::from_u64(20));
    let b = numbers_tx(2, 0, U256::from_u64(30));
    let c = numbers_tx(3, 0, U256::from_u64(5));
    assert_eq!(pool.insert(a), None);
    assert_eq!(pool.insert(b), None);
    assert_eq!(pool.insert(c), None);
    assert_eq!(pool.len(), 3);
    // the line has length 13: 0..4 is a, 4..13 is b
    let mut first = ReadyAccountPool::new(10, 2);
    first.insert(a);
    first.insert(b);
    first.insert(c);
    assert_eq!(first.pop_with(3), Some(a));
    let mut second = ReadyAccountPool::new(10, 2);
    second.insert(a);
    second.insert(b);
    second.insert(c);
    assert_eq!(second.pop_with(4), Some(b));
    // 13 + 12 = 25 is reduced to 12, which is b's
    assert_eq!(pool.pop_with(25), Some(b));
    assert_eq!(pool.pop_with(13 * 7), Some(a));
    // only the transaction of weight zero is left: nothing is drawn
    assert_eq!(pool.len(), 1);
    assert_eq!(pool.pop_with(0), None);
    assert_eq!(pool.pop(), None);
    assert_eq!(pool.get(&c.sender), Some(c));
}

#[test]
fn weight_saturates() {
    let mut pool = ReadyAccountPool::new(1, 3);
    let big = numbers_tx(1, 0, U256 { hi: 5, lo: 0 });
    let one = numbers_tx(2, 0, U256::from_u64(1));
    pool.insert(one);
    pool.insert(big);
    // weights 1 and 2^128 - 1: every number but zero falls on the second
    assert_eq!(pool.pop_with(1), Some(big));
    assert_eq!(pool.pop_with(u128::MAX), Some(one));
    assert_eq!(pool.len(), 0);
}

#[test]
fn exponent_zero_weighs_all_alike() {
    let mut pool = ReadyAccountPool::new(1000, 0);
    let a = numbers_tx(1, 0, U256::from_u64(0));
    let b = numbers_tx(2, 0, U256::from_u64(999_999));
    pool.insert(a);
    pool.insert(b);
    assert_eq!(pool.pop_with(3), Some(b));
    assert_eq!(pool.pop_with(3), Some(a));
}

#[test]
fn ready_pool_update_sets_and_clears() {
    let mut pool = ReadyAccountPool::new(1, 1);
    let a = numbers_tx(1, 0, U256::from_u64(2));
    let a2 = numbers_tx(1, 1, U256::from_u64(3));
    assert_eq!(pool.update(&a.sender, Some(a)), None);
    assert_eq!(pool.update(&a.sender, Some(a2)), Some(a));
    assert_eq!(pool.get(&a.sender), Some(a2));
    assert_eq!(pool.len(), 1);
    assert_eq!(pool.update(&a.sender, None), Some(a2));
    assert_eq!(pool.remove(&a.sender), None);
    pool.insert(a);
    pool.clear();
    assert_eq!(pool.len(), 0);
}
