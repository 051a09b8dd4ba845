use transaction_pool::pool::TransactionPoolInner;
use transaction_pool::pool_model::Account;
use transaction_pool::types::{
    AccountStateOracle, Action, Address, InsertError, OracleError, PackingCheckResult,
    PackingRecheck, PendingReason, RandomSource, SignedTransaction, SponsorInfo,
    TransactionStatus, H256,
};
use transaction_pool::u256::U256;

struct State {
    accounts: Vec<(Address, u64, u64)>,
    sponsor: Option<SponsorInfo>,
    privileged: bool,
    fail_accounts: bool,
    fail_sponsor: bool,
}

impl State {
    fn with(accounts: &[(Address, u64, u64)]) -> State {
        State {
            accounts: accounts.to_vec(),
            sponsor: None,
            privileged: false,
            fail_accounts: false,
            fail_sponsor: false,
        }
    }
}

impl AccountStateOracle for State {
    fn nonce_and_balance(&self, address: &Address) -> Result<(U256, U256), OracleError> {
        if self.fail_accounts {
            return Err(OracleError { message: String::from("no state") });
        }
        for (a, nonce, balance) in &self.accounts {
            if a == address {
                return Ok((U256::from_u64(*nonce), U256::from_u64(*balance)));
            }
        }
        Ok((U256::zero(), U256::zero()))
    }

    fn sponsor_info(&self, _contract: &Address) -> Result<Option<SponsorInfo>, OracleError> {
        if self.fail_sponsor {
            return Err(OracleError { message: String::from("no sponsor state") });
        }
        Ok(self.sponsor)
    }

    fn commission_privilege(&self, _contract: &Address, _user: &Address)
        -> Result<bool, OracleError> {
        Ok(self.privileged)
    }
}

struct Verdicts {
    pending: Vec<H256>,
    dropped: Vec<H256>,
}

impl Verdicts {
    fn all_pack() -> Verdicts {
        Verdicts { pending: Vec::new(), dropped: Vec::new() }
    }
}

impl PackingRecheck for Verdicts {
    fn recheck(&self, tx: &SignedTransaction, _epoch_height: u64, _block_number: u64)
        -> PackingCheckResult {
        if self.pending.contains(&tx.hash) {
            PackingCheckResult::Pending
        } else if self.dropped.contains(&tx.hash) {
            PackingCheckResult::Drop
        } else {
            PackingCheckResult::Pack
        }
    }
}

struct Fixed {
    values: Vec<u128>,
    next: usize,
}

impl Fixed {
    fn zeros() -> Fixed {
        Fixed { values: vec![0], next: 0 }
    }
}

impl RandomSource for Fixed {
    fn next_u128(&mut self) -> u128 {
        let v = self.values[self.next % self.values.len()];
        self.next += 1;
        v
    }
}

const ALICE: Address = Address { hi: 0x1000_0000, lo: 1 };
const BOB: Address = Address { hi: 0x1000_0000, lo: 2 };
const CAROL: Address = Address { hi: 0x1000_0000, lo: 3 };
const DAVE: Address = Address { hi: 0x1000_0000, lo: 4 };
const CONTRACT: Address = Address { hi: 0x8000_0000, lo: 9 };
const RICH: u64 = 1_000_000_000_000;

fn tx(sender: Address, nonce: u64, gas_price: u64) -> SignedTransaction {
    SignedTransaction {
        hash: H256::new(sender.lo, ((nonce as u128) << 64) | gas_price as u128),
        sender,
        nonce: U256::from_u64(nonce),
        gas_price: U256::from_u64(gas_price),
        gas: U256::from_u64(50000),
        value: U256::from_u64(10000),
        storage_limit: 0,
        action: Action::Call(BOB),
        rlp_size: 100,
    }
}

fn insert(pool: &mut TransactionPoolInner, state: &State, t: SignedTransaction)
    -> Result<(), InsertError> {
    assert!(pool.accepts_hash(&t));
    pool.insert_transaction_with_readiness_check(state, t, false, false)
}

fn pack_all(pool: &mut TransactionPoolInner, num: usize) -> Vec<SignedTransaction> {
    pool.pack_transactions_with(
        num,
        U256::from_u64(u64::MAX),
        usize::MAX,
        0,
        0,
        &Verdicts::all_pack(),
        &mut Fixed::zeros(),
    )
}

#[test]
fn new_pool_is_empty() {
    let pool = TransactionPoolInner::new(10, 1, 1);
    assert_eq!(pool.capacity(), 10);
    assert_eq!(pool.total_deferred(), 0);
    assert_eq!(pool.total_ready_accounts(), 0);
    assert_eq!(pool.total_received(), 0);
    assert_eq!(pool.total_unpacked(), 0);
    assert_eq!(pool.remaining_quota(), 10);
    assert!(!pool.is_full());
    assert_eq!(pool.get(&tx(ALICE, 0, 1).hash), None);
    assert_eq!(pool.get_local_nonce_and_balance(&ALICE), None);
    assert_eq!(pool.get_lowest_nonce(&ALICE), U256::zero());
    assert_eq!(pool.get_next_nonce(&ALICE, U256::from_u64(7)), U256::from_u64(7));
    assert_eq!(pool.content(None), (Vec::new(), Vec::new()));
    assert!(pool.get_current_timestamp() > 1_600_000_000);
    assert!(TransactionPoolInner::new(0, 1, 1).is_full());
}

#[test]
fn insert_lists_the_transaction() {
    let state = State::with(&[(ALICE, 5, RICH)]);
    let mut pool = TransactionPoolInner::new(10, 1, 1);
    let t5 = tx(ALICE, 5, 10);
    let t6 = tx(ALICE, 6, 10);
    let t8 = tx(ALICE, 8, 10);
    assert_eq!(insert(&mut pool, &state, t6), Ok(()));
    assert_eq!(pool.total_ready_accounts(), 0);
    assert_eq!(insert(&mut pool, &state, t5), Ok(()));
    assert_eq!(insert(&mut pool, &state, t8), Ok(()));
    assert_eq!(pool.total_deferred(), 3);
    assert_eq!(pool.total_unpacked(), 3);
    assert_eq!(pool.total_ready_accounts(), 1);
    assert_eq!(pool.get(&t5.hash), Some(t5));
    assert_eq!(pool.get_by_address2nonce(ALICE, U256::from_u64(6)), Some(t6));
    assert_eq!(pool.get_by_address2nonce(ALICE, U256::from_u64(7)), None);
    assert_eq!(pool.get_by_address2nonce(BOB, U256::from_u64(6)), None);
    assert_eq!(
        pool.get_local_nonce_and_balance(&ALICE),
        Some((U256::from_u64(5), U256::from_u64(RICH)))
    );
    assert_eq!(pool.get_lowest_nonce(&ALICE), U256::from_u64(5));
    assert_eq!(pool.get_next_nonce(&ALICE, U256::from_u64(5)), U256::from_u64(7));
    assert_eq!(pool.get_next_nonce(&ALICE, U256::from_u64(8)), U256::from_u64(9));
    assert_eq!(pool.get_next_nonce(&BOB, U256::from_u64(3)), U256::from_u64(3));
    assert!(!pool.check_tx_packed_in_deferred_pool(&t5.hash));
    let (ready, all) = pool.content(None);
    assert_eq!(ready, vec![t5]);
    assert_eq!(all.len(), 3);
    assert!(all.contains(&t5) && all.contains(&t6) && all.contains(&t8));
    assert_eq!(pool.content(Some(BOB)), (Vec::new(), Vec::new()));
    assert_eq!(pool.content(Some(ALICE)).1.len(), 3);
    assert_eq!(pool.remaining_quota(), 7);
    pool.clear();
    assert_eq!(pool.total_deferred(), 0);
    assert_eq!(pool.total_unpacked(), 0);
    assert_eq!(pool.total_ready_accounts(), 0);
    assert_eq!(pool.capacity(), 10);
    assert_eq!(pool.get(&t5.hash), None);
}

#[test]
fn too_far_future_is_rejected() {
    let state = State::with(&[(ALICE, 10, RICH)]);
    let mut pool = TransactionPoolInner::new(10, 1, 1);
    assert_eq!(insert(&mut pool, &state, tx(ALICE, 2010, 1)), Err(InsertError::TooFarFuture));
    assert_eq!(pool.total_deferred(), 0);
    assert_eq!(insert(&mut pool, &state, tx(ALICE, 2009, 1)), Ok(()));
    assert_eq!(pool.total_deferred(), 1);
}

#[test]
fn stale_nonce_is_rejected_unless_packed() {
    let state = State::with(&[(ALICE, 10, RICH)]);
    let mut pool = TransactionPoolInner::new(10, 1, 1);
    let old = tx(ALICE, 9, 1);
    assert_eq!(insert(&mut pool, &state, old), Err(InsertError::StaleNonce));
    assert_eq!(pool.total_deferred(), 0);
    assert_eq!(pool.insert_transaction_with_readiness_check(&state, old, true, true), Ok(()));
    assert_eq!(pool.total_deferred(), 1);
    assert_eq!(pool.total_unpacked(), 0);
    assert!(pool.check_tx_packed_in_deferred_pool(&old.hash));
    assert_eq!(pool.remaining_quota(), 10);
    assert_eq!(pool.get_lowest_nonce(&ALICE), U256::from_u64(9));
}

#[test]
fn replacement_needs_a_higher_price() {
    let state = State::with(&[(BOB, 2, RICH)]);
    let mut pool = TransactionPoolInner::new(10, 1, 1);
    let low = tx(BOB, 2, 10);
    let high = tx(BOB, 2, 11);
    assert_eq!(insert(&mut pool, &state, low), Ok(()));
    assert_eq!(insert(&mut pool, &state, high), Ok(()));
    assert_eq!(pool.total_deferred(), 1);
    assert_eq!(pool.total_unpacked(), 1);
    assert_eq!(pool.get(&low.hash), None);
    assert_eq!(pool.get(&high.hash), Some(high));
    assert_eq!(pool.content(None).0, vec![high]);
    assert_eq!(
        insert(&mut pool, &state, low),
        Err(InsertError::ReplaceUnderpriced { min_gas_price: U256::from_u64(11) })
    );
    assert_eq!(
        insert(&mut pool, &state, high),
        Err(InsertError::ReplaceUnderpriced { min_gas_price: U256::from_u64(11) })
    );
    assert_eq!(pool.get_by_address2nonce(BOB, U256::from_u64(2)), Some(high));
    assert_eq!(pool.insert_transaction_with_readiness_check(&state, low, false, true), Ok(()));
    assert_eq!(pool.get_by_address2nonce(BOB, U256::from_u64(2)), Some(low));
    assert_eq!(pool.total_deferred(), 1);
}

#[test]
fn marking_packed_and_back_balances_the_count() {
    let state = State::with(&[(ALICE, 0, RICH)]);
    let mut pool = TransactionPoolInner::new(10, 1, 1);
    let t = tx(ALICE, 0, 10);
    assert_eq!(pool.total_unpacked(), 0);
    assert_eq!(insert(&mut pool, &state, t), Ok(()));
    assert_eq!(pool.total_unpacked(), 1);
    assert_eq!(pool.total_ready_accounts(), 1);
    assert_eq!(pool.insert_transaction_with_readiness_check(&state, t, true, true), Ok(()));
    assert_eq!(pool.total_unpacked(), 0);
    assert_eq!(pool.total_ready_accounts(), 0);
    assert_eq!(pool.total_deferred(), 1);
    assert_eq!(pool.insert_transaction_with_readiness_check(&state, t, false, true), Ok(()));
    assert_eq!(pool.total_unpacked(), 1);
    assert_eq!(pool.insert_transaction_with_readiness_check(&state, t, false, true), Ok(()));
    assert_eq!(pool.total_unpacked(), 1);
    assert_eq!(pool.total_ready_accounts(), 1);
}

#[test]
fn oracle_failure_is_reported() {
    let mut state = State::with(&[(ALICE, 0, RICH)]);
    state.fail_accounts = true;
    let mut pool = TransactionPoolInner::new(10, 1, 1);
    assert_eq!(
        insert(&mut pool, &state, tx(ALICE, 0, 10)),
        Err(InsertError::OracleFailure(OracleError { message: String::from("no state") }))
    );
    assert_eq!(pool.total_deferred(), 0);
    let mut state = State::with(&[(ALICE, 0, RICH)]);
    state.fail_sponsor = true;
    let mut to_contract = tx(ALICE, 0, 10);
    to_contract.action = Action::Call(CONTRACT);
    assert_eq!(
        insert(&mut pool, &state, to_contract),
        Err(InsertError::OracleFailure(OracleError { message: String::from("no sponsor state") }))
    );
    // a call to an account that is no contract does not ask for a sponsor
    assert_eq!(insert(&mut pool, &state, tx(ALICE, 0, 10)), Ok(()));
}

#[test]
fn gc_chooses_lowest_fee_sender() {
    let state = State::with(&[(ALICE, 0, RICH), (BOB, 0, RICH), (CAROL, 0, RICH), (DAVE, 0, RICH)]);
    let mut pool = TransactionPoolInner::new(3, 1, 1);
    let a = tx(ALICE, 0, 6);
    let b = tx(BOB, 0, 5);
    let c = tx(CAROL, 0, 7);
    assert_eq!(insert(&mut pool, &state, a), Ok(()));
    assert_eq!(insert(&mut pool, &state, b), Ok(()));
    assert_eq!(insert(&mut pool, &state, c), Ok(()));
    assert!(pool.is_full());
    assert_eq!(pool.remaining_quota(), 0);
    let d = tx(DAVE, 0, 8);
    assert_eq!(insert(&mut pool, &state, d), Ok(()));
    assert_eq!(pool.total_deferred(), 3);
    assert_eq!(pool.total_unpacked(), 3);
    assert_eq!(pool.get(&b.hash), None);
    assert_eq!(pool.get_by_address2nonce(BOB, U256::zero()), None);
    assert_eq!(pool.get_local_nonce_and_balance(&BOB), None);
    assert_eq!(pool.get(&a.hash), Some(a));
    assert_eq!(pool.get(&c.hash), Some(c));
    assert_eq!(pool.get(&d.hash), Some(d));
    assert_eq!(pool.total_ready_accounts(), 3);
    assert_eq!(pool.content(Some(BOB)), (Vec::new(), Vec::new()));
}

#[test]
fn gc_refuses_to_evict_own_sender() {
    let state = State::with(&[(ALICE, 0, RICH), (BOB, 0, RICH), (CAROL, 0, RICH)]);
    let mut pool = TransactionPoolInner::new(3, 1, 1);
    let a = tx(ALICE, 0, 5);
    let b = tx(BOB, 0, 6);
    let c = tx(CAROL, 0, 7);
    assert_eq!(insert(&mut pool, &state, a), Ok(()));
    assert_eq!(insert(&mut pool, &state, b), Ok(()));
    assert_eq!(insert(&mut pool, &state, c), Ok(()));
    // the cheapest transaction is the sender's own: the next cheapest decides
    assert_eq!(insert(&mut pool, &state, tx(ALICE, 1, 6)), Err(InsertError::PoolFull));
    assert_eq!(insert(&mut pool, &state, tx(ALICE, 1, 5)), Err(InsertError::PoolFull));
    assert_eq!(pool.total_deferred(), 3);
    assert_eq!(pool.get(&a.hash), Some(a));
    assert_eq!(pool.get(&b.hash), Some(b));
    let a1 = tx(ALICE, 1, 8);
    assert_eq!(insert(&mut pool, &state, a1), Ok(()));
    assert_eq!(pool.total_deferred(), 3);
    assert_eq!(pool.get(&b.hash), None);
    assert_eq!(pool.get(&a.hash), Some(a));
    assert_eq!(pool.get(&a1.hash), Some(a1));
    assert_eq!(pool.get(&c.hash), Some(c));
}

#[test]
fn gc_prefers_consumed_nonces() {
    let state = State::with(&[(ALICE, 0, RICH), (BOB, 0, RICH), (CAROL, 0, RICH)]);
    let mut pool = TransactionPoolInner::new(3, 1, 1);
    let a0 = tx(ALICE, 0, 100);
    let a1 = tx(ALICE, 1, 100);
    let b = tx(BOB, 0, 1);
    assert_eq!(insert(&mut pool, &state, a0), Ok(()));
    assert_eq!(insert(&mut pool, &state, a1), Ok(()));
    assert_eq!(insert(&mut pool, &state, b), Ok(()));
    pool.notify_modified_accounts_at(
        &vec![Account { address: ALICE, nonce: U256::from_u64(1), balance: U256::from_u64(RICH) }],
        77,
    );
    assert_eq!(pool.remaining_quota(), 1);
    assert_eq!(pool.get_lowest_nonce(&ALICE), U256::zero());
    // the new transaction offers less than any other, yet the consumed nonce makes room
    let c = tx(CAROL, 0, 1);
    assert_eq!(insert(&mut pool, &state, c), Ok(()));
    assert_eq!(pool.get(&a0.hash), None);
    assert_eq!(pool.get(&a1.hash), Some(a1));
    assert_eq!(pool.get(&b.hash), Some(b));
    assert_eq!(pool.get(&c.hash), Some(c));
    assert_eq!(pool.remaining_quota(), 0);
    assert_eq!(pool.get_lowest_nonce(&ALICE), U256::from_u64(1));
    // now nothing is consumed and nothing is cheaper
    assert_eq!(insert(&mut pool, &state, tx(DAVE, 0, 1)), Err(InsertError::PoolFull));
}

#[test]
fn collect_garbage_leaves_a_pool_with_room_alone() {
    let state = State::with(&[(ALICE, 0, RICH)]);
    let mut pool = TransactionPoolInner::new(3, 1, 1);
    let a = tx(ALICE, 0, 1);
    assert_eq!(insert(&mut pool, &state, a), Ok(()));
    pool.collect_garbage(&tx(BOB, 0, 100));
    assert_eq!(pool.total_deferred(), 1);
    pool.collect_garbage_at(&tx(BOB, 0, 100), 5);
    assert_eq!(pool.get(&a.hash), Some(a));
}

#[test]
fn notify_moves_the_ready_transaction() {
    let state = State::with(&[(ALICE, 5, RICH)]);
    let mut pool = TransactionPoolInner::new(10, 1, 1);
    let t5 = tx(ALICE, 5, 10);
    let t6 = tx(ALICE, 6, 10);
    assert_eq!(insert(&mut pool, &state, t5), Ok(()));
    assert_eq!(insert(&mut pool, &state, t6), Ok(()));
    assert_eq!(pool.content(None).0, vec![t5]);
    pool.notify_modified_accounts(vec![
        Account { address: ALICE, nonce: U256::from_u64(6), balance: U256::from_u64(RICH) },
        Account { address: BOB, nonce: U256::from_u64(1), balance: U256::from_u64(RICH) },
    ]);
    assert_eq!(pool.content(None).0, vec![t6]);
    assert_eq!(
        pool.get_local_nonce_and_balance(&ALICE),
        Some((U256::from_u64(6), U256::from_u64(RICH)))
    );
    assert_eq!(pool.get_local_nonce_and_balance(&BOB), None);
    assert_eq!(pool.remaining_quota(), 9);
    pool.notify_modified_accounts_at(
        &vec![Account { address: ALICE, nonce: U256::from_u64(6), balance: U256::from_u64(5) }],
        1,
    );
    assert_eq!(pool.total_ready_accounts(), 0);
    assert_eq!(pool.total_deferred(), 2);
}

#[test]
fn consumed_nonce_is_not_packed() {
    let state = State::with(&[(ALICE, 5, RICH)]);
    let mut pool = TransactionPoolInner::new(10, 1, 1);
    let t5 = tx(ALICE, 5, 10);
    assert_eq!(insert(&mut pool, &state, t5), Ok(()));
    pool.notify_modified_accounts_at(
        &vec![Account {
            address: ALICE,
            nonce: U256::from_u64(6),
            balance: U256 { hi: u128::MAX, lo: u128::MAX },
        }],
        1,
    );
    assert_eq!(pack_all(&mut pool, 10), Vec::new());
}

#[test]
fn pack_follows_the_nonces_and_restores_the_pool() {
    let state = State::with(&[(ALICE, 5, RICH), (BOB, 0, RICH)]);
    let mut pool = TransactionPoolInner::new(10, 1, 1);
    let a5 = tx(ALICE, 5, 10);
    let a6 = tx(ALICE, 6, 10);
    let a8 = tx(ALICE, 8, 10);
    let b0 = tx(BOB, 0, 20);
    for t in [a6, a5, a8, b0] {
        assert_eq!(insert(&mut pool, &state, t), Ok(()));
    }
    assert_eq!(pool.total_ready_accounts(), 2);
    let packed = pack_all(&mut pool, 10);
    assert_eq!(packed, vec![a5, b0, a6]);
    assert_eq!(pool.total_deferred(), 4);
    assert_eq!(pool.total_unpacked(), 4);
    assert_eq!(pool.total_ready_accounts(), 2);
    assert!(!pool.check_tx_packed_in_deferred_pool(&a5.hash));
    assert!(!pool.check_tx_packed_in_deferred_pool(&b0.hash));
    let ready = pool.content(None).0;
    assert!(ready.contains(&a5) && ready.contains(&b0));
    let two = pack_all(&mut pool, 2);
    assert_eq!(two.len(), 2);
    assert!(two.contains(&a5) || two[0] == b0);
    assert!(!two.contains(&a8));
    assert!(!two.contains(&a6) || two[0] == a5);
    assert_eq!(pack_all(&mut pool, 0), Vec::new());
    assert_eq!(pool.total_unpacked(), 4);
}

#[test]
fn pack_draws_by_weight() {
    let state = State::with(&[(ALICE, 0, RICH), (BOB, 0, RICH)]);
    let mut pool = TransactionPoolInner::new(10, 1, 1);
    let a = tx(ALICE, 0, 10);
    let b = tx(BOB, 0, 20);
    assert_eq!(insert(&mut pool, &state, a), Ok(()));
    assert_eq!(insert(&mut pool, &state, b), Ok(()));
    let draw = |pool: &mut TransactionPoolInner, r: u128| {
        pool.pack_transactions_with(
            1,
            U256::from_u64(u64::MAX),
            usize::MAX,
            0,
            0,
            &Verdicts::all_pack(),
            &mut Fixed { values: vec![r], next: 0 },
        )
    };
    let first = draw(&mut pool, 9);
    let order = pool.content(None).0;
    assert_eq!(order.len(), 2);
    // the line has length 30; one sender has the first stretch, the other the rest
    if first == vec![a] {
        assert_eq!(order, vec![b, a]);
        assert_eq!(draw(&mut pool, 19), vec![b]);
    } else {
        assert_eq!(first, vec![b]);
    }
    let mut seen_a = false;
    let mut seen_b = false;
    for r in 0..30 {
        let got = draw(&mut pool, r);
        seen_a = seen_a || got == vec![a];
        seen_b = seen_b || got == vec![b];
        assert_eq!(pool.total_ready_accounts(), 2);
    }
    assert!(seen_a && seen_b);
}

#[test]
fn pack_respects_the_limits() {
    let state = State::with(&[(ALICE, 0, RICH), (BOB, 0, RICH), (CAROL, 0, RICH)]);
    let mut pool = TransactionPoolInner::new(10, 1, 1);
    let a = tx(ALICE, 0, 10);
    let b = tx(BOB, 0, 10);
    let c = tx(CAROL, 0, 10);
    for t in [a, b, c] {
        assert_eq!(insert(&mut pool, &state, t), Ok(()));
    }
    let by_gas = pool.pack_transactions_with(
        10,
        U256::from_u64(100_000),
        usize::MAX,
        0,
        0,
        &Verdicts::all_pack(),
        &mut Fixed::zeros(),
    );
    assert_eq!(by_gas.len(), 2);
    assert_eq!(pool.total_ready_accounts(), 3);
    let by_size = pool.pack_transactions_with(
        10,
        U256::from_u64(u64::MAX),
        199,
        0,
        0,
        &Verdicts::all_pack(),
        &mut Fixed::zeros(),
    );
    assert_eq!(by_size.len(), 1);
    assert_eq!(pool.total_ready_accounts(), 3);
    let none = pool.pack_transactions_with(
        10,
        U256::from_u64(49_999),
        usize::MAX,
        0,
        0,
        &Verdicts::all_pack(),
        &mut Fixed::zeros(),
    );
    assert_eq!(none, Vec::new());
    assert_eq!(pool.total_ready_accounts(), 3);
    assert_eq!(pool.total_unpacked(), 3);
}

#[test]
fn pack_stops_after_ten_oversized_draws() {
    let mut accounts = Vec::new();
    for i in 0..12u128 {
        accounts.push((Address::new(0x1000_0000, 100 + i), 0u64, RICH));
    }
    let state = State::with(&accounts);
    let mut pool = TransactionPoolInner::new(100, 1, 1);
    for (a, _, _) in &accounts {
        assert_eq!(insert(&mut pool, &state, tx(*a, 0, 10)), Ok(()));
    }
    let mut rng = Fixed::zeros();
    let packed = pool.pack_transactions_with(
        5,
        U256::from_u64(1),
        usize::MAX,
        0,
        0,
        &Verdicts::all_pack(),
        &mut rng,
    );
    assert_eq!(packed, Vec::new());
    assert_eq!(rng.next, 10);
    assert_eq!(pool.total_ready_accounts(), 12);
}

#[test]
fn pack_defers_and_drops() {
    let state = State::with(&[(ALICE, 0, RICH), (BOB, 0, RICH), (CAROL, 0, RICH)]);
    let mut pool = TransactionPoolInner::new(10, 1, 1);
    let a = tx(ALICE, 0, 10);
    let b = tx(BOB, 0, 10);
    let c = tx(CAROL, 0, 10);
    for t in [a, b, c] {
        assert_eq!(insert(&mut pool, &state, t), Ok(()));
    }
    let verdicts = Verdicts { pending: vec![a.hash], dropped: vec![b.hash] };
    let packed = pool.pack_transactions_with(
        10,
        U256::from_u64(u64::MAX),
        usize::MAX,
        0,
        0,
        &verdicts,
        &mut Fixed::zeros(),
    );
    assert_eq!(packed, vec![c]);
    // the deferred one is ready again; the dropped one stays in the pool without being ready
    let ready = pool.content(None).0;
    assert_eq!(ready.len(), 2);
    assert!(ready.contains(&a) && ready.contains(&c));
    assert_eq!(pool.total_deferred(), 3);
    assert_eq!(pool.total_unpacked(), 3);
    assert_eq!(pool.get(&b.hash), Some(b));
    // a later notification lists it again
    pool.notify_modified_accounts_at(
        &vec![Account { address: BOB, nonce: U256::zero(), balance: U256::from_u64(RICH) }],
        1,
    );
    assert_eq!(pool.total_ready_accounts(), 3);
}

#[test]
fn pack_with_the_thread_generator() {
    let state = State::with(&[(ALICE, 0, RICH), (BOB, 0, RICH)]);
    let mut pool = TransactionPoolInner::new(10, 2, 1);
    let a = tx(ALICE, 0, 10);
    let b = tx(BOB, 0, 20);
    // a gas price below the divisor weighs nothing and is never drawn
    let c = tx(CAROL, 0, 1);
    for t in [a, b, c] {
        assert_eq!(insert(&mut pool, &state, t), Ok(()));
    }
    assert_eq!(pool.total_ready_accounts(), 2);
    for _ in 0..20 {
        let packed =
            pool.pack_transactions(10, U256::from_u64(u64::MAX), usize::MAX, 0, 0, &Verdicts::all_pack());
        assert_eq!(packed.len(), 2);
        assert!(packed.contains(&a) && packed.contains(&b));
    }
}

#[test]
fn sponsorship_lowers_the_needed_balance() {
    let mut state = State::with(&[(ALICE, 0, 10_000)]);
    state.sponsor = Some(SponsorInfo {
        sponsor_gas_bound: U256::from_u64(500_000),
        sponsor_balance_for_gas: U256::from_u64(500_000),
        sponsor_balance_for_collateral: U256::from_u64(2 * 976_562_500_000_000),
    });
    state.privileged = true;
    let mut sponsored = tx(ALICE, 0, 10);
    sponsored.action = Action::Call(CONTRACT);
    sponsored.storage_limit = 2;
    let mut pool = TransactionPoolInner::new(10, 1, 1);
    assert_eq!(insert(&mut pool, &state, sponsored), Ok(()));
    // the balance covers the value alone
    assert_eq!(pool.content(None).0, vec![sponsored]);
    assert_eq!(
        TransactionPoolInner::sponsored_amounts(&sponsored, &state.sponsor.unwrap()),
        (U256::from_u64(50000), 2)
    );
    let mut bigger = sponsored;
    bigger.storage_limit = 3;
    bigger.gas_price = U256::from_u64(11);
    assert_eq!(
        TransactionPoolInner::sponsored_amounts(&bigger, &state.sponsor.unwrap()),
        (U256::zero(), 0)
    );
    // without the privilege the sender pays
    state.privileged = false;
    let mut pool = TransactionPoolInner::new(10, 1, 1);
    assert_eq!(insert(&mut pool, &state, sponsored), Ok(()));
    assert_eq!(pool.total_ready_accounts(), 0);
    let (_, status, count) = pool.get_account_pending_transactions(&ALICE, None, None);
    assert_eq!(status, Some(TransactionStatus::Pending(PendingReason::NotEnoughCash)));
    assert_eq!(count, 1);
}

#[test]
fn pending_queries() {
    let state = State::with(&[(ALICE, 5, RICH)]);
    let mut pool = TransactionPoolInner::new(10, 1, 1);
    assert_eq!(
        pool.get_account_pending_info(&ALICE),
        Some((U256::zero(), U256::zero(), U256::zero(), H256::zero()))
    );
    assert_eq!(pool.get_account_pending_transactions(&ALICE, None, None), (Vec::new(), None, 0));
    let t6 = tx(ALICE, 6, 10);
    let t7 = tx(ALICE, 7, 10);
    let t9 = tx(ALICE, 9, 10);
    for t in [t6, t7, t9] {
        assert_eq!(insert(&mut pool, &state, t), Ok(()));
    }
    assert_eq!(
        pool.get_account_pending_info(&ALICE),
        Some((U256::from_u64(5), U256::from_u64(3), U256::from_u64(6), t6.hash))
    );
    assert_eq!(
        pool.get_account_pending_transactions(&ALICE, None, None),
        (vec![t6, t7, t9], Some(TransactionStatus::Pending(PendingReason::FutureNonce)), 3)
    );
    assert_eq!(
        pool.get_account_pending_transactions(&ALICE, Some(U256::from_u64(7)), Some(1)),
        (vec![t7], Some(TransactionStatus::Pending(PendingReason::FutureNonce)), 2)
    );
    assert_eq!(
        pool.get_account_pending_transactions(&ALICE, Some(U256::from_u64(10)), None),
        (Vec::new(), None, 0)
    );
    let t5 = tx(ALICE, 5, 10);
    assert_eq!(insert(&mut pool, &state, t5), Ok(()));
    assert_eq!(
        pool.get_account_pending_transactions(&ALICE, None, Some(2)),
        (vec![t5, t6], Some(TransactionStatus::Ready), 4)
    );
    assert_eq!(
        pool.get_account_pending_transactions(&ALICE, Some(U256::from_u64(9)), Some(0)),
        (Vec::new(), Some(TransactionStatus::Pending(PendingReason::FutureNonce)), 1)
    );
    assert_eq!(
        pool.get_account_pending_info(&ALICE),
        Some((U256::from_u64(5), U256::from_u64(4), U256::from_u64(5), t5.hash))
    );
}

#[test]
fn a_hash_is_taken_for_one_sender_and_nonce() {
    let state = State::with(&[(ALICE, 0, RICH)]);
    let mut pool = TransactionPoolInner::new(10, 1, 1);
    let t = tx(ALICE, 0, 10);
    assert!(pool.accepts_hash(&t));
    assert_eq!(insert(&mut pool, &state, t), Ok(()));
    assert!(pool.accepts_hash(&t));
    let mut clash = tx(BOB, 3, 10);
    clash.hash = t.hash;
    assert!(!pool.accepts_hash(&clash));
    assert_eq!(pool.try_insert_transaction(&state, clash, false, false), None);
    assert_eq!(pool.total_deferred(), 1);
    assert_eq!(pool.get(&t.hash), Some(t));
    assert_eq!(pool.try_insert_transaction(&state, tx(ALICE, 1, 10), false, false), Some(Ok(())));
    assert_eq!(
        pool.try_insert_transaction(&state, tx(ALICE, 1, 10), false, false),
        Some(Err(InsertError::ReplaceUnderpriced { min_gas_price: U256::from_u64(10) }))
    );
    assert_eq!(pool.total_deferred(), 2);
}

fn assert_consistent(pool: &TransactionPoolInner) {
    let (ready, all) = pool.content(None);
    // every listed transaction is the one held for its sender and nonce, and no hash is
    // listed twice
    assert_eq!(all.len(), pool.total_deferred());
    assert!(pool.total_deferred() <= pool.capacity());
    let mut unpacked = 0;
    for t in &all {
        assert_eq!(pool.get(&t.hash), Some(*t));
        assert_eq!(pool.get_by_address2nonce(t.sender, t.nonce), Some(*t));
        assert!(pool.get_local_nonce_and_balance(&t.sender).is_some());
        if !pool.check_tx_packed_in_deferred_pool(&t.hash) {
            unpacked += 1;
        }
        assert_eq!(all.iter().filter(|o| o.hash == t.hash).count(), 1);
        assert_eq!(
            all.iter().filter(|o| o.sender == t.sender && o.nonce == t.nonce).count(),
            1
        );
    }
    assert_eq!(unpacked, pool.total_unpacked());
    // every ready transaction is held, not packed, and not behind the known nonce
    assert_eq!(ready.len(), pool.total_ready_accounts());
    for t in &ready {
        assert!(all.contains(t));
        assert!(!pool.check_tx_packed_in_deferred_pool(&t.hash));
        let (nonce, _) = pool.get_local_nonce_and_balance(&t.sender).unwrap();
        assert!(nonce <= t.nonce);
        assert_eq!(ready.iter().filter(|o| o.sender == t.sender).count(), 1);
    }
    assert!(pool.remaining_quota() <= pool.capacity());
}

#[test]
fn invariants_hold_after_operations() {
    let state = State::with(&[(ALICE, 5, RICH), (BOB, 0, 600_000), (CAROL, 2, RICH)]);
    let mut pool = TransactionPoolInner::new(6, 1, 2);
    assert_consistent(&pool);
    for t in [tx(ALICE, 6, 10), tx(ALICE, 5, 10), tx(BOB, 0, 3), tx(BOB, 1, 3), tx(CAROL, 4, 9)] {
        assert_eq!(insert(&mut pool, &state, t), Ok(()));
        assert_consistent(&pool);
    }
    assert_eq!(pool.insert_transaction_with_readiness_check(&state, tx(ALICE, 5, 10), true, true), Ok(()));
    assert_consistent(&pool);
    assert_eq!(pool.total_unpacked(), 4);
    assert_eq!(insert(&mut pool, &state, tx(BOB, 0, 4)), Ok(()));
    assert_consistent(&pool);
    pool.notify_modified_accounts_at(
        &vec![
            Account { address: ALICE, nonce: U256::from_u64(6), balance: U256::from_u64(RICH) },
            Account { address: CAROL, nonce: U256::from_u64(4), balance: U256::from_u64(0) },
        ],
        9,
    );
    assert_consistent(&pool);
    assert_eq!(pool.remaining_quota(), 2);
    let packed = pack_all(&mut pool, 10);
    assert_consistent(&pool);
    assert_eq!(packed.len(), 3);
    assert!(!packed.contains(&tx(ALICE, 5, 10)) && !packed.contains(&tx(CAROL, 4, 9)));
    for t in [tx(DAVE, 0, 50), tx(DAVE, 1, 50), tx(DAVE, 2, 50), tx(DAVE, 3, 50)] {
        let _ = insert(&mut pool, &state, t);
        assert_consistent(&pool);
    }
    assert_eq!(pool.total_deferred(), 6);
    assert_eq!(pool.get(&tx(ALICE, 5, 10).hash), None);
    pool.clear();
    assert_consistent(&pool);
}

#[test]
fn estimated_gas_cost_is_capped() {
    let mut huge = tx(ALICE, 0, 2);
    huge.gas = U256 { hi: 1 << 70, lo: 0 };
    let generous = SponsorInfo {
        sponsor_gas_bound: U256::from_u128(u128::MAX),
        sponsor_balance_for_gas: U256::from_u128(u128::MAX),
        sponsor_balance_for_collateral: U256::zero(),
    };
    // the product exceeds 128 bits and counts as the largest 128-bit number
    assert_eq!(TransactionPoolInner::sponsored_amounts(&huge, &generous), (huge.gas, 0));
    let nearly = SponsorInfo { sponsor_gas_bound: U256::from_u128(u128::MAX - 1), ..generous };
    assert_eq!(TransactionPoolInner::sponsored_amounts(&huge, &nearly), (U256::zero(), 0));
    let mut overflowing = huge;
    overflowing.gas = U256 { hi: u128::MAX, lo: 0 };
    overflowing.gas_price = U256 { hi: 2, lo: 0 };
    assert_eq!(TransactionPoolInner::sponsored_amounts(&overflowing, &generous).0, overflowing.gas);
    let mut with_storage = tx(ALICE, 0, 2);
    with_storage.storage_limit = 4;
    let collateral = SponsorInfo {
        sponsor_gas_bound: U256::zero(),
        sponsor_balance_for_gas: U256::zero(),
        sponsor_balance_for_collateral: U256::from_u64(4 * 976_562_500_000_000),
    };
    assert_eq!(TransactionPoolInner::sponsored_amounts(&with_storage, &collateral), (U256::zero(), 4));
    assert!(TransactionPoolInner::exceeds_block_limits(
        &U256::from_u64(10),
        &U256::from_u64(11),
        100,
        0,
        &with_storage
    ));
    assert!(!TransactionPoolInner::exceeds_block_limits(
        &U256::from_u64(50_000),
        &U256::zero(),
        100,
        0,
        &with_storage
    ));
    assert!(TransactionPoolInner::exceeds_block_limits(
        &U256::from_u64(50_000),
        &U256::zero(),
        100,
        1,
        &with_storage
    ));
}

#[test]
fn sponsorship_follows_the_answers_of_the_state() {
    let info = SponsorInfo {
        sponsor_gas_bound: U256::from_u64(500_000),
        sponsor_balance_for_gas: U256::from_u64(500_000),
        sponsor_balance_for_collateral: U256::from_u64(976_562_500_000_000),
    };
    let mut to_contract = tx(ALICE, 0, 10);
    to_contract.action = Action::Call(CONTRACT);
    to_contract.storage_limit = 1;
    assert_eq!(
        TransactionPoolInner::decide_sponsorship(&to_contract, Some(info), true),
        (U256::from_u64(50000), 1)
    );
    // without the privilege, or without a sponsor, the sender pays
    assert_eq!(
        TransactionPoolInner::decide_sponsorship(&to_contract, Some(info), false),
        (U256::zero(), 0)
    );
    assert_eq!(TransactionPoolInner::decide_sponsorship(&to_contract, None, true), (U256::zero(), 0));
    // a call to an account that is no contract, and a creation, are not sponsored
    assert_eq!(
        TransactionPoolInner::decide_sponsorship(&tx(ALICE, 0, 10), Some(info), true),
        (U256::zero(), 0)
    );
    let mut creation = to_contract;
    creation.action = Action::Create;
    assert_eq!(
        TransactionPoolInner::decide_sponsorship(&creation, Some(info), true),
        (U256::zero(), 0)
    );
    // the gas is sponsored and the storage is not, where only the collateral is too high
    to_contract.storage_limit = 2;
    assert_eq!(
        TransactionPoolInner::decide_sponsorship(&to_contract, Some(info), true),
        (U256::from_u64(50000), 0)
    );
}

#[test]
fn verdicts_on_a_drawn_transaction() {
    let state = State::with(&[(ALICE, 0, RICH)]);
    let mut pool = TransactionPoolInner::new(10, 1, 1);
    let a0 = tx(ALICE, 0, 10);
    let a1 = tx(ALICE, 1, 10);
    assert_eq!(insert(&mut pool, &state, a0), Ok(()));
    assert_eq!(insert(&mut pool, &state, a1), Ok(()));
    let mut selected = Vec::new();
    let mut recycle = Vec::new();
    pool.apply_verdict(&a0, PackingCheckResult::Drop, &mut selected, &mut recycle);
    assert_eq!((selected.len(), recycle.len()), (0, 0));
    assert_eq!(pool.total_unpacked(), 2);
    assert_eq!(pool.content(None).0, vec![a0]);
    pool.apply_verdict(&a0, PackingCheckResult::Pending, &mut selected, &mut recycle);
    assert_eq!(selected, Vec::new());
    assert_eq!(recycle, vec![a0]);
    assert_eq!(pool.total_unpacked(), 2);
    assert!(!pool.check_tx_packed_in_deferred_pool(&a0.hash));
    pool.apply_verdict(&a0, PackingCheckResult::Pack, &mut selected, &mut recycle);
    assert_eq!(selected, vec![a0]);
    assert_eq!(recycle, vec![a0]);
    assert!(pool.check_tx_packed_in_deferred_pool(&a0.hash));
    assert_eq!(pool.total_unpacked(), 1);
    assert_eq!(pool.total_deferred(), 2);
    // the next transaction of the sender is the ready one now
    assert_eq!(pool.content(None).0, vec![a1]);
    assert_consistent(&pool);
}

#[test]
fn packing_readies_no_new_sender() {
    let state = State::with(&[(ALICE, 0, RICH), (BOB, 3, RICH)]);
    let mut pool = TransactionPoolInner::new(10, 1, 1);
    let a0 = tx(ALICE, 0, 10);
    let b4 = tx(BOB, 4, 10);
    assert_eq!(insert(&mut pool, &state, a0), Ok(()));
    assert_eq!(insert(&mut pool, &state, b4), Ok(()));
    assert_eq!(pool.content(None).0, vec![a0]);
    assert_eq!(pack_all(&mut pool, 10), vec![a0]);
    assert_eq!(pool.content(None).0, vec![a0]);
    let dropped = Verdicts { pending: Vec::new(), dropped: vec![a0.hash] };
    let packed = pool.pack_transactions_with(
        10,
        U256::from_u64(u64::MAX),
        usize::MAX,
        0,
        0,
        &dropped,
        &mut Fixed::zeros(),
    );
    assert_eq!(packed, Vec::new());
    assert_eq!(pool.content(None).0, Vec::new());
    assert_eq!(pool.total_deferred(), 2);
}
