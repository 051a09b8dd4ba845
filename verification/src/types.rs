//! The values that the pool handles: addresses, hashes, transactions and the
//! results of its operations.

use crate::u256::{pow2_256, U256};
use crate::vec_map::MapKey;
use vstd::prelude::*;

verus! {

/// The amount of the base currency that one unit of storage collateral costs.
pub const DRIPS_PER_STORAGE_COLLATERAL_UNIT: u64 = 976_562_500_000_000;

/// A 160-bit account address: the upper 32 bits and the lower 128 bits.
#[derive(Clone, Copy, Debug, PartialEq, Eq, PartialOrd, Ord, Hash, Structural)]
pub struct Address {
    /// The first four bytes.
    pub hi: u32,
    /// The last sixteen bytes.
    pub lo: u128,
}

impl Address {
    /// The address with the given halves.
    pub fn new(hi: u32, lo: u128) -> (r: Address)
        ensures
            r == (Address { hi, lo }),
    {
        Address { hi, lo }
    }

    /// Whether the first four bits mark the address as that of a contract.
    pub open spec fn spec_maybe_contract_address(self) -> bool {
        self.hi / 0x1000_0000 == 8
    }

    /// Whether the first four bits mark the address as that of a contract.
    pub fn maybe_contract_address(&self) -> (b: bool)
        ensures
            b == self.spec_maybe_contract_address(),
    {
        self.hi / 0x1000_0000 == 8
    }

    /// Whether this address comes before the other, the first four bytes
    /// deciding before the rest.
    pub open spec fn spec_lt(self, other: Address) -> bool {
        self.hi < other.hi || (self.hi == other.hi && self.lo < other.lo)
    }

    /// Whether this address comes before the other.
    pub fn lt(&self, other: &Address) -> (b: bool)
        ensures
            b == self.spec_lt(*other),
    {
        self.hi < other.hi || (self.hi == other.hi && self.lo < other.lo)
    }
}

impl MapKey for Address {
    fn same_key(&self, other: &Self) -> (b: bool) {
        self.hi == other.hi && self.lo == other.lo
    }
}

/// A 256-bit hash.
#[derive(Clone, Copy, Debug, PartialEq, Eq, PartialOrd, Ord, Hash, Structural)]
pub struct H256 {
    /// The first sixteen bytes.
    pub hi: u128,
    /// The last sixteen bytes.
    pub lo: u128,
}

impl H256 {
    /// The hash with the given halves.
    pub fn new(hi: u128, lo: u128) -> (r: H256)
        ensures
            r == (H256 { hi, lo }),
    {
        H256 { hi, lo }
    }

    /// The hash whose bytes are all zero.
    pub fn zero() -> (r: H256)
        ensures
            r == (H256 { hi: 0, lo: 0 }),
    {
        H256 { hi: 0, lo: 0 }
    }
}

impl MapKey for H256 {
    fn same_key(&self, other: &Self) -> (b: bool) {
        self.hi == other.hi && self.lo == other.lo
    }
}

/// What a transaction does.
#[derive(Clone, Copy, Debug, PartialEq, Eq, Structural)]
pub enum Action {
    /// It creates a contract.
    Create,
    /// It calls the account at the address.
    Call(Address),
}

/// A signed transaction as the pool sees it. The pool trusts these fields
/// and never changes them.
#[derive(Clone, Copy, Debug, PartialEq, Eq, Structural)]
pub struct SignedTransaction {
    /// The hash that identifies the transaction.
    pub hash: H256,
    /// The account that signed it.
    pub sender: Address,
    /// The sender's sequence number of the transaction.
    pub nonce: U256,
    /// The price offered per unit of gas.
    pub gas_price: U256,
    /// The gas limit.
    pub gas: U256,
    /// The amount transferred.
    pub value: U256,
    /// The storage limit.
    pub storage_limit: u64,
    /// What the transaction does.
    pub action: Action,
    /// The size of the encoded transaction in bytes.
    pub rlp_size: usize,
}

/// A transaction in the pool, with what the pool records about it.
#[derive(Clone, Copy, Debug, PartialEq, Eq, Structural)]
pub struct TxWithReadyInfo {
    /// The transaction.
    pub transaction: SignedTransaction,
    /// Whether a block under construction holds the transaction.
    pub packed: bool,
    /// The gas that a sponsor pays for.
    pub sponsored_gas: U256,
    /// The storage that a sponsor pays for.
    pub sponsored_storage: u64,
}

impl TxWithReadyInfo {
    /// The gas that the sender pays for.
    pub open spec fn spec_unsponsored_gas(self) -> nat {
        if self.sponsored_gas@ >= self.transaction.gas@ {
            0
        } else {
            (self.transaction.gas@ - self.sponsored_gas@) as nat
        }
    }

    /// The storage that the sender pays for.
    pub open spec fn spec_unsponsored_storage(self) -> nat {
        if self.sponsored_storage >= self.transaction.storage_limit {
            0
        } else {
            (self.transaction.storage_limit - self.sponsored_storage) as nat
        }
    }

    /// The balance that the sender needs for the transaction: the value,
    /// the price of the gas that no sponsor pays for, and the collateral of
    /// the storage that no sponsor pays for.
    pub open spec fn spec_cost(self) -> nat {
        self.transaction.value@ + self.transaction.gas_price@ * self.spec_unsponsored_gas()
            + DRIPS_PER_STORAGE_COLLATERAL_UNIT as nat * self.spec_unsponsored_storage()
    }

    /// Whether a block under construction holds the transaction.
    pub fn is_already_packed(&self) -> (b: bool)
        ensures
            b == self.packed,
    {
        self.packed
    }

    /// Whether this entry takes the place of `resident`, an entry of the same
    /// sender and nonce: always when forced, and otherwise only if it offers a
    /// strictly higher gas price and `resident` is not packed.
    pub open spec fn spec_should_replace(self, resident: TxWithReadyInfo, force: bool) -> bool {
        force || (self.transaction.gas_price@ > resident.transaction.gas_price@
            && !resident.packed)
    }

    /// Whether this entry takes the place of `resident`.
    pub fn should_replace(&self, resident: &TxWithReadyInfo, force: bool) -> (b: bool)
        ensures
            b == self.spec_should_replace(*resident, force),
    {
        if force {
            return true;
        }
        if resident.packed {
            return false;
        }
        resident.transaction.gas_price.lt(&self.transaction.gas_price)
    }

    /// The balance that the sender needs for the transaction, or `None` when
    /// it does not fit in 256 bits.
    pub fn calc_tx_cost(&self) -> (r: Option<U256>)
        ensures
            match r {
                Some(v) => v@ == self.spec_cost(),
                None => self.spec_cost() >= pow2_256(),
            },
    {
        let gas: U256 = self.transaction.gas.saturating_sub(&self.sponsored_gas);
        let storage: u64 = if self.sponsored_storage >= self.transaction.storage_limit {
            0
        } else {
            self.transaction.storage_limit - self.sponsored_storage
        };
        proof {
            assert(DRIPS_PER_STORAGE_COLLATERAL_UNIT as nat * storage as nat
                <= 976_562_500_000_000 * 0xFFFF_FFFF_FFFF_FFFF) by (nonlinear_arith)
                requires
                    DRIPS_PER_STORAGE_COLLATERAL_UNIT == 976_562_500_000_000,
                    storage <= 0xFFFF_FFFF_FFFF_FFFF,
            ;
        }
        let collateral: U256 = U256::from_u128(
            (DRIPS_PER_STORAGE_COLLATERAL_UNIT as u128) * (storage as u128),
        );
        let fee = match self.transaction.gas_price.checked_mul(&gas) {
            Some(fee) => fee,
            None => {
                return None;
            },
        };
        match self.transaction.value.checked_add(&fee) {
            Some(partial) => partial.checked_add(&collateral),
            None => None,
        }
    }
}

/// Why the account-state oracle could not answer.
#[derive(Clone, Debug, PartialEq, Eq)]
pub struct OracleError {
    /// What the oracle reported.
    pub message: String,
}

/// Why the pool refused a transaction.
#[derive(Clone, Debug, PartialEq, Eq)]
pub enum InsertError {
    /// The nonce is too far beyond the sender's nonce in the state.
    TooFarFuture,
    /// The nonce is below the sender's nonce in the state.
    StaleNonce,
    /// The pool is full and nothing could be evicted.
    PoolFull,
    /// The pool holds a transaction of the same sender and nonce that the new
    /// one may not replace; a replacement must offer more than
    /// `min_gas_price`.
    ReplaceUnderpriced { min_gas_price: U256 },
    /// The account-state oracle failed.
    OracleFailure(OracleError),
}

/// How an insertion ended.
#[derive(Clone, Debug, PartialEq, Eq)]
pub enum InsertResult {
    /// The pool held no transaction of that sender and nonce; it holds the
    /// new one now.
    NewAdded,
    /// The pool is unchanged.
    Failed(InsertError),
    /// The new transaction took the place of the one given.
    Updated(TxWithReadyInfo),
}

/// Why a pending transaction is not ready.
#[derive(Clone, Copy, Debug, PartialEq, Eq, Structural)]
pub enum PendingReason {
    /// A nonce between the sender's nonce and the transaction's is missing.
    FutureNonce,
    /// The sender's balance does not cover the transactions up to this one.
    NotEnoughCash,
}

/// The state of a transaction in the pool.
#[derive(Clone, Copy, Debug, PartialEq, Eq, Structural)]
pub enum TransactionStatus {
    /// A block holds it.
    Packed,
    /// It can be executed now.
    Ready,
    /// It waits, for the reason given.
    Pending(PendingReason),
}

/// The verdict on a transaction that is about to be packed.
#[derive(Clone, Copy, Debug, PartialEq, Eq, Structural)]
pub enum PackingCheckResult {
    /// Pack it.
    Pack,
    /// Leave it for a later block.
    Pending,
    /// Never pack it.
    Drop,
}

/// What the state says about the sponsor of a contract.
#[derive(Clone, Copy, Debug, PartialEq, Eq, Structural)]
pub struct SponsorInfo {
    /// The most that the sponsor pays for the gas of one transaction.
    pub sponsor_gas_bound: U256,
    /// What the sponsor has set aside for gas.
    pub sponsor_balance_for_gas: U256,
    /// What the sponsor has set aside for storage collateral.
    pub sponsor_balance_for_collateral: U256,
}

/// The account state that the pool consults. Each query may fail.
pub trait AccountStateOracle {
    /// The nonce and the balance of an account; both zero for an account
    /// that the state does not know.
    fn nonce_and_balance(&self, address: &Address) -> Result<(U256, U256), OracleError>;

    /// The sponsor of a contract, if it has one.
    fn sponsor_info(&self, contract: &Address) -> Result<Option<SponsorInfo>, OracleError>;

    /// Whether the contract's sponsor pays for the user.
    fn commission_privilege(&self, contract: &Address, user: &Address) -> Result<
        bool,
        OracleError,
    >;
}

/// A source of random numbers for the weighted draw.
pub trait RandomSource {
    /// The next random number.
    fn next_u128(&mut self) -> u128;
}

/// The check that a transaction undergoes just before it is packed.
pub trait PackingRecheck {
    /// The verdict on `tx` for a block at the given epoch height and block
    /// number.
    fn recheck(&self, tx: &SignedTransaction, epoch_height: u64, block_number: u64)
        -> PackingCheckResult;
}

} // verus!
