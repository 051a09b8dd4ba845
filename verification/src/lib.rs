//! An in-memory transaction pool for a blockchain node.
//!
//! The pool keeps the pending transactions of each sender ordered by nonce,
//! tracks which transaction of each sender is ready to be executed given the
//! sender's nonce and balance, evicts transactions when it is full, and
//! selects transactions for a new block by a draw weighted by gas price.

pub mod u256;
pub mod vec_map;
pub mod types;
pub mod nonce_pool;
pub mod map_sum;
pub mod deferred_pool;
pub mod outside;
pub mod ready_pool;
pub mod garbage_collector;
pub mod nonce_lemmas;
pub mod pool;
pub mod pool_lemmas;
pub mod pool_model;
pub mod laws;

pub use crate::deferred_pool::DeferredPool;
pub use crate::garbage_collector::{GarbageCollector, GarbageCollectorNode};
pub use crate::nonce_pool::NoncePool;
pub use crate::pool::TransactionPoolInner;
pub use crate::pool_model::Account;
pub use crate::ready_pool::ReadyAccountPool;
pub use crate::types::{
    AccountStateOracle, Action, Address, InsertError, InsertResult, OracleError,
    PackingCheckResult, PackingRecheck, PendingReason, RandomSource, SignedTransaction,
    SponsorInfo, TransactionStatus, TxWithReadyInfo, H256,
};
pub use crate::u256::U256;
