//! Bounded mempool: a compacted byte buffer and a fixed-size index that hold
//! pending transactions within a fixed memory budget.
//!
//! - The buffer holds the serialized transactions one directly behind the
//!   other, from offset 0 to [`Mempool::byte_usage`], and zeros behind them.
//! - The index has one [`IndexEntry`] per transaction. An entry stays in its
//!   slot until its transaction leaves.
//!
//! The mempool does not define what transactions look like, how they are hashed
//! or what nodes own. Its operations take what they need as functions: one that
//! gives the canonical hash of serialized bytes, one that parses them, and one
//! that tells balances. Contracts speak of what those functions may return, and
//! hold whatever they do.
//!
//! [`model`] says what a mempool is in mathematical terms and what each
//! operation does to it, [`layout`] how entries lie in the buffer, and [`laws`]
//! what holds of all of it together.

pub mod buffer;
pub mod bytes;
mod compaction;
pub mod crc32;
pub mod eligible;
pub mod index;
pub mod laws;
pub mod layout;
pub mod mempool;
pub mod model;
pub mod priority;
pub mod top_n;
pub mod transaction;

pub use crate::crc32::crc32_ieee;
pub use crate::eligible::EligibleIter;
pub use crate::index::{find_free_slot, IndexEntry};
pub use crate::mempool::{entry_bytes, AddResult, Mempool};
pub use crate::priority::priority_precedes;
pub use crate::top_n::TopNIter;
pub use crate::transaction::{
    is_own_transaction, transaction_expiry_sequence, BlockView, TransactionBody, TransactionInput,
    TransactionOutput, TransactionView, NO_EXPIRY_SEQUENCE,
};
