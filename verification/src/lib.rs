//! A proof-of-work ledger: block hashing, Merkle roots, mining, difficulty
//! retargeting, wallets derived from BIP-39 phrases, and the bookkeeping of a
//! node's pending pool, all with machine-checked contracts.

pub mod text;
pub mod hexcode;
pub mod digest;
pub mod types;
pub mod clock;
pub mod block_utils;
pub mod crypto;
pub mod chain;
pub mod store;
pub mod api;
