//! A small proof-of-work blockchain: mined blocks, a transaction model with
//! unspent-output bookkeeping over a chain, and a wallet store.

pub mod error;
pub mod table;
pub mod hashing;
pub mod block;
pub mod transaction;
pub mod blockchain;
pub mod wallet;
pub mod cli;
