//! A small proof-of-work, UTXO-based blockchain: transactions and blocks,
//! the scan that finds unspent outputs, wallets with Base58 P2PKH
//! addresses, and the message framing and peer bookkeeping of a node.

pub mod config;
pub mod hashing;
pub mod error;
pub mod text;
pub mod chain;
pub mod txn;
pub mod block;
pub mod keyed;
pub mod utxo;
pub mod wallet;
pub mod framing;
pub mod server;
pub mod cli;
