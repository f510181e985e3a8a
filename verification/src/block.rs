//! Block implement of blockchain

use vstd::prelude::*;
use crate::txn::{Transaction, TransactionModel};

verus! {

/// The number of leading zero hex digits that proof of work asks of a block
/// hash.
pub const TARGET_HEXS: usize = 4;

/// What a block holds.
pub struct BlockModel {
    pub timestamp: u128,
    pub transactions: Seq<TransactionModel>,
    pub prev_block_hash: Seq<char>,
    pub hash: Seq<char>,
    pub nonce: i32,
    pub height: i32,
}

/// Block keeps block headers
#[derive(Debug, Clone)]
pub struct Block {
    timestamp: u128,
    /// will calc merkle tree root when mining
    transactions: Vec<Transaction>,
    prev_block_hash: String,
    hash: String,
    nonce: i32,
    height: i32,
}

impl View for Block {
    type V = BlockModel;

    closed spec fn view(&self) -> BlockModel {
        BlockModel {
            timestamp: self.timestamp,
            transactions: self.transactions@.map_values(|t: Transaction| t@),
            prev_block_hash: self.prev_block_hash@,
            hash: self.hash@,
            nonce: self.nonce,
            height: self.height,
        }
    }
}

impl Block {
    /// A block made of the given header fields and transactions, as read back
    /// from storage or received from a peer.
    pub fn from_parts(
        timestamp: u128,
        transactions: Vec<Transaction>,
        prev_block_hash: String,
        hash: String,
        nonce: i32,
        height: i32,
    ) -> (r: Block)
        ensures
            r@ == (BlockModel {
                timestamp,
                transactions: transactions@.map_values(|t: Transaction| t@),
                prev_block_hash: prev_block_hash@,
                hash: hash@,
                nonce,
                height,
            }),
    {
        Block { timestamp, transactions, prev_block_hash, hash, nonce, height }
    }

    /// The hash of this block.
    pub fn get_hash(&self) -> (r: String)
        ensures
            r@ == self@.hash,
    {
        self.hash.clone()
    }

    /// The hash of the block before this one.
    pub fn get_prev_hash(&self) -> (r: String)
        ensures
            r@ == self@.prev_block_hash,
    {
        self.prev_block_hash.clone()
    }

    /// The transactions of this block.
    pub fn get_transaction(&self) -> (r: &Vec<Transaction>)
        ensures
            r@.map_values(|t: Transaction| t@) == self@.transactions,
    {
        &self.transactions
    }

    /// The block's timestamp.
    pub fn get_timestamp(&self) -> (r: u128)
        ensures
            r == self@.timestamp,
    {
        self.timestamp
    }

    /// The nonce that proof of work found.
    pub fn get_nonce(&self) -> (r: i32)
        ensures
            r == self@.nonce,
    {
        self.nonce
    }

    /// The height of the block in the chain.
    pub fn get_height(&self) -> (r: i32)
        ensures
            r == self@.height,
    {
        self.height
    }
}

} // verus!
