//! The ledger's records: transactions, blocks and wallets.
//!
//! Amounts are floating-point values in the node; the library never computes
//! on them and carries each as its IEEE-754 bit pattern (`f64::to_bits`).

use vstd::prelude::*;

verus! {

/// The kind of a transaction.
#[derive(Debug, Clone, Copy, PartialEq, Eq, Structural)]
pub enum TransactionType {
    Transfer,
}

/// A transfer of an amount of a token from one address to another.
#[derive(Debug)]
pub struct Transaction {
    pub id: String,
    pub from: String,
    pub to: String,
    /// Bit pattern of the amount.
    pub amount_bits: u64,
    /// Bit pattern of the fee.
    pub fee_bits: u64,
    pub timestamp: i64,
    pub signature: String,
    pub tx_type: TransactionType,
    /// The string under the key `tokenId` of the transaction's data, if any.
    pub token_id: Option<String>,
    /// The transaction's data object as JSON text, carried unchanged.
    pub data_json: Option<String>,
}

/// A block of the chain.
#[derive(Debug)]
pub struct Block {
    pub index: u64,
    pub timestamp: i64,
    pub transactions: Vec<Transaction>,
    pub previous_hash: String,
    pub hash: String,
    pub merkle_root: String,
    pub nonce: u64,
    pub extra_nonce: u64,
    pub difficulty: u32,
    pub miner: String,
    /// Bit pattern of the mining reward.
    pub reward_bits: u64,
}

/// A key pair and the address derived from it, all as hex text.
#[derive(Debug)]
pub struct Wallet {
    pub address: String,
    pub public_key: String,
    pub private_key: String,
}

/// A copy of an optional string.
pub fn copy_opt_string(s: &Option<String>) -> (r: Option<String>)
    ensures
        r == *s,
{
    match s {
        Some(t) => Some(t.clone()),
        None => None,
    }
}

impl Clone for Transaction {
    fn clone(&self) -> (r: Self)
        ensures
            r == *self,
    {
        Transaction {
            id: self.id.clone(),
            from: self.from.clone(),
            to: self.to.clone(),
            amount_bits: self.amount_bits,
            fee_bits: self.fee_bits,
            timestamp: self.timestamp,
            signature: self.signature.clone(),
            tx_type: self.tx_type,
            token_id: copy_opt_string(&self.token_id),
            data_json: copy_opt_string(&self.data_json),
        }
    }
}

/// A copy of a sequence of transactions.
pub fn copy_transactions(txs: &[Transaction]) -> (r: Vec<Transaction>)
    ensures
        r@ == txs@,
{
    let mut out: Vec<Transaction> = Vec::new();
    let mut i: usize = 0;
    while i < txs.len()
        invariant
            i <= txs@.len(),
            out@ == txs@.subrange(0, i as int),
        decreases txs@.len() - i,
    {
        out.push(txs[i].clone());
        i = i + 1;
        assert(out@ =~= txs@.subrange(0, i as int));
    }
    assert(txs@.subrange(0, txs@.len() as int) =~= txs@);
    out
}

impl Block {
    /// Whether two blocks agree field by field (transactions as sequences).
    pub open spec fn same_as(self, other: Block) -> bool {
        &&& self.index == other.index
        &&& self.timestamp == other.timestamp
        &&& self.transactions@ == other.transactions@
        &&& self.previous_hash == other.previous_hash
        &&& self.hash == other.hash
        &&& self.merkle_root == other.merkle_root
        &&& self.nonce == other.nonce
        &&& self.extra_nonce == other.extra_nonce
        &&& self.difficulty == other.difficulty
        &&& self.miner == other.miner
        &&& self.reward_bits == other.reward_bits
    }

    /// A copy of the block.
    pub fn duplicate(&self) -> (r: Block)
        ensures
            r.same_as(*self),
    {
        Block {
            index: self.index,
            timestamp: self.timestamp,
            transactions: copy_transactions(self.transactions.as_slice()),
            previous_hash: self.previous_hash.clone(),
            hash: self.hash.clone(),
            merkle_root: self.merkle_root.clone(),
            nonce: self.nonce,
            extra_nonce: self.extra_nonce,
            difficulty: self.difficulty,
            miner: self.miner.clone(),
            reward_bits: self.reward_bits,
        }
    }
}

} // verus!
