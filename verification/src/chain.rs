//! The node's bookkeeping: the pending pool, the mining lock, screening of
//! incoming transactions, assembling the next block, the balance changes a
//! block makes, and the integer part of the chain's statistics.

use vstd::prelude::*;
use crate::types::{Block, Transaction, TransactionType, copy_opt_string};
use crate::block_utils::{
    BlockUtils, is_mined_block, adjusted_difficulty, retarget_in_range, merkle_root_of, INITIAL_DIFFICULTY,
    MIN_BLOCK_INTERVAL_MS, mined_timestamp, timestamp_acceptable, lemma_mined_block_has_valid_hash,
    no_nonce_meets_target, merkle_root_of_ids, ids_of, lemma_merkle_root_by_ids, meets_target,
};
use crate::crypto::CryptoUtils;
use crate::clock::now_millis;
use crate::text::owned;

verus! {

/// The sender name of transactions that create coins.
pub open spec fn system_name() -> Seq<char> {
    seq!['S', 'Y', 'S', 'T', 'E', 'M']
}

/// The token of transactions that name none.
pub open spec fn default_token() -> Seq<char> {
    seq!['R', 'E', 'D', 'I', 'P', 'S']
}

/// The signature carried by reward transactions.
pub open spec fn reward_signature() -> Seq<char> {
    seq!['M', 'I', 'N', 'I', 'N', 'G', '_', 'R', 'E', 'W', 'A', 'R', 'D']
}

/// `"SYSTEM"`.
pub fn system_text() -> (r: String)
    ensures
        r@ == system_name(),
{
    let s = owned("SYSTEM");
    proof {
        reveal_strlit("SYSTEM");
    }
    assert(s@ =~= system_name());
    s
}

/// `"REDIPS"`.
pub fn default_token_text() -> (r: String)
    ensures
        r@ == default_token(),
{
    let s = owned("REDIPS");
    proof {
        reveal_strlit("REDIPS");
    }
    assert(s@ =~= default_token());
    s
}

/// `"MINING_REWARD"`.
pub fn reward_signature_text() -> (r: String)
    ensures
        r@ == reward_signature(),
{
    let s = owned("MINING_REWARD");
    proof {
        reveal_strlit("MINING_REWARD");
    }
    assert(s@ =~= reward_signature());
    s
}

/// The most pending transactions that a block takes from the pool; the
/// reward transaction comes on top of them.
pub const MAX_TRANSACTIONS_PER_BLOCK: usize = 100;
/// Blocks between two halvings of the mining reward.
pub const HALVING_INTERVAL: u64 = 60480;

/// Why the node refuses a request.
#[derive(Debug, Clone, Copy, PartialEq, Eq, Structural)]
pub enum ChainError {
    /// A transaction not sent by the system carries no signature.
    MissingSignature,
    /// Another mining run holds the lock.
    MiningInProgress,
    /// The mined block's timestamp is not acceptable.
    InvalidTimestamp,
    /// The mined block's hash does not check.
    InvalidBlockHash,
    /// No pair of nonces meets the target.
    NonceSpaceExhausted,
    /// The next reward would take the circulating supply past the total
    /// supply.
    SupplyCapReached,
}

/// The token a transaction moves: its `tokenId`, or the default token.
pub open spec fn token_of(t: Transaction) -> Seq<char> {
    match t.token_id {
        Some(s) => s@,
        None => default_token(),
    }
}

/// `t` is the reward transaction of a block mined by `miner`.
pub open spec fn is_reward_transaction(t: Transaction, miner: Seq<char>, reward_bits: u64) -> bool {
    &&& t.from@ == system_name()
    &&& t.to@ == miner
    &&& t.amount_bits == reward_bits
    &&& t.fee_bits == 0
    &&& t.signature@ == reward_signature()
    &&& t.tx_type == TransactionType::Transfer
    &&& t.token_id is None
    &&& t.data_json is None
}

/// How many pending transactions the next block takes.
pub open spec fn block_take_count(pending: Seq<Transaction>) -> int {
    if pending.len() < MAX_TRANSACTIONS_PER_BLOCK {
        pending.len() as int
    } else {
        MAX_TRANSACTIONS_PER_BLOCK as int
    }
}

/// `b` holds the reward transaction first, then `taken`.
pub open spec fn rewards_then(b: Block, taken: Seq<Transaction>, miner: Seq<char>, reward_bits: u64) -> bool {
    &&& b.transactions@.len() == taken.len() + 1
    &&& is_reward_transaction(b.transactions@[0], miner, reward_bits)
    &&& b.transactions@.skip(1) == taken
}

/// Why assembling with these clock readings (`mine_now` for mining,
/// `check_now` for the timestamp check) and this reward id refuses: no pair
/// of nonces meets the target, or the mined timestamp is not acceptable.
pub open spec fn assembly_refused(
    latest: &Block,
    blocks: Seq<Block>,
    miner: Seq<char>,
    taken: Seq<Transaction>,
    reward_id: Seq<char>,
    mine_now: i64,
    check_now: i64,
    e: ChainError,
) -> bool {
    ||| e == ChainError::NonceSpaceExhausted && no_nonce_meets_target(
        (latest.index + 1) as u64,
        mined_timestamp(latest.timestamp, mine_now) as i64,
        merkle_root_of_ids(seq![reward_id] + ids_of(taken)),
        latest.hash@,
        adjusted_difficulty(blocks),
        miner,
    )
    ||| e == ChainError::InvalidTimestamp && !timestamp_acceptable(
        mined_timestamp(latest.timestamp, mine_now) as i64,
        latest.timestamp,
        check_now,
    )
}

/// What assembling the next block at the current time gives: the reward
/// transaction then `taken`, mined on top of `latest` at the retargeted
/// difficulty, at least the minimum interval after it; or a refusal that
/// some reward id and clock readings account for.
pub open spec fn assembled(
    latest: &Block,
    blocks: Seq<Block>,
    miner: Seq<char>,
    reward_bits: u64,
    taken: Seq<Transaction>,
    r: Result<Block, ChainError>,
) -> bool {
    match r {
        Ok(b) => {
            &&& rewards_then(b, taken, miner, reward_bits)
            &&& b.timestamp >= latest.timestamp + MIN_BLOCK_INTERVAL_MS
            &&& is_mined_block(
                b,
                (latest.index + 1) as u64,
                b.transactions@,
                latest.hash@,
                adjusted_difficulty(blocks),
                miner,
                reward_bits,
                b.timestamp as int,
            )
        },
        Err(e) => exists|id: Seq<char>, mine_now: i64, check_now: i64|
            #[trigger] assembly_refused(latest, blocks, miner, taken, id, mine_now, check_now, e),
    }
}

/// What one mining run gives from the pool `before`, leaving `after`:
/// refused at the supply cap with the pool unchanged; otherwise the oldest
/// pending transactions leave the pool and the next block is assembled
/// from them.
pub open spec fn mining_run(
    before: Seq<Transaction>,
    after: Seq<Transaction>,
    latest: &Block,
    blocks: Seq<Block>,
    miner: Seq<char>,
    reward_bits: u64,
    supply_cap_reached: bool,
    r: Result<Block, ChainError>,
) -> bool {
    if supply_cap_reached {
        r == Err::<Block, ChainError>(ChainError::SupplyCapReached) && after == before
    } else {
        &&& after == before.skip(block_take_count(before))
        &&& assembled(latest, blocks, miner, reward_bits, before.take(block_take_count(before)), r)
    }
}

/// The node's pending pool and mining lock.
pub struct Blockchain {
    pending_transactions: Vec<Transaction>,
    mining_in_progress: bool,
}

impl Blockchain {
    /// The pending transactions, oldest first.
    pub closed spec fn pending(&self) -> Seq<Transaction> {
        self.pending_transactions@
    }

    /// Whether a mining run holds the lock.
    pub closed spec fn mining(&self) -> bool {
        self.mining_in_progress
    }

    /// An empty pool, unlocked.
    pub fn new() -> (r: Blockchain)
        ensures
            r.pending() == Seq::<Transaction>::empty(),
            !r.mining(),
    {
        Blockchain { pending_transactions: Vec::new(), mining_in_progress: false }
    }

    /// A copy of the pending transactions.
    pub fn get_pending_transactions(&self) -> (r: Vec<Transaction>)
        ensures
            r@ == self.pending(),
    {
        crate::types::copy_transactions(self.pending_transactions.as_slice())
    }

    /// Appends an accepted transaction to the pool.
    pub fn push_pending(&mut self, tx: Transaction)
        ensures
            final(self).pending() == old(self).pending().push(tx),
            final(self).mining() == old(self).mining(),
    {
        self.pending_transactions.push(tx);
    }

    /// Takes the mining lock: refused while another run holds it.
    pub fn begin_mining(&mut self) -> (r: Result<(), ChainError>)
        ensures
            old(self).mining() ==> r == Err::<(), ChainError>(ChainError::MiningInProgress),
            !old(self).mining() ==> r is Ok,
            final(self).mining(),
            final(self).pending() == old(self).pending(),
    {
        if self.mining_in_progress {
            return Err(ChainError::MiningInProgress);
        }
        self.mining_in_progress = true;
        Ok(())
    }

    /// Whether a mining run holds the lock.
    pub fn is_mining(&self) -> (r: bool)
        ensures
            r == self.mining(),
    {
        self.mining_in_progress
    }

    /// Releases the mining lock.
    pub fn finish_mining(&mut self)
        ensures
            !final(self).mining(),
            final(self).pending() == old(self).pending(),
    {
        self.mining_in_progress = false;
    }

    /// Removes and returns the oldest pending transactions, at most
    /// `MAX_TRANSACTIONS_PER_BLOCK` of them.
    pub fn take_block_transactions(&mut self) -> (r: Vec<Transaction>)
        ensures
            r@ == old(self).pending().take(block_take_count(old(self).pending())),
            final(self).pending() == old(self).pending().skip(block_take_count(old(self).pending())),
            final(self).mining() == old(self).mining(),
    {
        let len = self.pending_transactions.len();
        let count = if len < MAX_TRANSACTIONS_PER_BLOCK { len } else { MAX_TRANSACTIONS_PER_BLOCK };
        let mut taken = self.pending_transactions.split_off(count);
        std::mem::swap(&mut self.pending_transactions, &mut taken);
        taken
    }

    /// The token a transaction moves.
    pub fn token_of(tx: &Transaction) -> (r: String)
        ensures
            r@ == token_of(*tx),
    {
        match &tx.token_id {
            Some(t) => t.clone(),
            None => default_token_text(),
        }
    }

    /// The first checks on an incoming transaction. `Ok(None)`: sent by the
    /// system, nothing more to check. `Err(MissingSignature)`: unsigned.
    /// `Ok(Some(token))`: the sender's balance of `token` must cover the
    /// amount and the fee.
    pub fn screen_transaction(tx: &Transaction) -> (r: Result<Option<String>, ChainError>)
        ensures
            tx.from@ == system_name() ==> r == Ok::<Option<String>, ChainError>(None),
            tx.from@ != system_name() && tx.signature@.len() == 0 ==> r == Err::<Option<String>, ChainError>(
                ChainError::MissingSignature,
            ),
            tx.from@ != system_name() && tx.signature@.len() != 0 ==> (r matches Ok(Some(t)) && t@ == token_of(*tx)),
    {
        if tx.from == system_text() {
            return Ok(None);
        }
        if tx.signature.as_str().is_empty() {
            return Err(ChainError::MissingSignature);
        }
        Ok(Some(Self::token_of(tx)))
    }

    /// The reward transaction for `miner`.
    pub fn reward_transaction(miner: &str, reward_bits: u64, id: String, timestamp: i64) -> (r: Transaction)
        ensures
            is_reward_transaction(r, miner@, reward_bits),
            r.id == id,
            r.timestamp == timestamp,
    {
        Transaction {
            id,
            from: system_text(),
            to: owned(miner),
            amount_bits: reward_bits,
            fee_bits: 0,
            timestamp,
            signature: reward_signature_text(),
            tx_type: TransactionType::Transfer,
            token_id: None,
            data_json: None,
        }
    }

    /// The block mined on top of `latest` at the retargeted difficulty of
    /// `blocks`, holding the reward transaction (with this id and timestamp)
    /// and then `taken`, with the clock read as `mine_now` for mining;
    /// `NonceSpaceExhausted` when no pair of nonces meets the target.
    fn mine_candidate(
        latest: &Block,
        blocks: &[Block],
        miner: &str,
        reward_bits: u64,
        reward_id: String,
        reward_timestamp: i64,
        mine_now: i64,
        taken: Vec<Transaction>,
    ) -> (r: Result<Block, ChainError>)
        requires
            retarget_in_range(blocks@),
            latest.index < u64::MAX,
            latest.timestamp <= i64::MAX - MIN_BLOCK_INTERVAL_MS,
        ensures
            match r {
                Ok(b) => {
                    &&& rewards_then(b, taken@, miner@, reward_bits)
                    &&& b.transactions@[0].id == reward_id
                    &&& b.transactions@[0].timestamp == reward_timestamp
                    &&& is_mined_block(
                        b,
                        (latest.index + 1) as u64,
                        b.transactions@,
                        latest.hash@,
                        adjusted_difficulty(blocks@),
                        miner@,
                        reward_bits,
                        mined_timestamp(latest.timestamp, mine_now),
                    )
                },
                Err(e) => e == ChainError::NonceSpaceExhausted && no_nonce_meets_target(
                    (latest.index + 1) as u64,
                    mined_timestamp(latest.timestamp, mine_now) as i64,
                    merkle_root_of_ids(seq![reward_id@] + ids_of(taken@)),
                    latest.hash@,
                    adjusted_difficulty(blocks@),
                    miner@,
                ),
            },
    {
        let difficulty = BlockUtils::adjust_difficulty(blocks);
        let ghost taken_spec = taken@;
        let ghost rid = reward_id@;
        let mut txs = taken;
        let reward_tx = Self::reward_transaction(miner, reward_bits, reward_id, reward_timestamp);
        txs.insert(0, reward_tx);
        assert(txs@.skip(1) =~= taken_spec);
        let ghost all = txs@;
        let mined = BlockUtils::mine_block_at(
            latest.index + 1,
            txs,
            latest.hash.clone(),
            difficulty,
            owned(miner),
            reward_bits,
            latest.timestamp,
            mine_now,
        );
        match mined {
            Some(b) => {
                assert(b.transactions@ == all);
                Ok(b)
            },
            None => {
                proof {
                    lemma_merkle_root_by_ids(all);
                    assert(ids_of(all) =~= seq![rid] + ids_of(taken_spec));
                }
                Err(ChainError::NonceSpaceExhausted)
            },
        }
    }

    /// The next block, with the clock read as `reward_timestamp` for the
    /// reward transaction, `mine_now` for mining and `check_now` for the
    /// timestamp check. The block holds the reward transaction and then the
    /// `taken` transactions, and is mined on top of `latest` at the
    /// retargeted difficulty of `blocks`.
    pub fn assemble_block_at(
        latest: &Block,
        blocks: &[Block],
        miner: &str,
        reward_bits: u64,
        reward_id: String,
        reward_timestamp: i64,
        mine_now: i64,
        check_now: i64,
        taken: Vec<Transaction>,
    ) -> (r: Result<Block, ChainError>)
        requires
            retarget_in_range(blocks@),
            latest.index < u64::MAX,
            latest.timestamp <= i64::MAX - MIN_BLOCK_INTERVAL_MS,
        ensures
            match r {
                Ok(b) => {
                    &&& rewards_then(b, taken@, miner@, reward_bits)
                    &&& b.transactions@[0].id == reward_id
                    &&& b.transactions@[0].timestamp == reward_timestamp
                    &&& is_mined_block(
                        b,
                        (latest.index + 1) as u64,
                        b.transactions@,
                        latest.hash@,
                        adjusted_difficulty(blocks@),
                        miner@,
                        reward_bits,
                        mined_timestamp(latest.timestamp, mine_now),
                    )
                    &&& timestamp_acceptable(b.timestamp, latest.timestamp, check_now)
                },
                Err(e) => (e == ChainError::NonceSpaceExhausted && no_nonce_meets_target(
                    (latest.index + 1) as u64,
                    mined_timestamp(latest.timestamp, mine_now) as i64,
                    merkle_root_of_ids(seq![reward_id@] + ids_of(taken@)),
                    latest.hash@,
                    adjusted_difficulty(blocks@),
                    miner@,
                )) || (e == ChainError::InvalidTimestamp && !timestamp_acceptable(
                    mined_timestamp(latest.timestamp, mine_now) as i64,
                    latest.timestamp,
                    check_now,
                )),
            },
    {
        let block = match Self::mine_candidate(
            latest,
            blocks,
            miner,
            reward_bits,
            reward_id,
            reward_timestamp,
            mine_now,
            taken,
        ) {
            Ok(b) => b,
            Err(e) => return Err(e),
        };
        if !BlockUtils::is_valid_timestamp_at(&block, latest, check_now) {
            return Err(ChainError::InvalidTimestamp);
        }
        proof {
            lemma_mined_block_has_valid_hash(
                block,
                (latest.index + 1) as u64,
                block.transactions@,
                latest.hash@,
                adjusted_difficulty(blocks@),
                miner@,
                reward_bits,
                mined_timestamp(latest.timestamp, mine_now),
            );
        }
        if !BlockUtils::is_valid_block_hash(&block) {
            return Err(ChainError::InvalidBlockHash);
        }
        Ok(block)
    }

    /// The next block at the current time: `assemble_block_at` with a fresh
    /// reward id and the clock read for the reward transaction, for mining
    /// and for the timestamp check. The block's timestamp is at least the
    /// minimum interval after `latest`; each refusal comes with the condition
    /// `assemble_block_at` gives it for some clock readings.
    pub fn assemble_block(
        latest: &Block,
        blocks: &[Block],
        miner: &str,
        reward_bits: u64,
        taken: Vec<Transaction>,
    ) -> (r: Result<Block, ChainError>)
        requires
            retarget_in_range(blocks@),
            latest.index < u64::MAX,
            latest.timestamp <= i64::MAX - MIN_BLOCK_INTERVAL_MS,
        ensures
            assembled(latest, blocks@, miner@, reward_bits, taken@, r),
    {
        let reward_id = CryptoUtils::generate_id();
        let reward_timestamp = now_millis();
        let mine_now = now_millis();
        let check_now = now_millis();
        let ghost rid = reward_id@;
        let r = Self::assemble_block_at(
            latest,
            blocks,
            miner,
            reward_bits,
            reward_id,
            reward_timestamp,
            mine_now,
            check_now,
            taken,
        );
        proof {
            if r is Err {
                assert(assembly_refused(latest, blocks@, miner@, taken@, rid, mine_now, check_now, r->Err_0));
            }
        }
        r
    }

    /// The run of mining without the lock: refused when the supply cap is
    /// reached, leaving the pool; otherwise the oldest pending transactions
    /// are taken and the next block is assembled at the current time.
    fn mine_block_internal(
        &mut self,
        latest: &Block,
        blocks: &[Block],
        miner: &str,
        reward_bits: u64,
        supply_cap_reached: bool,
    ) -> (r: Result<Block, ChainError>)
        requires
            !supply_cap_reached ==> {
                &&& retarget_in_range(blocks@)
                &&& latest.index < u64::MAX
                &&& latest.timestamp <= i64::MAX - MIN_BLOCK_INTERVAL_MS
            },
        ensures
            mining_run(old(self).pending(), final(self).pending(), latest, blocks@, miner@, reward_bits, supply_cap_reached, r),
            final(self).mining() == old(self).mining(),
    {
        if supply_cap_reached {
            return Err(ChainError::SupplyCapReached);
        }
        let taken = self.take_block_transactions();
        Self::assemble_block(latest, blocks, miner, reward_bits, taken)
    }

    /// One mining run under the mining lock: refused while another run holds
    /// the lock, changing nothing; otherwise the lock is taken, the run gives
    /// what `mine_block_internal` gives, and whatever that is, the lock is
    /// released. The transactions taken are not returned to the pool when
    /// mining fails.
    pub fn mine_block(
        &mut self,
        latest: &Block,
        blocks: &[Block],
        miner: &str,
        reward_bits: u64,
        supply_cap_reached: bool,
    ) -> (r: Result<Block, ChainError>)
        requires
            !old(self).mining() && !supply_cap_reached ==> {
                &&& retarget_in_range(blocks@)
                &&& latest.index < u64::MAX
                &&& latest.timestamp <= i64::MAX - MIN_BLOCK_INTERVAL_MS
            },
        ensures
            old(self).mining() ==> {
                &&& r == Err::<Block, ChainError>(ChainError::MiningInProgress)
                &&& final(self).mining()
                &&& final(self).pending() == old(self).pending()
            },
            !old(self).mining() ==> {
                &&& !final(self).mining()
                &&& mining_run(
                    old(self).pending(),
                    final(self).pending(),
                    latest,
                    blocks@,
                    miner@,
                    reward_bits,
                    supply_cap_reached,
                    r,
                )
            },
    {
        self.begin_mining()?;
        let result = self.mine_block_internal(latest, blocks, miner, reward_bits, supply_cap_reached);
        self.finish_mining();
        result
    }

    /// The genesis block with the clock read as `now`: index 0, no
    /// transactions, previous hash `"0"`, nonces 0, the initial difficulty,
    /// no reward, and the hash of its header.
    pub fn genesis_block_at(master_wallet: &str, now: i64) -> (r: Block)
        ensures
            r.index == 0,
            r.timestamp == now,
            r.transactions@ == Seq::<Transaction>::empty(),
            r.previous_hash@ == seq!['0'],
            r.merkle_root@ == merkle_root_of(Seq::<Transaction>::empty()),
            r.nonce == 0,
            r.extra_nonce == 0,
            r.difficulty == INITIAL_DIFFICULTY,
            r.miner@ == master_wallet@,
            r.reward_bits == 0,
            r.hash@ == r.computed_hash(),
    {
        let transactions: Vec<Transaction> = Vec::new();
        let merkle_root = BlockUtils::calculate_merkle_root(transactions.as_slice());
        let mut previous_hash = String::new();
        previous_hash.push('0');
        let mut block = Block {
            index: 0,
            timestamp: now,
            transactions,
            previous_hash,
            merkle_root,
            hash: String::new(),
            nonce: 0,
            extra_nonce: 0,
            difficulty: INITIAL_DIFFICULTY,
            miner: owned(master_wallet),
            reward_bits: 0,
        };
        block.hash = BlockUtils::calculate_block_hash(&block);
        block
    }

    /// The genesis block at the current time (see `genesis_block_at`).
    pub fn create_genesis_block(master_wallet: &str) -> (r: Block)
        ensures
            r.index == 0,
            r.transactions@ == Seq::<Transaction>::empty(),
            r.previous_hash@ == seq!['0'],
            r.merkle_root@ == merkle_root_of(Seq::<Transaction>::empty()),
            r.nonce == 0,
            r.extra_nonce == 0,
            r.difficulty == INITIAL_DIFFICULTY,
            r.miner@ == master_wallet@,
            r.reward_bits == 0,
            r.hash@ == r.computed_hash(),
    {
        Self::genesis_block_at(master_wallet, now_millis())
    }
}

/// A change to one balance that a block makes.
#[derive(Debug)]
pub enum BalanceUpdate {
    /// The sender pays the amount and the fee of its token.
    Debit { address: String, token_id: String, amount_bits: u64, fee_bits: u64 },
    /// The receiver gets the amount of the token.
    Credit { address: String, token_id: String, amount_bits: u64 },
    /// The master wallet gets the fee, in the default token. Every
    /// transaction not sent by the system has one; the node applies it only
    /// when the fee is positive.
    MasterFee { fee_bits: u64 },
}

/// The plain value of a balance update.
pub enum UpdateView {
    Debit(Seq<char>, Seq<char>, u64, u64),
    Credit(Seq<char>, Seq<char>, u64),
    MasterFee(u64),
}

impl BalanceUpdate {
    pub open spec fn view(self) -> UpdateView {
        match self {
            BalanceUpdate::Debit { address, token_id, amount_bits, fee_bits } => UpdateView::Debit(
                address@,
                token_id@,
                amount_bits,
                fee_bits,
            ),
            BalanceUpdate::Credit { address, token_id, amount_bits } => UpdateView::Credit(
                address@,
                token_id@,
                amount_bits,
            ),
            BalanceUpdate::MasterFee { fee_bits } => UpdateView::MasterFee(fee_bits),
        }
    }
}

/// The plain values of a list of balance updates.
pub open spec fn update_views(v: Seq<BalanceUpdate>) -> Seq<UpdateView> {
    Seq::new(v.len(), |i: int| v[i].view())
}

/// The balance changes of one transaction, in order: unless the system
/// sends it, the sender pays amount and fee; the receiver gets the amount;
/// unless the system sends it, the master wallet gets the fee.
pub open spec fn transaction_updates(t: Transaction) -> Seq<UpdateView> {
    if t.from@ == system_name() {
        seq![UpdateView::Credit(t.to@, token_of(t), t.amount_bits)]
    } else {
        seq![
            UpdateView::Debit(t.from@, token_of(t), t.amount_bits, t.fee_bits),
            UpdateView::Credit(t.to@, token_of(t), t.amount_bits),
            UpdateView::MasterFee(t.fee_bits),
        ]
    }
}

/// The balance changes of a list of transactions, in order.
pub open spec fn block_updates(txs: Seq<Transaction>) -> Seq<UpdateView>
    decreases txs.len(),
{
    if txs.len() == 0 {
        Seq::empty()
    } else {
        block_updates(txs.drop_last()) + transaction_updates(txs.last())
    }
}

/// The number of transactions in a list of blocks.
pub open spec fn transaction_count(blocks: Seq<Block>) -> int
    decreases blocks.len(),
{
    if blocks.len() == 0 {
        0
    } else {
        transaction_count(blocks.drop_last()) + blocks.last().transactions@.len()
    }
}

/// The integer statistics of the chain.
#[derive(Debug, Clone, Copy, PartialEq, Eq, Structural)]
pub struct ChainSummary {
    pub total_blocks: u64,
    pub total_transactions: u64,
    pub genesis_timestamp: i64,
    pub last_block_timestamp: i64,
    pub current_difficulty: u32,
    pub halving_count: u32,
    pub next_halving_block: u64,
}

/// The statistics of a non-empty chain.
pub open spec fn summary_of(blocks: Seq<Block>) -> ChainSummary {
    let halvings = blocks.len() / (HALVING_INTERVAL as nat);
    ChainSummary {
        total_blocks: blocks.len() as u64,
        total_transactions: transaction_count(blocks) as u64,
        genesis_timestamp: blocks[0].timestamp,
        last_block_timestamp: blocks.last().timestamp,
        current_difficulty: blocks.last().difficulty,
        halving_count: halvings as u32,
        next_halving_block: ((halvings + 1) * HALVING_INTERVAL) as u64,
    }
}

/// The balance changes that applying a block makes, in order.
pub fn balance_updates(block: &Block) -> (r: Vec<BalanceUpdate>)
    ensures
        update_views(r@) == block_updates(block.transactions@),
{
    let txs = &block.transactions;
    let mut out: Vec<BalanceUpdate> = Vec::new();
    let mut i: usize = 0;
    while i < txs.len()
        invariant
            i <= txs@.len(),
            update_views(out@) == block_updates(txs@.subrange(0, i as int)),
        decreases txs@.len() - i,
    {
        let t = &txs[i];
        let ghost before = out@;
        let token = Blockchain::token_of(t);
        if t.from == system_text() {
            out.push(BalanceUpdate::Credit { address: t.to.clone(), token_id: token, amount_bits: t.amount_bits });
        } else {
            out.push(BalanceUpdate::Debit {
                address: t.from.clone(),
                token_id: token.clone(),
                amount_bits: t.amount_bits,
                fee_bits: t.fee_bits,
            });
            out.push(BalanceUpdate::Credit { address: t.to.clone(), token_id: token, amount_bits: t.amount_bits });
            out.push(BalanceUpdate::MasterFee { fee_bits: t.fee_bits });
        }
        assert(txs@.subrange(0, i + 1).drop_last() =~= txs@.subrange(0, i as int));
        assert(update_views(out@) =~= update_views(before) + transaction_updates(txs@[i as int]));
        i = i + 1;
    }
    assert(txs@.subrange(0, txs@.len() as int) =~= txs@);
    out
}

/// The statistics of the chain; `None` when it has no block.
pub fn chain_summary(blocks: &[Block]) -> (r: Option<ChainSummary>)
    requires
        transaction_count(blocks@) <= u64::MAX,
        blocks@.len() + HALVING_INTERVAL <= u64::MAX,
    ensures
        blocks@.len() == 0 ==> r is None,
        blocks@.len() > 0 ==> r == Some(summary_of(blocks@)),
        r matches Some(sm) ==> sm.total_transactions == transaction_count(blocks@),
        r matches Some(sm) ==> {
            &&& sm.total_blocks == blocks@.len()
            &&& sm.genesis_timestamp == blocks@[0].timestamp
            &&& sm.last_block_timestamp == blocks@.last().timestamp
            &&& sm.current_difficulty == blocks@.last().difficulty
            &&& sm.halving_count == (blocks@.len() / 60480) as u32
            &&& sm.next_halving_block == (blocks@.len() / 60480 + 1) * 60480
        },
{
    proof {
        lemma_transaction_count_nonnegative(blocks@);
    }
    let n = blocks.len();
    if n == 0 {
        return None;
    }
    let mut total: u64 = 0;
    let mut i: usize = 0;
    while i < n
        invariant
            n == blocks@.len(),
            i <= n,
            total == transaction_count(blocks@.subrange(0, i as int)),
            transaction_count(blocks@) <= u64::MAX,
        decreases n - i,
    {
        assert(blocks@.subrange(0, i + 1).drop_last() =~= blocks@.subrange(0, i as int));
        proof {
            lemma_transaction_count_prefix(blocks@, i + 1);
        }
        total = total + blocks[i].transactions.len() as u64;
        i = i + 1;
    }
    assert(blocks@.subrange(0, n as int) =~= blocks@);
    let halvings: u64 = BlockUtils::halvings(n as u64, HALVING_INTERVAL);
    let last = &blocks[n - 1];
    Some(ChainSummary {
        total_blocks: n as u64,
        total_transactions: total,
        genesis_timestamp: blocks[0].timestamp,
        last_block_timestamp: last.timestamp,
        current_difficulty: last.difficulty,
        halving_count: #[verifier::truncate] (halvings as u32),
        next_halving_block: (halvings + 1) * HALVING_INTERVAL,
    })
}

/// A chain holds a non-negative number of transactions.
pub proof fn lemma_transaction_count_nonnegative(blocks: Seq<Block>)
    ensures
        transaction_count(blocks) >= 0,
    decreases blocks.len(),
{
    if blocks.len() > 0 {
        lemma_transaction_count_nonnegative(blocks.drop_last());
    }
}

/// A prefix of a chain holds no more transactions than the chain.
pub proof fn lemma_transaction_count_prefix(blocks: Seq<Block>, k: int)
    requires
        0 <= k <= blocks.len(),
    ensures
        transaction_count(blocks.subrange(0, k)) <= transaction_count(blocks),
    decreases blocks.len(),
{
    if k < blocks.len() {
        assert(blocks.drop_last().subrange(0, k) =~= blocks.subrange(0, k));
        lemma_transaction_count_prefix(blocks.drop_last(), k);
    } else {
        assert(blocks.subrange(0, k) =~= blocks);
    }
}

/// The transactions a block takes and those left behind make up the pool,
/// in order.
pub proof fn lemma_take_partitions_pool(pending: Seq<Transaction>)
    ensures
        pending.take(block_take_count(pending)) + pending.skip(block_take_count(pending)) == pending,
        pending.take(block_take_count(pending)).len() <= MAX_TRANSACTIONS_PER_BLOCK,
{
    assert(pending.take(block_take_count(pending)) + pending.skip(block_take_count(pending)) =~= pending);
}

/// The next halving always lies ahead of the chain's length.
pub proof fn lemma_next_halving_ahead(blocks: Seq<Block>)
    requires
        blocks.len() > 0,
        blocks.len() + HALVING_INTERVAL <= u64::MAX,
    ensures
        summary_of(blocks).next_halving_block > summary_of(blocks).total_blocks,
        summary_of(blocks).next_halving_block <= summary_of(blocks).total_blocks + HALVING_INTERVAL,
{
    let n = blocks.len() as int;
    let i = HALVING_INTERVAL as int;
    let h = n / i;
    assert(h * i <= n < (h + 1) * i) by (nonlinear_arith)
        requires
            i > 0,
            n >= 0,
            h == n / i,
    ;
}

/// The names the node uses: the system sender `SYSTEM`, the default token
/// `REDIPS` and the reward signature `MINING_REWARD`.
pub proof fn lemma_names()
    ensures
        system_name() == "SYSTEM"@,
        default_token() == "REDIPS"@,
        reward_signature() == "MINING_REWARD"@,
{
    reveal_strlit("SYSTEM");
    reveal_strlit("REDIPS");
    reveal_strlit("MINING_REWARD");
    assert(system_name() =~= "SYSTEM"@);
    assert(default_token() =~= "REDIPS"@);
    assert(reward_signature() =~= "MINING_REWARD"@);
}

/// A transaction moves the token it names, or `REDIPS` when it names none.
pub proof fn lemma_token_of(t: Transaction)
    ensures
        t.token_id matches Some(id) ==> token_of(t) == id@,
        t.token_id is None ==> token_of(t) == "REDIPS"@,
{
    lemma_names();
}

/// `u` is one of the balance changes that transaction `t` makes.
pub open spec fn made_by(t: Transaction, u: UpdateView) -> bool {
    match u {
        UpdateView::Credit(a, tok, x) => a == t.to@ && tok == token_of(t) && x == t.amount_bits,
        UpdateView::Debit(a, tok, x, f) => a == t.from@ && t.from@ != system_name() && tok == token_of(t) && x
            == t.amount_bits && f == t.fee_bits,
        UpdateView::MasterFee(f) => t.from@ != system_name() && f == t.fee_bits,
    }
}

/// The balance changes of a block cover every transaction and nothing else:
/// each receiver is credited the transaction's amount in its token; each
/// sender other than the system is debited the amount and the fee, and the
/// master wallet gets the fee; and every change is one of those that some
/// transaction of the block makes.
pub proof fn lemma_block_updates_cover(txs: Seq<Transaction>)
    ensures
        forall|i: int|
            0 <= i < txs.len() ==> block_updates(txs).contains(
                UpdateView::Credit((#[trigger] txs[i]).to@, token_of(txs[i]), txs[i].amount_bits),
            ),
        forall|i: int|
            0 <= i < txs.len() && (#[trigger] txs[i]).from@ != system_name() ==> block_updates(txs).contains(
                UpdateView::Debit(txs[i].from@, token_of(txs[i]), txs[i].amount_bits, txs[i].fee_bits),
            ) && block_updates(txs).contains(UpdateView::MasterFee(txs[i].fee_bits)),
        forall|p: int|
            0 <= p < block_updates(txs).len() ==> exists|i: int|
                0 <= i < txs.len() && made_by(txs[i], #[trigger] block_updates(txs)[p]),
    decreases txs.len(),
{
    if txs.len() > 0 {
        let pre = txs.drop_last();
        let t = txs.last();
        lemma_block_updates_cover(pre);
        let a = block_updates(pre);
        let b = transaction_updates(t);
        assert(block_updates(txs) == a + b);
        assert forall|i: int| 0 <= i < txs.len() implies block_updates(txs).contains(
            UpdateView::Credit((#[trigger] txs[i]).to@, token_of(txs[i]), txs[i].amount_bits),
        ) by {
            let x = UpdateView::Credit(txs[i].to@, token_of(txs[i]), txs[i].amount_bits);
            if i < pre.len() {
                assert(pre[i] == txs[i]);
                assert(a.contains(x));
                let q = choose|q: int| 0 <= q < a.len() && a[q] == x;
                assert((a + b)[q] == x);
            } else {
                let q: int = if t.from@ == system_name() { 0 } else { 1 };
                assert(b[q] == x);
                assert((a + b)[a.len() + q] == x);
            }
        }
        assert forall|i: int| 0 <= i < txs.len() && (#[trigger] txs[i]).from@ != system_name() implies block_updates(
            txs,
        ).contains(UpdateView::Debit(txs[i].from@, token_of(txs[i]), txs[i].amount_bits, txs[i].fee_bits))
            && block_updates(txs).contains(UpdateView::MasterFee(txs[i].fee_bits)) by {
            let x = UpdateView::Debit(txs[i].from@, token_of(txs[i]), txs[i].amount_bits, txs[i].fee_bits);
            let y = UpdateView::MasterFee(txs[i].fee_bits);
            if i < pre.len() {
                assert(pre[i] == txs[i]);
                assert(a.contains(x) && a.contains(y));
                let q = choose|q: int| 0 <= q < a.len() && a[q] == x;
                let q2 = choose|q2: int| 0 <= q2 < a.len() && a[q2] == y;
                assert((a + b)[q] == x);
                assert((a + b)[q2] == y);
            } else {
                assert(b[0] == x && b[2] == y);
                assert((a + b)[a.len() as int] == x);
                assert((a + b)[a.len() + 2int] == y);
            }
        }
        assert forall|p: int| 0 <= p < block_updates(txs).len() implies exists|i: int|
            0 <= i < txs.len() && made_by(txs[i], #[trigger] block_updates(txs)[p]) by {
            if p < a.len() {
                assert(block_updates(txs)[p] == a[p]);
                let i = choose|i: int| 0 <= i < pre.len() && made_by(pre[i], #[trigger] a[p]);
                assert(txs[i] == pre[i]);
            } else {
                assert(block_updates(txs)[p] == b[p - a.len()]);
                assert(made_by(t, b[p - a.len()]));
                assert(txs[txs.len() - 1] == t);
            }
        }
    }
}

/// The statistics of a chain read its ends: the count of blocks, the first
/// block's timestamp, the last block's timestamp and difficulty, and the
/// halvings passed and the next halving by the count of blocks.
pub proof fn lemma_summary_fields(blocks: Seq<Block>)
    requires
        blocks.len() > 0,
        blocks.len() + 60480 <= u64::MAX,
    ensures
        summary_of(blocks).total_blocks == blocks.len(),
        summary_of(blocks).genesis_timestamp == blocks[0].timestamp,
        summary_of(blocks).last_block_timestamp == blocks[blocks.len() - 1].timestamp,
        summary_of(blocks).current_difficulty == blocks[blocks.len() - 1].difficulty,
        summary_of(blocks).halving_count == (blocks.len() / 60480) as u32,
        blocks.len() / 60480 <= u32::MAX ==> summary_of(blocks).halving_count == blocks.len() / 60480,
        summary_of(blocks).next_halving_block == (blocks.len() / 60480 + 1) * 60480,
{
    assert(blocks.len() / 60480 <= u64::MAX / 60480) by (nonlinear_arith)
        requires
            blocks.len() <= u64::MAX,
    ;
    assert((blocks.len() / 60480 + 1) * 60480 <= blocks.len() + 60480) by (nonlinear_arith);
}

/// The transaction count of a chain is the count of its blocks but the last
/// plus the last block's transactions; none for no block.
pub proof fn lemma_transaction_count_steps(blocks: Seq<Block>, b: Block)
    ensures
        transaction_count(Seq::<Block>::empty()) == 0,
        transaction_count(blocks.push(b)) == transaction_count(blocks) + b.transactions@.len(),
{
    assert(blocks.push(b).drop_last() =~= blocks);
}

/// The reward transaction of a block: from `SYSTEM` to the miner, of the
/// reward, with no fee, signed `MINING_REWARD`, a transfer with no token and
/// no data; a mined block holds it first and then the transactions taken
/// from the pool, at most 100 of them, the oldest first.
pub proof fn lemma_block_layout(t: Transaction, miner: Seq<char>, reward_bits: u64, b: Block, taken: Seq<Transaction>, pending: Seq<Transaction>)
    ensures
        is_reward_transaction(t, miner, reward_bits) <==> (t.from@ == "SYSTEM"@ && t.to@ == miner && t.amount_bits
            == reward_bits && t.fee_bits == 0 && t.signature@ == "MINING_REWARD"@ && t.tx_type == TransactionType::Transfer
            && t.token_id is None && t.data_json is None),
        rewards_then(b, taken, miner, reward_bits) <==> (b.transactions@.len() >= 1 && is_reward_transaction(
            b.transactions@[0],
            miner,
            reward_bits,
        ) && b.transactions@ == seq![b.transactions@[0]] + taken),
        block_take_count(pending) == (if pending.len() < 100 { pending.len() as int } else { 100 }),
{
    lemma_names();
    if b.transactions@.len() >= 1 {
        assert(b.transactions@ == seq![b.transactions@[0]] + taken <==> b.transactions@.skip(1) == taken) by {
            if b.transactions@.skip(1) == taken {
                assert(b.transactions@ =~= seq![b.transactions@[0]] + taken);
            }
            if b.transactions@ == seq![b.transactions@[0]] + taken {
                assert(b.transactions@.skip(1) =~= taken);
            }
        }
    }
}

/// A mining run: at the supply cap it is refused and the pool is left as it
/// was; otherwise the oldest pending transactions, at most 100, leave the
/// pool, and either the next block comes back (index one past the latest,
/// on the latest's hash, the reward transaction first and then the taken
/// transactions, stamped at least 5 000 ms after the latest, its stored hash
/// the hash of its header and meeting its difficulty, that difficulty the
/// retargeted one) or mining is refused for want of a nonce or for its
/// timestamp.
pub proof fn lemma_mining_run_rule(
    before: Seq<Transaction>,
    after: Seq<Transaction>,
    latest: &Block,
    blocks: Seq<Block>,
    miner: Seq<char>,
    reward_bits: u64,
    supply_cap_reached: bool,
    r: Result<Block, ChainError>,
)
    requires
        mining_run(before, after, latest, blocks, miner, reward_bits, supply_cap_reached, r),
    ensures
        supply_cap_reached ==> r == Err::<Block, ChainError>(ChainError::SupplyCapReached) && after == before,
        !supply_cap_reached ==> ({
            let n: int = if before.len() < 100 {
                before.len() as int
            } else {
                100
            };
            &&& after == before.subrange(n, before.len() as int)
            &&& r matches Ok(b) ==> {
                &&& latest.index < u64::MAX ==> b.index == latest.index + 1
                &&& b.previous_hash@ == latest.hash@
                &&& b.transactions@.len() == n + 1
                &&& is_reward_transaction(b.transactions@[0], miner, reward_bits)
                &&& b.transactions@.skip(1) == before.subrange(0, n)
                &&& b.timestamp >= latest.timestamp + 5000
                &&& b.hash@ == b.computed_hash()
                &&& meets_target(b.hash@, b.difficulty)
                &&& b.difficulty == adjusted_difficulty(blocks)
                &&& b.miner@ == miner
            }
            &&& r matches Err(e) ==> e == ChainError::NonceSpaceExhausted || e == ChainError::InvalidTimestamp
        }),
{
    if !supply_cap_reached {
        let n = block_take_count(before);
        assert(before.skip(n) =~= before.subrange(n, before.len() as int));
        assert(before.take(n) =~= before.subrange(0, n));
    }
}

} // verus!
