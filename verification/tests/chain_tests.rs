use redips::block_utils::BlockUtils;
use redips::chain::{balance_updates, chain_summary, BalanceUpdate, Blockchain, ChainError};
use redips::types::{Block, Transaction, TransactionType};

fn tx(id: &str, from: &str, to: &str) -> Transaction {
    Transaction {
        id: id.to_string(),
        from: from.to_string(),
        to: to.to_string(),
        amount_bits: 2.0f64.to_bits(),
        fee_bits: 0.5f64.to_bits(),
        timestamp: 7,
        signature: "sig".to_string(),
        tx_type: TransactionType::Transfer,
        token_id: None,
        data_json: None,
    }
}

fn block(index: u64, timestamp: i64, txs: Vec<Transaction>) -> Block {
    Block {
        index,
        timestamp,
        transactions: txs,
        previous_hash: "0".to_string(),
        hash: "h".to_string(),
        merkle_root: "0".repeat(64),
        nonce: 0,
        extra_nonce: 0,
        difficulty: 20,
        miner: "m".to_string(),
        reward_bits: 0,
    }
}

#[test]
fn system_transactions_need_no_checks() {
    let mut t = tx("1", "SYSTEM", "bob");
    t.signature = String::new();
    assert_eq!(Blockchain::screen_transaction(&t), Ok(None));
}

#[test]
fn unsigned_transactions_are_refused() {
    let mut t = tx("1", "alice", "bob");
    t.signature = String::new();
    assert_eq!(Blockchain::screen_transaction(&t), Err(ChainError::MissingSignature));
}

#[test]
fn signed_transactions_need_a_balance_of_their_token() {
    let mut t = tx("1", "alice", "bob");
    assert_eq!(Blockchain::screen_transaction(&t), Ok(Some("REDIPS".to_string())));
    t.token_id = Some("GOLD".to_string());
    assert_eq!(Blockchain::screen_transaction(&t), Ok(Some("GOLD".to_string())));
    assert_eq!(Blockchain::token_of(&t), "GOLD");
}

#[test]
fn mining_lock_is_exclusive() {
    let mut c = Blockchain::new();
    assert_eq!(c.begin_mining(), Ok(()));
    assert_eq!(c.begin_mining(), Err(ChainError::MiningInProgress));
    c.finish_mining();
    assert_eq!(c.begin_mining(), Ok(()));
}

#[test]
fn pool_keeps_order_and_blocks_take_at_most_100() {
    let mut c = Blockchain::new();
    for i in 0..150 {
        c.push_pending(tx(&i.to_string(), "a", "b"));
    }
    assert_eq!(c.get_pending_transactions().len(), 150);
    let taken = c.take_block_transactions();
    assert_eq!(taken.len(), 100);
    assert_eq!(taken[0].id, "0");
    assert_eq!(taken[99].id, "99");
    let left = c.get_pending_transactions();
    assert_eq!(left.len(), 50);
    assert_eq!(left[0].id, "100");
    let rest = c.take_block_transactions();
    assert_eq!(rest.len(), 50);
    assert!(c.take_block_transactions().is_empty());
}

#[test]
fn reward_transaction_fields() {
    let r = Blockchain::reward_transaction("miner", 1000.0f64.to_bits(), "id1".to_string(), 42);
    assert_eq!(r.from, "SYSTEM");
    assert_eq!(r.to, "miner");
    assert_eq!(f64::from_bits(r.amount_bits), 1000.0);
    assert_eq!(f64::from_bits(r.fee_bits), 0.0);
    assert_eq!(r.signature, "MINING_REWARD");
    assert_eq!(r.timestamp, 42);
    assert!(r.token_id.is_none());
}

#[test]
fn genesis_block_fields() {
    let g = Blockchain::genesis_block_at("master", 123);
    assert_eq!(g.index, 0);
    assert_eq!(g.timestamp, 123);
    assert!(g.transactions.is_empty());
    assert_eq!(g.previous_hash, "0");
    assert_eq!(g.merkle_root, "0".repeat(64));
    assert_eq!(g.difficulty, 20);
    assert_eq!(g.miner, "master");
    assert_eq!(g.hash, BlockUtils::calculate_block_hash(&g));
    let now = Blockchain::create_genesis_block("master");
    assert_eq!(now.hash, BlockUtils::calculate_block_hash(&now));
}

#[test]
fn balance_plan_of_a_block() {
    let mut t = tx("1", "alice", "bob");
    t.token_id = Some("GOLD".to_string());
    let r = tx("0", "SYSTEM", "miner");
    let b = block(1, 0, vec![r, t]);
    let plan = balance_updates(&b);
    assert_eq!(plan.len(), 4);
    match &plan[0] {
        BalanceUpdate::Credit { address, token_id, .. } => {
            assert_eq!(address, "miner");
            assert_eq!(token_id, "REDIPS");
        }
        _ => panic!("expected a credit"),
    }
    match &plan[1] {
        BalanceUpdate::Debit { address, token_id, amount_bits, fee_bits } => {
            assert_eq!(address, "alice");
            assert_eq!(token_id, "GOLD");
            assert_eq!(f64::from_bits(*amount_bits), 2.0);
            assert_eq!(f64::from_bits(*fee_bits), 0.5);
        }
        _ => panic!("expected a debit"),
    }
    match &plan[2] {
        BalanceUpdate::Credit { address, token_id, .. } => {
            assert_eq!(address, "bob");
            assert_eq!(token_id, "GOLD");
        }
        _ => panic!("expected a credit"),
    }
    match &plan[3] {
        BalanceUpdate::MasterFee { fee_bits } => assert_eq!(f64::from_bits(*fee_bits), 0.5),
        _ => panic!("expected the master's fee"),
    }
}

#[test]
fn summary_of_a_chain() {
    assert!(chain_summary(&[]).is_none());
    let blocks = vec![
        block(0, 100, vec![]),
        block(1, 200, vec![tx("a", "x", "y"), tx("b", "x", "y")]),
        block(2, 300, vec![tx("c", "x", "y")]),
    ];
    let s = chain_summary(&blocks).unwrap();
    assert_eq!(s.total_blocks, 3);
    assert_eq!(s.total_transactions, 3);
    assert_eq!(s.genesis_timestamp, 100);
    assert_eq!(s.last_block_timestamp, 300);
    assert_eq!(s.current_difficulty, 20);
    assert_eq!(s.halving_count, 0);
    assert_eq!(s.next_halving_block, 60480);
}

#[test]
fn assembled_block_holds_reward_then_pool() {
    let latest = block(5, 1_000, vec![]);
    let taken = vec![tx("p1", "a", "b"), tx("p2", "c", "d")];
    let b = Blockchain::assemble_block_at(&latest, &[], "miner", 7.0f64.to_bits(), "rid2129".to_string(), 11, 2_000, 2_000, taken)
        .unwrap();
    assert_eq!(b.index, 6);
    assert_eq!(b.previous_hash, "h");
    assert_eq!(b.timestamp, 6_000);
    assert_eq!(b.difficulty, 20);
    assert_eq!(b.transactions.len(), 3);
    assert_eq!(b.transactions[0].id, "rid2129");
    assert_eq!(b.nonce, 166);
    assert_eq!(b.extra_nonce, 0);
    assert_eq!(b.transactions[0].from, "SYSTEM");
    assert_eq!(b.transactions[1].id, "p1");
    assert_eq!(b.transactions[2].id, "p2");
    assert!(BlockUtils::is_valid_block_hash(&b));
}

#[test]
fn assembled_block_from_the_future_is_refused() {
    let latest = block(5, 1_000, vec![]);
    let r = Blockchain::assemble_block_at(&latest, &[], "miner", 0, "rid528".to_string(), 0, 2_000, -200_000, vec![]);
    assert_eq!(r.unwrap_err(), ChainError::InvalidTimestamp);
}

#[test]
fn next_halving_lies_ahead() {
    let chain = |n: u64| (0..n).map(|i| block(i, i as i64, vec![])).collect::<Vec<Block>>();
    let s = chain_summary(&chain(60479)).unwrap();
    assert_eq!((s.halving_count, s.next_halving_block), (0, 60480));
    let s = chain_summary(&chain(60480)).unwrap();
    assert_eq!((s.halving_count, s.next_halving_block), (1, 120960));
    let s = chain_summary(&chain(1)).unwrap();
    assert!(s.next_halving_block > s.total_blocks && s.next_halving_block <= s.total_blocks + 60480);
}

#[test]
fn locked_mining_run_is_refused_and_keeps_the_lock() {
    let mut pool = Blockchain::new();
    pool.push_pending(tx("p1", "a", "b"));
    pool.begin_mining().unwrap();
    let latest = block(5, 1_000, vec![]);
    let r = pool.mine_block(&latest, &[], "miner", 0, false);
    assert_eq!(r.unwrap_err(), ChainError::MiningInProgress);
    assert_eq!(pool.begin_mining(), Err(ChainError::MiningInProgress));
    assert_eq!(pool.get_pending_transactions().len(), 1);
}

#[test]
fn supply_cap_refuses_the_run_and_releases_the_lock() {
    let mut pool = Blockchain::new();
    pool.push_pending(tx("p1", "a", "b"));
    let latest = block(5, 1_000, vec![]);
    let r = pool.mine_block(&latest, &[], "miner", 0, true);
    assert_eq!(r.unwrap_err(), ChainError::SupplyCapReached);
    assert_eq!(pool.get_pending_transactions().len(), 1);
    assert_eq!(pool.begin_mining(), Ok(()));
}

#[test]
fn refusals_need_no_chain_in_range() {
    let mut latest = block(u64::MAX, i64::MAX, vec![]);
    latest.difficulty = u32::MAX;
    let mut pool = Blockchain::new();
    assert_eq!(pool.mine_block(&latest, &[], "miner", 0, true).unwrap_err(), ChainError::SupplyCapReached);
    assert!(!pool.is_mining());
    pool.begin_mining().unwrap();
    assert!(pool.is_mining());
    assert_eq!(pool.mine_block(&latest, &[], "miner", 0, false).unwrap_err(), ChainError::MiningInProgress);
    assert!(pool.is_mining());
}
