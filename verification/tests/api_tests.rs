use redips::api::{paginate_blocks, parse_usize, transactions_for_address, usize_param_or, ApiResponse};
use redips::types::{Block, Transaction, TransactionType};

fn tx(id: &str, from: &str, to: &str) -> Transaction {
    Transaction {
        id: id.to_string(),
        from: from.to_string(),
        to: to.to_string(),
        amount_bits: 0,
        fee_bits: 0,
        timestamp: 0,
        signature: String::new(),
        tx_type: TransactionType::Transfer,
        token_id: None,
        data_json: None,
    }
}

fn block(index: u64, txs: Vec<Transaction>) -> Block {
    Block {
        index,
        timestamp: 0,
        transactions: txs,
        previous_hash: String::new(),
        hash: String::new(),
        merkle_root: String::new(),
        nonce: 0,
        extra_nonce: 0,
        difficulty: 0,
        miner: String::new(),
        reward_bits: 0,
    }
}

#[test]
fn envelopes() {
    let ok = ApiResponse::ok(5u32);
    assert!(ok.success);
    assert_eq!(ok.data, Some(5));
    assert!(ok.error.is_none());
    let err: ApiResponse<u32> = ApiResponse::err("Block not found".to_string());
    assert!(!err.success);
    assert!(err.data.is_none());
    assert_eq!(err.error.as_deref(), Some("Block not found"));
}

#[test]
fn history_is_newest_first() {
    let blocks = vec![
        block(0, vec![tx("1", "a", "b"), tx("2", "c", "d")]),
        block(1, vec![tx("3", "b", "a"), tx("4", "a", "a")]),
        block(2, vec![tx("5", "x", "y")]),
    ];
    let ids: Vec<String> = transactions_for_address(&blocks, "a").into_iter().map(|t| t.id).collect();
    assert_eq!(ids, vec!["4", "3", "1"]);
    assert!(transactions_for_address(&blocks, "nobody").is_empty());
}

#[test]
fn pages_of_blocks() {
    let blocks: Vec<Block> = (0..5).map(|i| block(i, vec![])).collect();
    let idx = |v: Vec<Block>| v.into_iter().map(|b| b.index).collect::<Vec<u64>>();
    let all = || (0..5).map(|i| block(i, vec![])).collect::<Vec<Block>>();
    assert_eq!(idx(paginate_blocks(blocks, 0, 10)), vec![4, 3, 2, 1, 0]);
    assert_eq!(idx(paginate_blocks(all(), 1, 2)), vec![3, 2]);
    assert_eq!(idx(paginate_blocks(all(), 4, 2)), vec![0]);
    assert_eq!(idx(paginate_blocks(all(), 9, 2)), Vec::<u64>::new());
    assert_eq!(idx(paginate_blocks(all(), 0, 0)), Vec::<u64>::new());
    assert_eq!(idx(paginate_blocks(all(), usize::MAX, usize::MAX)), Vec::<u64>::new());
    assert_eq!(idx(paginate_blocks(all(), 2, usize::MAX)), vec![2, 1, 0]);
}

#[test]
fn numbers_in_queries() {
    assert_eq!(parse_usize("10"), Some(10));
    assert_eq!(parse_usize("+7"), Some(7));
    assert_eq!(parse_usize("007"), Some(7));
    assert_eq!(parse_usize(""), None);
    assert_eq!(parse_usize("+"), None);
    assert_eq!(parse_usize("-1"), None);
    assert_eq!(parse_usize("1a"), None);
    assert_eq!(parse_usize(" 1"), None);
    assert_eq!(parse_usize(&usize::MAX.to_string()), Some(usize::MAX));
    assert_eq!(parse_usize("99999999999999999999999"), None);
    for s in ["0", "12", "+3", "x", "", "18446744073709551616", "4294967296"] {
        assert_eq!(parse_usize(s), s.parse::<usize>().ok(), "{}", s);
    }
    assert_eq!(usize_param_or(Some("3"), 10), 3);
    assert_eq!(usize_param_or(Some("three"), 10), 10);
    assert_eq!(usize_param_or(None, 10), 10);
}

#[test]
fn history_entries_involve_the_address() {
    let blocks = vec![
        block(0, vec![tx("1", "a", "b"), tx("2", "c", "d"), tx("3", "d", "a")]),
        block(1, vec![tx("4", "e", "f"), tx("5", "a", "e")]),
    ];
    let history = transactions_for_address(&blocks, "a");
    assert_eq!(history.len(), 3);
    for t in &history {
        assert!(t.from == "a" || t.to == "a");
    }
}

#[test]
fn consecutive_pages_tile_the_listing() {
    let all = || (0..7).map(|i| block(i, vec![])).collect::<Vec<Block>>();
    let idx = |v: Vec<Block>| v.into_iter().map(|b| b.index).collect::<Vec<u64>>();
    for offset in 0..9usize {
        for a in 0..5usize {
            for b in 0..5usize {
                let mut joined = idx(paginate_blocks(all(), offset, a));
                assert!(joined.len() <= a);
                joined.extend(idx(paginate_blocks(all(), offset + a, b)));
                assert_eq!(joined, idx(paginate_blocks(all(), offset, a + b)));
            }
        }
    }
}

#[test]
fn decimal_text_reads_back() {
    for n in [0usize, 1, 9, 10, 99, 100, 12345, 4294967295, usize::MAX] {
        assert_eq!(parse_usize(&n.to_string()), Some(n));
        assert_eq!(usize_param_or(Some(&n.to_string()), 3), n);
    }
}
