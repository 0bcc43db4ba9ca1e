use std::collections::BTreeMap;
use redips::store::{balance_key, block_key, latest_of, sort_blocks_by_index, transaction_key};
use redips::types::Block;

fn block(index: u64, tag: &str) -> Block {
    Block {
        index,
        timestamp: 0,
        transactions: Vec::new(),
        previous_hash: String::new(),
        hash: tag.to_string(),
        merkle_root: String::new(),
        nonce: 0,
        extra_nonce: 0,
        difficulty: 0,
        miner: String::new(),
        reward_bits: 0,
    }
}

#[test]
fn keys_follow_the_store_layout() {
    assert_eq!(block_key(0), "block:0");
    assert_eq!(block_key(42), "block:42");
    assert_eq!(block_key(u64::MAX), format!("block:{}", u64::MAX));
    assert_eq!(transaction_key("abc"), "tx:abc");
    assert_eq!(balance_key("0xaa", "REDIPS"), "balance:0xaa:REDIPS");
}

#[test]
fn distinct_indices_have_distinct_keys() {
    assert_ne!(block_key(1), block_key(10));
    assert_ne!(block_key(12), block_key(21));
}

#[test]
fn blocks_sort_by_index_stably() {
    let v = vec![block(10, "a"), block(2, "b"), block(10, "c"), block(1, "d"), block(2, "e")];
    let s = sort_blocks_by_index(v);
    let order: Vec<(u64, &str)> = s.iter().map(|b| (b.index, b.hash.as_str())).collect();
    assert_eq!(order, vec![(1, "d"), (2, "b"), (2, "e"), (10, "a"), (10, "c")]);
}

#[test]
fn latest_is_the_last() {
    assert!(latest_of(vec![]).is_none());
    let l = latest_of(sort_blocks_by_index(vec![block(3, "x"), block(9, "y"), block(4, "z")])).unwrap();
    assert_eq!(l.index, 9);
}

#[test]
fn saved_blocks_read_back_one_per_index_in_order() {
    let saves = vec![
        block(2, "a"),
        block(10, "b"),
        block(0, "c"),
        block(2, "d"),
        block(1, "e"),
        block(10, "f"),
        block(9, "g"),
    ];
    let mut store: BTreeMap<String, Block> = BTreeMap::new();
    for b in &saves {
        store.insert(block_key(b.index), b.duplicate());
    }
    store.insert(transaction_key("t1"), block(99, "not a block"));
    let scanned: Vec<Block> = store
        .iter()
        .filter(|(k, _)| k.starts_with("block:"))
        .map(|(_, v)| v.duplicate())
        .collect();
    assert_eq!(scanned.iter().map(|b| b.index).collect::<Vec<_>>(), vec![0, 1, 10, 2, 9]);
    let sorted = sort_blocks_by_index(scanned);
    assert_eq!(sorted.iter().map(|b| b.index).collect::<Vec<_>>(), vec![0, 1, 2, 9, 10]);
    assert_eq!(sorted.iter().map(|b| b.hash.as_str()).collect::<Vec<_>>(), vec!["c", "e", "d", "g", "f"]);
}
