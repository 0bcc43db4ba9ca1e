use redips::block_utils::BlockUtils;
use redips::types::{Block, Transaction, TransactionType};
use sha2::{Digest, Sha256};

fn tx(id: &str) -> Transaction {
    Transaction {
        id: id.to_string(),
        from: "alice".to_string(),
        to: "bob".to_string(),
        amount_bits: 1.5f64.to_bits(),
        fee_bits: 0.1f64.to_bits(),
        timestamp: 1,
        signature: "sig".to_string(),
        tx_type: TransactionType::Transfer,
        token_id: None,
        data_json: None,
    }
}

fn block(index: u64, timestamp: i64, difficulty: u32) -> Block {
    Block {
        index,
        timestamp,
        transactions: Vec::new(),
        previous_hash: "0".to_string(),
        hash: String::new(),
        merkle_root: "0".repeat(64),
        nonce: 0,
        extra_nonce: 0,
        difficulty,
        miner: "miner".to_string(),
        reward_bits: 0,
    }
}

fn dsha(data: &[u8]) -> Vec<u8> {
    Sha256::digest(Sha256::digest(data)).to_vec()
}

fn hash_pair(a: &[u8], b: &[u8]) -> Vec<u8> {
    let mut h = Sha256::new();
    h.update(a);
    h.update(b);
    h.finalize().to_vec()
}

#[test]
fn merkle_root_of_no_transactions_is_64_zeros() {
    assert_eq!(BlockUtils::calculate_merkle_root(&[]), "0".repeat(64));
}

#[test]
fn merkle_root_of_one_transaction_is_its_leaf() {
    let root = BlockUtils::calculate_merkle_root(&[tx("abc")]);
    assert_eq!(root, hex::encode(dsha(b"abc")));
}

#[test]
fn merkle_root_of_three_transactions_pads_the_last() {
    let (a, b, c) = (dsha(b"a"), dsha(b"b"), dsha(b"c"));
    let left = hash_pair(&a, &b);
    let right = hash_pair(&c, &c);
    let expected = hex::encode(hash_pair(&left, &right));
    assert_eq!(BlockUtils::calculate_merkle_root(&[tx("a"), tx("b"), tx("c")]), expected);
}

#[test]
fn merkle_root_repeating_last_of_odd_list_is_unchanged() {
    let three = [tx("a"), tx("b"), tx("c")];
    let four = [tx("a"), tx("b"), tx("c"), tx("c")];
    assert_eq!(BlockUtils::calculate_merkle_root(&three), BlockUtils::calculate_merkle_root(&four));
}

#[test]
fn merkle_root_of_single_differs_from_repeated_pair() {
    let one = [tx("a")];
    let two = [tx("a"), tx("a")];
    assert_ne!(BlockUtils::calculate_merkle_root(&one), BlockUtils::calculate_merkle_root(&two));
}

#[test]
fn merkle_root_reads_only_ids() {
    let mut other = tx("x");
    other.amount_bits = 99.0f64.to_bits();
    other.from = "carol".to_string();
    assert_eq!(BlockUtils::calculate_merkle_root(&[tx("x")]), BlockUtils::calculate_merkle_root(&[other]));
}

#[test]
fn hash_pair_hashes_the_concatenation() {
    assert_eq!(BlockUtils::hash_pair(b"ab", b"cd"), Sha256::digest(b"abcd").to_vec());
}

#[test]
fn block_hash_is_double_sha_of_sorted_header_json() {
    let mut b = block(3, 1700000000000, 20);
    b.nonce = 7;
    b.extra_nonce = 2;
    b.previous_hash = "ab\"c".to_string();
    let json = format!(
        "{{\"difficulty\":20,\"extraNonce\":2,\"index\":3,\"merkleRoot\":\"{}\",\"miner\":\"miner\",\"nonce\":7,\"previousHash\":\"ab\\\"c\",\"timestamp\":1700000000000}}",
        "0".repeat(64)
    );
    assert_eq!(BlockUtils::calculate_block_hash(&b), hex::encode(dsha(json.as_bytes())));
}

#[test]
fn block_hash_matches_serde_json_object() {
    let b = block(9, -5, 33);
    let mut m = serde_json::Map::new();
    m.insert("index".to_string(), serde_json::Value::from(9u64));
    m.insert("timestamp".to_string(), serde_json::Value::from(-5i64));
    m.insert("merkleRoot".to_string(), serde_json::Value::from("0".repeat(64)));
    m.insert("previousHash".to_string(), serde_json::Value::from("0"));
    m.insert("nonce".to_string(), serde_json::Value::from(0u64));
    m.insert("extraNonce".to_string(), serde_json::Value::from(0u64));
    m.insert("difficulty".to_string(), serde_json::Value::from(33u32));
    m.insert("miner".to_string(), serde_json::Value::from("miner"));
    let text = serde_json::Value::Object(m).to_string();
    assert_eq!(BlockUtils::calculate_block_hash(&b), hex::encode(dsha(text.as_bytes())));
}

#[test]
fn target_counts_leading_zero_bits() {
    let h = format!("00000f{}", "f".repeat(58));
    assert!(BlockUtils::hash_meets_target(&h, 0));
    assert!(BlockUtils::hash_meets_target(&h, 16));
    assert!(BlockUtils::hash_meets_target(&h, 20));
    assert!(!BlockUtils::hash_meets_target(&h, 21));
    assert!(!BlockUtils::hash_meets_target(&h, 24));
}

#[test]
fn target_accepts_uppercase_hex() {
    let h = format!("0000{}", "F".repeat(60));
    assert!(BlockUtils::hash_meets_target(&h, 16));
    assert!(!BlockUtils::hash_meets_target(&h, 17));
}

#[test]
fn target_refuses_text_that_is_not_a_32_byte_hash() {
    assert!(!BlockUtils::hash_meets_target("zz", 0));
    assert!(!BlockUtils::hash_meets_target("000", 0));
    assert!(!BlockUtils::hash_meets_target(&"0".repeat(62), 0));
    assert!(!BlockUtils::hash_meets_target(&format!("{}g", "0".repeat(63)), 0));
}

#[test]
fn target_above_255_counts_as_255() {
    let zero = "0".repeat(64);
    assert!(BlockUtils::hash_meets_target(&zero, 255));
    assert!(BlockUtils::hash_meets_target(&zero, 1000));
    let last_bit = format!("{}1", "0".repeat(63));
    assert!(BlockUtils::hash_meets_target(&last_bit, 255));
    assert!(BlockUtils::hash_meets_target(&last_bit, u32::MAX));
    let second_last = format!("{}2", "0".repeat(63));
    assert!(!BlockUtils::hash_meets_target(&second_last, 255));
}

#[test]
fn target_is_monotone_in_difficulty() {
    let h = format!("0007{}", "a".repeat(60));
    let mut last = true;
    for d in 0..40u32 {
        let now = BlockUtils::hash_meets_target(&h, d);
        assert!(last || !now);
        last = now;
    }
    assert!(BlockUtils::hash_meets_target(&h, 13));
    assert!(!BlockUtils::hash_meets_target(&h, 14));
}

#[test]
fn mined_block_has_valid_hash_and_interval() {
    let b = BlockUtils::mine_block(1, vec![tx("t1")], "prev".to_string(), 6, "m".to_string(), 5.0f64.to_bits(), 1_000)
        .unwrap();
    assert!(BlockUtils::is_valid_block_hash(&b));
    assert!(b.timestamp >= 6_000);
    assert_eq!(b.index, 1);
    assert_eq!(b.previous_hash, "prev");
    assert_eq!(b.merkle_root, BlockUtils::calculate_merkle_root(&[tx("t1")]));
    assert_eq!(b.reward_bits, 5.0f64.to_bits());
}

#[test]
fn mining_at_a_fixed_time_finds_the_first_nonce() {
    let b = BlockUtils::mine_block_at(2, vec![], "p".to_string(), 8, "m".to_string(), 0, 100, 50).unwrap();
    assert_eq!(b.timestamp, 5_100);
    assert_eq!(b.extra_nonce, 0);
    for n in 0..b.nonce {
        let h = BlockUtils::header_hash(2, 5_100, &"0".repeat(64), "p", n, 0, 8, "m");
        assert!(!BlockUtils::hash_meets_target(&h, 8));
    }
    assert!(BlockUtils::hash_meets_target(&b.hash, 8));
    assert_eq!(b.hash, BlockUtils::calculate_block_hash(&b));
}

#[test]
fn mining_uses_the_clock_when_later() {
    let b = BlockUtils::mine_block_at(2, vec![], "p".to_string(), 0, "m".to_string(), 0, 100, 9_999).unwrap();
    assert_eq!(b.timestamp, 9_999);
    assert_eq!(b.nonce, 0);
}

#[test]
fn tampered_block_fails_hash_check() {
    let mut b = BlockUtils::mine_block_at(4, vec![], "p".to_string(), 4, "m".to_string(), 0, 0, 0).unwrap();
    assert!(BlockUtils::is_valid_block_hash(&b));
    b.miner = "thief".to_string();
    assert!(!BlockUtils::is_valid_block_hash(&b));
}

#[test]
fn timestamp_rules() {
    let prev = block(0, 10_000, 20);
    let ok = block(1, 15_000, 20);
    let early = block(1, 14_999, 20);
    assert!(BlockUtils::is_valid_timestamp_at(&ok, &prev, 20_000));
    assert!(!BlockUtils::is_valid_timestamp_at(&early, &prev, 20_000));
    assert!(BlockUtils::is_valid_timestamp_at(&ok, &prev, 15_000 - 120_000));
    assert!(!BlockUtils::is_valid_timestamp_at(&ok, &prev, 15_000 - 120_001));
    assert!(BlockUtils::is_valid_timestamp_at(&block(1, i64::MAX, 1), &prev, i64::MAX));
}

#[test]
fn timestamp_with_clock() {
    let prev = block(0, 0, 20);
    assert!(BlockUtils::is_valid_timestamp(&block(1, 5_000, 20), &prev));
    assert!(!BlockUtils::is_valid_timestamp(&block(1, 4_000, 20), &prev));
    assert!(!BlockUtils::is_valid_timestamp(&block(1, i64::MAX, 20), &prev));
}

fn window(actual: i64, current: u32, extra: usize) -> Vec<Block> {
    let mut v = Vec::new();
    for i in 0..(144 + extra) {
        v.push(block(i as u64, 1_000, 20));
    }
    let n = v.len();
    v[n - 144].timestamp = 1_000;
    v[n - 1].timestamp = 1_000 + actual;
    v[n - 1].difficulty = current;
    v
}

fn float_adjust(actual: i64, current: u32) -> u32 {
    let time_expected = 30_000i64 * 144;
    let ideal = if actual == 0 {
        current + 4
    } else {
        let ratio = time_expected as f64 / actual as f64;
        let bit_adjust = ratio.log2();
        if bit_adjust >= 0.0 {
            current.saturating_add(bit_adjust as u32)
        } else {
            current.saturating_sub((-bit_adjust) as u32)
        }
    };
    let clamped = if ideal > current { current + (ideal - current).min(4) } else { current - (current - ideal).min(4) };
    clamped.max(20)
}

#[test]
fn short_chain_keeps_initial_difficulty() {
    assert_eq!(BlockUtils::adjust_difficulty(&[]), 20);
    let v: Vec<Block> = (0..143).map(|i| block(i, 0, 50)).collect();
    assert_eq!(BlockUtils::adjust_difficulty(&v), 20);
}

#[test]
fn retarget_examples() {
    assert_eq!(BlockUtils::adjust_difficulty(&window(0, 30, 0)), 34);
    assert_eq!(BlockUtils::adjust_difficulty(&window(540_000, 30, 0)), 33);
    assert_eq!(BlockUtils::adjust_difficulty(&window(4_320_000, 30, 5)), 30);
    assert_eq!(BlockUtils::adjust_difficulty(&window(8_640_000, 30, 0)), 29);
    assert_eq!(BlockUtils::adjust_difficulty(&window(1, 30, 0)), 34);
    assert_eq!(BlockUtils::adjust_difficulty(&window(-10, 30, 0)), 30);
    assert_eq!(BlockUtils::adjust_difficulty(&window(i64::MAX - 1_000, 30, 0)), 26);
    assert_eq!(BlockUtils::adjust_difficulty(&window(i64::MAX - 1_000, 21, 0)), 20);
}

#[test]
fn retarget_agrees_with_floating_point_formula() {
    let samples: [i64; 16] = [
        -5, 1, 2, 1_000, 269_999, 270_000, 270_001, 540_000, 1_080_000, 4_319_999, 4_320_000, 4_320_001,
        8_640_000, 17_280_000, 69_120_000, 1 << 50,
    ];
    for &a in samples.iter() {
        for &c in [0u32, 20, 22, 30, 1000].iter() {
            assert_eq!(BlockUtils::adjust_difficulty(&window(a, c, 0)), float_adjust(a, c), "actual {} current {}", a, c);
        }
    }
}

#[test]
fn retarget_input_check() {
    assert!(BlockUtils::retarget_inputs_in_range(&window(0, 30, 0)));
    assert!(!BlockUtils::retarget_inputs_in_range(&window(0, u32::MAX, 0)));
    let mut v = window(5, 30, 0);
    let n = v.len();
    v[n - 144].timestamp = i64::MIN;
    v[n - 1].timestamp = i64::MAX;
    assert!(!BlockUtils::retarget_inputs_in_range(&v));
}

#[test]
fn floor_log2_values() {
    assert_eq!(redips::block_utils::floor_log2(0), 0);
    assert_eq!(redips::block_utils::floor_log2(1), 0);
    assert_eq!(redips::block_utils::floor_log2(2), 1);
    assert_eq!(redips::block_utils::floor_log2(4_320_000), 22);
    assert_eq!(redips::block_utils::floor_log2(u64::MAX), 63);
}

#[test]
fn halvings_count() {
    assert_eq!(BlockUtils::halvings(0, 60480), 0);
    assert_eq!(BlockUtils::halvings(60479, 60480), 0);
    assert_eq!(BlockUtils::halvings(60480, 60480), 1);
    assert_eq!(BlockUtils::halvings(200_000, 60480), 3);
}

#[test]
fn zero_difficulty_mines_the_first_candidate() {
    let b = BlockUtils::mine_block_at(7, vec![], "abc".to_string(), 0, "m".to_string(), 5.0f64.to_bits(), 4_000_000_000_000, 1_000)
        .unwrap();
    assert_eq!(b.index, 7);
    assert_eq!(b.timestamp, 4_000_000_005_000);
    assert!(b.transactions.is_empty());
    assert_eq!(b.previous_hash, "abc");
    assert_eq!(b.merkle_root, "0".repeat(64));
    assert_eq!((b.nonce, b.extra_nonce), (0, 0));
    assert_eq!(b.difficulty, 0);
    assert_eq!(b.miner, "m");
    assert_eq!(f64::from_bits(b.reward_bits), 5.0);
    assert_eq!(b.hash, BlockUtils::calculate_block_hash(&b));
    let c = BlockUtils::mine_block(7, vec![], "abc".to_string(), 0, "m".to_string(), 5.0f64.to_bits(), 4_000_000_000_000)
        .unwrap();
    assert_eq!((c.nonce, c.extra_nonce, c.timestamp), (0, 0, 4_000_000_005_000));
    assert_eq!(c.hash, b.hash);
}

#[test]
fn hashes_and_roots_are_64_hex_digits() {
    let hex = |s: &str| s.len() == 64 && s.chars().all(|c| c.is_ascii_hexdigit() && !c.is_ascii_uppercase());
    for n in 0..6 {
        let txs: Vec<Transaction> = (0..n).map(|i| tx(&format!("t{}", i))).collect();
        assert!(hex(&BlockUtils::calculate_merkle_root(&txs)));
    }
    let b = block(3, 123, 20);
    assert!(hex(&BlockUtils::calculate_block_hash(&b)));
    assert!(BlockUtils::hash_meets_target(&BlockUtils::calculate_block_hash(&b), 0));
}

#[test]
fn slower_window_never_raises_difficulty() {
    let chain = |span: i64, last_difficulty: u32| {
        let mut blocks: Vec<Block> = (0..144u64).map(|i| block(i, 1_000 + i as i64, 30)).collect();
        blocks[0].timestamp = 1_000;
        blocks[143].timestamp = 1_000 + span;
        blocks[143].difficulty = last_difficulty;
        blocks
    };
    let spans = [1i64, 1_000, 100_000, 1_080_000, 4_320_000, 4_320_001, 8_640_000, 20_000_000, 500_000_000];
    for c in [20u32, 22, 30, 200] {
        for &a in &spans {
            for &b in &spans {
                if a <= b {
                    let fast = BlockUtils::adjust_difficulty(&chain(a, c));
                    let slow = BlockUtils::adjust_difficulty(&chain(b, c));
                    assert!(slow <= fast, "{} {} {}", c, a, b);
                }
            }
        }
    }
}
