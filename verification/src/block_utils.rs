//! Block-level rules: Merkle roots, block hashes, the proof-of-work target,
//! mining, timestamp checks and difficulty retargeting.

use vstd::prelude::*;
use vstd::utf8::encode_utf8;
use crate::types::{Block, Transaction};
use crate::digest::{sha256_digest, sha256, concat_bytes};
use crate::hexcode::{hex_lower, hex_decode, hex_encode, hex_decode_text, lemma_hex_roundtrip, lemma_hex_length};
use crate::clock::now_millis;
use crate::text::owned;
use vstd::arithmetic::power2::{pow2, lemma_pow2_unfold, lemma2_to64};
use vstd::arithmetic::div_mod::{lemma_div_is_ordered, lemma_div_is_ordered_by_denominator};

verus! {

/// A JSON scalar value: an unsigned or signed integer, or a string.
pub enum JsonScalar {
    Unsigned(u64),
    Signed(i64),
    Text(String),
}

/// The plain value of a JSON scalar.
pub enum JsonScalarView {
    Unsigned(u64),
    Signed(i64),
    Text(Seq<char>),
}

impl JsonScalar {
    pub open spec fn view(self) -> JsonScalarView {
        match self {
            JsonScalar::Unsigned(n) => JsonScalarView::Unsigned(n),
            JsonScalar::Signed(n) => JsonScalarView::Signed(n),
            JsonScalar::Text(s) => JsonScalarView::Text(s@),
        }
    }
}

/// The plain values of a list of (key, value) entries.
pub open spec fn json_entries(v: Seq<(String, JsonScalar)>) -> Seq<(Seq<char>, JsonScalarView)> {
    Seq::new(v.len(), |i: int| (v[i].0@, v[i].1.view()))
}

/// The compact JSON text that `serde_json` writes for the object holding
/// these (key, value) entries.
pub uninterp spec fn json_object(entries: Seq<(Seq<char>, JsonScalarView)>) -> Seq<char>;

/// `serde_json`: inserts each entry into a `serde_json::Map` (a string as
/// `Value::String`, an integer as `Value::Number`) and writes
/// `Value::Object(map).to_string()`, the compact JSON text. The text is named
/// by `json_object`; what it holds is left to `serde_json`.
#[verifier::external_body]
fn json_object_text(entries: &[(String, JsonScalar)]) -> (r: String)
    ensures
        r@ == json_object(json_entries(entries@)),
{
    let mut m = serde_json::Map::new();
    for (k, v) in entries {
        let value: serde_json::Value = match v {
            JsonScalar::Unsigned(n) => (*n).into(),
            JsonScalar::Signed(n) => (*n).into(),
            JsonScalar::Text(t) => t.as_str().into(),
        };
        m.insert(k.clone(), value);
    }
    serde_json::Value::Object(m).to_string()
}

/// The entries of a block header's JSON object, in the order the hash is
/// defined with: `index`, `timestamp`, `merkleRoot`, `previousHash`,
/// `nonce`, `extraNonce`, `difficulty`, `miner`.
pub open spec fn header_entries(
    index: u64,
    timestamp: i64,
    merkle_root: Seq<char>,
    previous_hash: Seq<char>,
    nonce: u64,
    extra_nonce: u64,
    difficulty: u32,
    miner: Seq<char>,
) -> Seq<(Seq<char>, JsonScalarView)> {
    seq![
        ("index"@, JsonScalarView::Unsigned(index)),
        ("timestamp"@, JsonScalarView::Signed(timestamp)),
        ("merkleRoot"@, JsonScalarView::Text(merkle_root)),
        ("previousHash"@, JsonScalarView::Text(previous_hash)),
        ("nonce"@, JsonScalarView::Unsigned(nonce)),
        ("extraNonce"@, JsonScalarView::Unsigned(extra_nonce)),
        ("difficulty"@, JsonScalarView::Unsigned(difficulty as u64)),
        ("miner"@, JsonScalarView::Text(miner)),
    ]
}

/// The JSON text of a block header.
pub open spec fn header_json(
    index: u64,
    timestamp: i64,
    merkle_root: Seq<char>,
    previous_hash: Seq<char>,
    nonce: u64,
    extra_nonce: u64,
    difficulty: u32,
    miner: Seq<char>,
) -> Seq<char> {
    json_object(header_entries(index, timestamp, merkle_root, previous_hash, nonce, extra_nonce, difficulty, miner))
}

pub const INITIAL_DIFFICULTY: u32 = 20;
pub const BLOCK_TIME_TARGET: i64 = 30_000;
pub const DIFFICULTY_ADJUSTMENT_INTERVAL: u64 = 144;
pub const MIN_BLOCK_INTERVAL_MS: i64 = 5_000;
pub const MAX_DIFFICULTY_CHANGE: u32 = 4;
/// How far ahead of the clock a block's timestamp may be.
pub const MAX_FUTURE_DRIFT_MS: i64 = 120_000;

/// The hex text of the double SHA-256 of a header's JSON text.
pub open spec fn header_hash(
    index: u64,
    timestamp: i64,
    merkle_root: Seq<char>,
    previous_hash: Seq<char>,
    nonce: u64,
    extra_nonce: u64,
    difficulty: u32,
    miner: Seq<char>,
) -> Seq<char> {
    hex_lower(
        sha256_digest(
            sha256_digest(
                encode_utf8(
                    header_json(index, timestamp, merkle_root, previous_hash, nonce, extra_nonce, difficulty, miner),
                ),
            ),
        ),
    )
}

/// The hash of `sha256(a ++ b)` used for inner Merkle nodes.
pub open spec fn pair_hash(a: Seq<u8>, b: Seq<u8>) -> Seq<u8> {
    sha256_digest(a + b)
}

/// The leaf of a transaction id: its double SHA-256.
pub open spec fn leaf_hash(id: Seq<char>) -> Seq<u8> {
    sha256_digest(sha256_digest(encode_utf8(id)))
}

/// A level with an odd number of nodes gets its last node repeated.
pub open spec fn padded_level(level: Seq<Seq<u8>>) -> Seq<Seq<u8>> {
    if level.len() % 2 == 1 {
        level.push(level.last())
    } else {
        level
    }
}

/// The level above: each pair of the padded level hashed together.
pub open spec fn next_level(level: Seq<Seq<u8>>) -> Seq<Seq<u8>> {
    let p = padded_level(level);
    Seq::new(p.len() / 2, |i: int| pair_hash(p[2 * i], p[2 * i + 1]))
}

/// The root of the tree built up from a non-empty level.
pub open spec fn merkle_fold(level: Seq<Seq<u8>>) -> Seq<u8>
    decreases level.len(),
{
    if level.len() <= 1 {
        level[0]
    } else {
        merkle_fold(next_level(level))
    }
}

/// The byte strings held by a list of byte vectors.
pub open spec fn byte_strings(v: Seq<Vec<u8>>) -> Seq<Seq<u8>> {
    Seq::new(v.len(), |i: int| v[i]@)
}

/// The leaves of a list of transactions.
pub open spec fn merkle_leaves(txs: Seq<Transaction>) -> Seq<Seq<u8>> {
    txs.map_values(|t: Transaction| leaf_hash(t.id@))
}

/// The Merkle root of a list of transactions as hex text; 64 zeros when the
/// list is empty.
pub open spec fn merkle_root_of(txs: Seq<Transaction>) -> Seq<char> {
    if txs.len() == 0 {
        Seq::new(64, |i: int| '0')
    } else {
        hex_lower(merkle_fold(merkle_leaves(txs)))
    }
}

/// The ids of a list of transactions.
pub open spec fn ids_of(txs: Seq<Transaction>) -> Seq<Seq<char>> {
    txs.map_values(|t: Transaction| t.id@)
}

/// The Merkle root of transactions with these ids (see `merkle_root_of`).
pub open spec fn merkle_root_of_ids(ids: Seq<Seq<char>>) -> Seq<char> {
    if ids.len() == 0 {
        Seq::new(64, |i: int| '0')
    } else {
        hex_lower(merkle_fold(ids.map_values(|id: Seq<char>| leaf_hash(id))))
    }
}

/// The span of time, in milliseconds, that the retarget window measures:
/// from the block a full window back to the last block.
pub open spec fn window_span(blocks: Seq<Block>) -> int {
    blocks.last().timestamp - blocks[blocks.len() - DIFFICULTY_ADJUSTMENT_INTERVAL].timestamp
}

/// The difficulty counted by the target: at most 255 bits.
pub open spec fn capped_difficulty(difficulty: u32) -> int {
    if difficulty < 255 {
        difficulty as int
    } else {
        255
    }
}

/// A 32-byte hash whose first `min(difficulty, 255)` bits are zero: the
/// whole leading bytes are zero, and the next byte is at most `0xFF >> r`
/// for the `r` remaining bits.
pub open spec fn leading_bits_clear(bytes: Seq<u8>, difficulty: u32) -> bool {
    let d = capped_difficulty(difficulty);
    let full = d / 8;
    let rem = d % 8;
    &&& bytes.len() == 32
    &&& forall|i: int| 0 <= i < full ==> bytes[i] == 0
    &&& rem > 0 ==> bytes[full] <= (0xffu8 >> (rem as u8))
}

/// Whether hex text decodes to a 32-byte hash that meets the target.
pub open spec fn meets_target(hash_hex: Seq<char>, difficulty: u32) -> bool {
    match hex_decode(hash_hex) {
        Some(bytes) => leading_bits_clear(bytes, difficulty),
        None => false,
    }
}

/// `(e1, n1)` comes before `(e2, n2)` in the order in which mining tries
/// them: by extra nonce, then by nonce.
pub open spec fn tried_before(e1: u64, n1: u64, e2: u64, n2: u64) -> bool {
    e1 < e2 || (e1 == e2 && n1 < n2)
}

/// The floor of the binary logarithm, 0 for 0 and 1.
pub open spec fn ilog2(x: nat) -> nat
    decreases x,
{
    if x < 2 {
        0
    } else {
        1 + ilog2(x / 2)
    }
}

/// The difficulty that the measured time `actual` (ms) over the retarget
/// window calls for, before clamping: `current` moved by the whole number
/// of bits in `log2(expected / actual)`, saturating at the ends of `u32`.
pub open spec fn ideal_difficulty(current: u32, actual: int) -> int {
    let expected = BLOCK_TIME_TARGET * DIFFICULTY_ADJUSTMENT_INTERVAL as int;
    if actual == 0 {
        current + MAX_DIFFICULTY_CHANGE
    } else if actual < 0 {
        current as int
    } else if actual <= expected {
        let up = current + ilog2((expected / actual) as nat);
        if up > u32::MAX {
            u32::MAX as int
        } else {
            up
        }
    } else {
        let down = current - ilog2((actual / expected) as nat);
        if down < 0 {
            0
        } else {
            down
        }
    }
}

/// The retargeted difficulty of the next block.
pub open spec fn adjusted_difficulty(blocks: Seq<Block>) -> u32 {
    if blocks.len() < DIFFICULTY_ADJUSTMENT_INTERVAL {
        INITIAL_DIFFICULTY
    } else {
        let last = blocks.last();
        let anchor = blocks[blocks.len() - DIFFICULTY_ADJUSTMENT_INTERVAL];
        let current = last.difficulty;
        let ideal = ideal_difficulty(current, last.timestamp - anchor.timestamp);
        let clamped = if ideal > current {
            current + if ideal - current < MAX_DIFFICULTY_CHANGE {
                ideal - current
            } else {
                MAX_DIFFICULTY_CHANGE as int
            }
        } else {
            current - if current - ideal < MAX_DIFFICULTY_CHANGE {
                current - ideal
            } else {
                MAX_DIFFICULTY_CHANGE as int
            }
        };
        if clamped < INITIAL_DIFFICULTY {
            INITIAL_DIFFICULTY
        } else {
            clamped as u32
        }
    }
}

/// The inputs on which retargeting does not overflow: the window's time
/// span fits in `i64`, and a jump of four bits fits in `u32`.
pub open spec fn retarget_in_range(blocks: Seq<Block>) -> bool {
    blocks.len() >= DIFFICULTY_ADJUSTMENT_INTERVAL ==> {
        let last = blocks.last();
        let anchor = blocks[blocks.len() - DIFFICULTY_ADJUSTMENT_INTERVAL];
        let actual = last.timestamp - anchor.timestamp;
        &&& i64::MIN <= actual <= i64::MAX
        &&& actual == 0 ==> last.difficulty + MAX_DIFFICULTY_CHANGE <= u32::MAX
    }
}

/// The timestamp of a block mined when the clock reads `now`: no earlier
/// than the minimum interval after the previous block.
pub open spec fn mined_timestamp(previous_timestamp: i64, now: i64) -> int {
    if now > previous_timestamp + MIN_BLOCK_INTERVAL_MS {
        now as int
    } else {
        previous_timestamp + MIN_BLOCK_INTERVAL_MS
    }
}

/// No pair of extra nonce and nonce gives these header fields a hash that
/// meets the target.
pub open spec fn no_nonce_meets_target(
    index: u64,
    timestamp: i64,
    merkle_root: Seq<char>,
    previous_hash: Seq<char>,
    difficulty: u32,
    miner: Seq<char>,
) -> bool {
    forall|e: u64, n: u64|
        !#[trigger] meets_target(
            header_hash(index, timestamp, merkle_root, previous_hash, n, e, difficulty, miner),
            difficulty,
        )
}

/// `b` is the block that mining produces from these inputs at this
/// timestamp: its fields are the inputs, its Merkle root is that of the
/// transactions, its hash is the hash of its header and meets the target,
/// and no pair of extra nonce and nonce tried before its own meets it.
pub open spec fn is_mined_block(
    b: Block,
    index: u64,
    transactions: Seq<Transaction>,
    previous_hash: Seq<char>,
    difficulty: u32,
    miner: Seq<char>,
    reward_bits: u64,
    timestamp: int,
) -> bool {
    &&& b.index == index
    &&& b.timestamp == timestamp
    &&& b.transactions@ == transactions
    &&& b.previous_hash@ == previous_hash
    &&& b.merkle_root@ == merkle_root_of(transactions)
    &&& b.difficulty == difficulty
    &&& b.miner@ == miner
    &&& b.reward_bits == reward_bits
    &&& b.hash@ == b.computed_hash()
    &&& meets_target(b.hash@, difficulty)
    &&& forall|e: u64, n: u64|
        tried_before(e, n, b.extra_nonce, b.nonce) ==> !#[trigger] meets_target(
            header_hash(index, b.timestamp, b.merkle_root@, previous_hash, n, e, difficulty, miner),
            difficulty,
        )
}

/// A block whose stored hash is the hash of its header and meets its own
/// difficulty target.
pub open spec fn has_valid_hash(b: Block) -> bool {
    b.hash@ == b.computed_hash() && meets_target(b.hash@, b.difficulty)
}

/// A block's timestamp is acceptable after `previous` when the clock reads
/// `now`: at least the minimum interval after it, and not more than two
/// minutes ahead of the clock.
pub open spec fn timestamp_acceptable(timestamp: i64, previous: i64, now: i64) -> bool {
    timestamp >= previous + MIN_BLOCK_INTERVAL_MS && timestamp <= now + MAX_FUTURE_DRIFT_MS
}

proof fn lemma_ilog2_bound(x: nat, b: nat)
    requires
        x < pow2(b + 1),
    ensures
        ilog2(x) <= b,
    decreases b,
{
    if x >= 2 {
        lemma_pow2_unfold(b + 1);
        if b == 0 {
            lemma2_to64();
        } else {
            lemma_ilog2_bound(x / 2, (b - 1) as nat);
        }
    }
}

/// The floor of the binary logarithm of a machine integer.
pub fn floor_log2(v: u64) -> (r: u32)
    ensures
        r == ilog2(v as nat),
{
    proof {
        lemma2_to64();
        lemma_ilog2_bound(v as nat, 63);
    }
    let mut x: u64 = v;
    let mut k: u32 = 0;
    while x >= 2
        invariant
            k + ilog2(x as nat) == ilog2(v as nat),
            ilog2(v as nat) <= 63,
        decreases x,
    {
        x = x / 2;
        k = k + 1;
    }
    k
}

impl Block {
    /// The hash that this block's header fields call for.
    pub open spec fn computed_hash(self) -> Seq<char> {
        header_hash(
            self.index,
            self.timestamp,
            self.merkle_root@,
            self.previous_hash@,
            self.nonce,
            self.extra_nonce,
            self.difficulty,
            self.miner@,
        )
    }
}

/// Namespace of the block-level rules.
pub struct BlockUtils;

impl BlockUtils {
    /// `sha256(a ++ b)`.
    pub fn hash_pair(a: &[u8], b: &[u8]) -> (r: Vec<u8>)
        ensures
            r@ == pair_hash(a@, b@),
            r@.len() == 32,
    {
        let joined = concat_bytes(a, b);
        sha256(joined.as_slice())
    }

    /// The hex text of the double SHA-256 of the JSON text of a header.
    pub fn header_hash(
        index: u64,
        timestamp: i64,
        merkle_root: &str,
        previous_hash: &str,
        nonce: u64,
        extra_nonce: u64,
        difficulty: u32,
        miner: &str,
    ) -> (r: String)
        ensures
            r@ == header_hash(index, timestamp, merkle_root@, previous_hash@, nonce, extra_nonce, difficulty, miner@),
            r@.len() == 64,
            meets_target(r@, 0),
    {
        let entries: Vec<(String, JsonScalar)> = vec![
            (owned("index"), JsonScalar::Unsigned(index)),
            (owned("timestamp"), JsonScalar::Signed(timestamp)),
            (owned("merkleRoot"), JsonScalar::Text(owned(merkle_root))),
            (owned("previousHash"), JsonScalar::Text(owned(previous_hash))),
            (owned("nonce"), JsonScalar::Unsigned(nonce)),
            (owned("extraNonce"), JsonScalar::Unsigned(extra_nonce)),
            (owned("difficulty"), JsonScalar::Unsigned(difficulty as u64)),
            (owned("miner"), JsonScalar::Text(owned(miner))),
        ];
        assert(json_entries(entries@) =~= header_entries(
            index, timestamp, merkle_root@, previous_hash@, nonce, extra_nonce, difficulty, miner@,
        ));
        let json = json_object_text(entries.as_slice());
        let first = sha256(json.as_str().as_bytes());
        let second = sha256(first.as_slice());
        proof {
            lemma_hex_roundtrip(second@);
            lemma_hex_length(second@);
        }
        hex_encode(second.as_slice())
    }

    /// The block hash computed from the block's header fields.
    pub fn calculate_block_hash(block: &Block) -> (r: String)
        ensures
            r@ == block.computed_hash(),
            r@.len() == 64,
    {
        Self::header_hash(
            block.index,
            block.timestamp,
            block.merkle_root.as_str(),
            block.previous_hash.as_str(),
            block.nonce,
            block.extra_nonce,
            block.difficulty,
            block.miner.as_str(),
        )
    }

    /// The Merkle root of the transactions, as hex text: leaves are the
    /// double SHA-256 of each id; each level repeats its last node when odd
    /// and hashes adjacent pairs; 64 zeros for no transactions.
    pub fn calculate_merkle_root(transactions: &[Transaction]) -> (r: String)
        ensures
            r@ == merkle_root_of(transactions@),
            r@.len() == 64,
    {
        let n = transactions.len();
        if n == 0 {
            let mut zeros = String::new();
            let mut k: usize = 0;
            while k < 64
                invariant
                    k <= 64,
                    zeros@ == Seq::new(k as nat, |i: int| '0'),
                decreases 64 - k,
            {
                zeros.push('0');
                k = k + 1;
                assert(zeros@ =~= Seq::new(k as nat, |i: int| '0'));
            }
            return zeros;
        }
        let ghost leaves = merkle_leaves(transactions@);
        let mut level: Vec<Vec<u8>> = Vec::new();
        let mut i: usize = 0;
        while i < n
            invariant
                n == transactions@.len(),
                i <= n,
                leaves == merkle_leaves(transactions@),
                byte_strings(level@) == leaves.subrange(0, i as int),
                forall|k: int| 0 <= k < level@.len() ==> (#[trigger] level@[k])@.len() == 32,
            decreases n - i,
        {
            let first = sha256(transactions[i].id.as_str().as_bytes());
            let second = sha256(first.as_slice());
            assert(second@ == leaves[i as int]);
            let ghost old_level = level@;
            level.push(second);
            assert(level@ == old_level.push(second));
            assert(byte_strings(old_level).len() == i);
            assert forall|k: int| 0 <= k < i implies #[trigger] byte_strings(level@)[k] == leaves[k] by {
                assert(byte_strings(old_level)[k] == leaves.subrange(0, i as int)[k]);
                assert(byte_strings(old_level)[k] == old_level[k]@);
                assert(level@[k] == old_level[k]);
                assert(byte_strings(level@)[k] == level@[k]@);
            }
            assert(byte_strings(level@)[i as int] == leaves[i as int]);
            i = i + 1;
            assert(byte_strings(level@) =~= leaves.subrange(0, i as int));
        }
        assert(leaves.subrange(0, n as int) =~= leaves);
        while level.len() > 1
            invariant
                level.len() >= 1,
                merkle_fold(byte_strings(level@)) == merkle_fold(leaves),
                forall|k: int| 0 <= k < level@.len() ==> (#[trigger] level@[k])@.len() == 32,
            decreases level.len(),
        {
            let ghost before = byte_strings(level@);
            if level.len() % 2 != 0 {
                let last = vstd::slice::slice_to_vec(level[level.len() - 1].as_slice());
                level.push(last);
            }
            assert(byte_strings(level@) =~= padded_level(before));
            let ghost padded = byte_strings(level@);
            let half = level.len() / 2;
            let mut next: Vec<Vec<u8>> = Vec::new();
            let mut j: usize = 0;
            while j < half
                invariant
                    half == level.len() / 2,
                    padded == byte_strings(level@),
                    j <= half,
                    byte_strings(next@) == next_level(before).subrange(0, j as int),
                    padded == padded_level(before),
                    forall|k: int| 0 <= k < level@.len() ==> (#[trigger] level@[k])@.len() == 32,
                    forall|k: int| 0 <= k < next@.len() ==> (#[trigger] next@[k])@.len() == 32,
                decreases half - j,
            {
                let h = Self::hash_pair(level[2 * j].as_slice(), level[2 * j + 1].as_slice());
                assert(h@ == next_level(before)[j as int]);
                let ghost old_next = next@;
                next.push(h);
                assert(byte_strings(old_next).len() == j);
                assert(next_level(before).len() == half);
                assert forall|k: int| 0 <= k < j implies #[trigger] byte_strings(next@)[k] == next_level(before)[k] by {
                    assert(byte_strings(old_next)[k] == next_level(before).subrange(0, j as int)[k]);
                    assert(byte_strings(old_next)[k] == old_next[k]@);
                    assert(next@[k] == old_next[k]);
                    assert(byte_strings(next@)[k] == next@[k]@);
                }
                assert(byte_strings(next@)[j as int] == next_level(before)[j as int]);
                j = j + 1;
                assert(byte_strings(next@) =~= next_level(before).subrange(0, j as int));
            }
            assert(byte_strings(next@) =~= next_level(before));
            level = next;
        }
        assert(byte_strings(level@) =~= seq![byte_strings(level@)[0]]);
        proof {
            lemma_hex_length(level@[0]@);
        }
        hex_encode(level[0].as_slice())
    }

    /// Whether the hex text is a 32-byte hash meeting the target: its first
    /// `min(difficulty, 255)` bits are zero. Text that is not hex, or not 32
    /// bytes, never meets it.
    pub fn hash_meets_target(hash_hex: &str, difficulty: u32) -> (r: bool)
        ensures
            r == meets_target(hash_hex@, difficulty),
    {
        let bytes = match hex_decode_text(hash_hex) {
            Some(b) => b,
            None => return false,
        };
        if bytes.len() != 32 {
            return false;
        }
        let d: u32 = if difficulty < 255 { difficulty } else { 255 };
        let full: usize = (d / 8) as usize;
        let rem: u8 = (d % 8) as u8;
        let mut i: usize = 0;
        while i < full
            invariant
                full <= 31,
                full as int == capped_difficulty(difficulty) / 8,
                hex_decode(hash_hex@) == Some(bytes@),
                bytes@.len() == 32,
                i <= full,
                forall|k: int| 0 <= k < i ==> bytes@[k] == 0,
            decreases full - i,
        {
            if bytes[i] != 0 {
                assert(!leading_bits_clear(bytes@, difficulty));
                return false;
            }
            i = i + 1;
        }
        if rem > 0 {
            let mask: u8 = 0xffu8 >> rem;
            if bytes[full] > mask {
                return false;
            }
        }
        true
    }

    /// Mining with the clock read as `now`: the block gets the later of
    /// `now` and the minimum interval after the previous block as its
    /// timestamp, and the first pair of extra nonce and nonce, in the order
    /// (0, 0), (0, 1), ..., whose header hash meets the target. `None` when
    /// no pair meets it.
    pub fn mine_block_at(
        index: u64,
        transactions: Vec<Transaction>,
        previous_hash: String,
        difficulty: u32,
        miner_address: String,
        reward_bits: u64,
        previous_timestamp: i64,
        now: i64,
    ) -> (r: Option<Block>)
        requires
            previous_timestamp <= i64::MAX - MIN_BLOCK_INTERVAL_MS,
        ensures
            match r {
                Some(b) => is_mined_block(
                    b,
                    index,
                    transactions@,
                    previous_hash@,
                    difficulty,
                    miner_address@,
                    reward_bits,
                    mined_timestamp(previous_timestamp, now),
                ),
                None => difficulty != 0 && no_nonce_meets_target(
                    index,
                    mined_timestamp(previous_timestamp, now) as i64,
                    merkle_root_of(transactions@),
                    previous_hash@,
                    difficulty,
                    miner_address@,
                ),
            },
            difficulty == 0 ==> (r matches Some(b) && b.nonce == 0 && b.extra_nonce == 0),
    {
        let merkle_root = Self::calculate_merkle_root(transactions.as_slice());
        let earliest: i64 = previous_timestamp + MIN_BLOCK_INTERVAL_MS;
        let timestamp: i64 = if now > earliest { now } else { earliest };
        let mut nonce: u64 = 0;
        let mut extra_nonce: u64 = 0;
        loop
            invariant
                merkle_root@ == merkle_root_of(transactions@),
                timestamp == mined_timestamp(previous_timestamp, now),
                difficulty == 0 ==> nonce == 0 && extra_nonce == 0,
                forall|e: u64, n: u64|
                    tried_before(e, n, extra_nonce, nonce) ==> !#[trigger] meets_target(
                        header_hash(index, timestamp, merkle_root@, previous_hash@, n, e, difficulty, miner_address@),
                        difficulty,
                    ),
            decreases u64::MAX - extra_nonce, u64::MAX - nonce,
        {
            let hash = Self::header_hash(
                index,
                timestamp,
                merkle_root.as_str(),
                previous_hash.as_str(),
                nonce,
                extra_nonce,
                difficulty,
                miner_address.as_str(),
            );
            if Self::hash_meets_target(hash.as_str(), difficulty) {
                return Some(Block {
                    index,
                    timestamp,
                    transactions,
                    previous_hash,
                    hash,
                    merkle_root,
                    nonce,
                    extra_nonce,
                    difficulty,
                    miner: miner_address,
                    reward_bits,
                });
            }
            if nonce == u64::MAX {
                if extra_nonce == u64::MAX {
                    return None;
                }
                nonce = 0;
                extra_nonce = extra_nonce + 1;
            } else {
                nonce = nonce + 1;
            }
        }
    }

    /// Mining at the current time (see `mine_block_at`). The timestamp is at
    /// least the minimum interval after the previous block; `None` when no
    /// pair of nonces meets the target at that timestamp.
    pub fn mine_block(
        index: u64,
        transactions: Vec<Transaction>,
        previous_hash: String,
        difficulty: u32,
        miner_address: String,
        reward_bits: u64,
        previous_timestamp: i64,
    ) -> (r: Option<Block>)
        requires
            previous_timestamp <= i64::MAX - MIN_BLOCK_INTERVAL_MS,
        ensures
            match r {
                Some(b) => b.timestamp >= previous_timestamp + MIN_BLOCK_INTERVAL_MS && is_mined_block(
                    b,
                    index,
                    transactions@,
                    previous_hash@,
                    difficulty,
                    miner_address@,
                    reward_bits,
                    b.timestamp as int,
                ),
                None => difficulty != 0 && exists|t: i64|
                    t >= previous_timestamp + MIN_BLOCK_INTERVAL_MS && #[trigger] no_nonce_meets_target(
                        index,
                        t,
                        merkle_root_of(transactions@),
                        previous_hash@,
                        difficulty,
                        miner_address@,
                    ),
            },
            difficulty == 0 ==> (r matches Some(b) && b.nonce == 0 && b.extra_nonce == 0),
    {
        let now = now_millis();
        let r = Self::mine_block_at(
            index,
            transactions,
            previous_hash,
            difficulty,
            miner_address,
            reward_bits,
            previous_timestamp,
            now,
        );
        proof {
            let t = mined_timestamp(previous_timestamp, now) as i64;
            if r is None {
                assert(no_nonce_meets_target(index, t, merkle_root_of(transactions@), previous_hash@, difficulty, miner_address@));
            }
        }
        r
    }

    /// Whether the block's stored hash is the hash of its header and meets
    /// the block's own difficulty.
    pub fn is_valid_block_hash(block: &Block) -> (r: bool)
        ensures
            r == has_valid_hash(*block),
    {
        let calculated = Self::calculate_block_hash(block);
        calculated == block.hash && Self::hash_meets_target(block.hash.as_str(), block.difficulty)
    }

    /// Whether the block's timestamp is acceptable after the previous block
    /// when the clock reads `now`.
    pub fn is_valid_timestamp_at(block: &Block, previous_block: &Block, now: i64) -> (r: bool)
        ensures
            r == timestamp_acceptable(block.timestamp, previous_block.timestamp, now),
    {
        let ts = block.timestamp as i128;
        let after_min_interval = ts >= previous_block.timestamp as i128 + MIN_BLOCK_INTERVAL_MS as i128;
        let not_from_future = ts <= now as i128 + MAX_FUTURE_DRIFT_MS as i128;
        after_min_interval && not_from_future
    }

    /// Whether the block's timestamp is acceptable after the previous block
    /// at the current time. Whatever the clock reads, a `true` answer means
    /// the block comes at least the minimum interval after the previous one.
    pub fn is_valid_timestamp(block: &Block, previous_block: &Block) -> (r: bool)
        ensures
            r ==> block.timestamp >= previous_block.timestamp + MIN_BLOCK_INTERVAL_MS,
            exists|now: i64| r == #[trigger] timestamp_acceptable(block.timestamp, previous_block.timestamp, now),
    {
        let now = now_millis();
        let r = Self::is_valid_timestamp_at(block, previous_block, now);
        assert(r == timestamp_acceptable(block.timestamp, previous_block.timestamp, now));
        r
    }

    /// The difficulty of the next block. Below a full retarget window of
    /// blocks it is the initial difficulty; otherwise the last difficulty
    /// moves by the whole number of bits in `log2(expected / actual)` for the
    /// window's time span, by at most four, and never below the initial one.
    pub fn adjust_difficulty(blocks: &[Block]) -> (r: u32)
        requires
            retarget_in_range(blocks@),
        ensures
            r == adjusted_difficulty(blocks@),
    {
        let len = blocks.len();
        if len < DIFFICULTY_ADJUSTMENT_INTERVAL as usize {
            return INITIAL_DIFFICULTY;
        }
        let last = &blocks[len - 1];
        let anchor = &blocks[len - DIFFICULTY_ADJUSTMENT_INTERVAL as usize];
        let expected: i64 = BLOCK_TIME_TARGET * DIFFICULTY_ADJUSTMENT_INTERVAL as i64;
        let actual: i64 = last.timestamp - anchor.timestamp;
        let current: u32 = last.difficulty;
        let ideal: u32 = if actual == 0 {
            current + MAX_DIFFICULTY_CHANGE
        } else if actual < 0 {
            current
        } else if actual <= expected {
            let k = floor_log2((expected / actual) as u64);
            current.saturating_add(k)
        } else {
            let k = floor_log2((actual / expected) as u64);
            current.saturating_sub(k)
        };
        let clamped: u32 = if ideal > current {
            let step: u32 = if ideal - current < MAX_DIFFICULTY_CHANGE { ideal - current } else { MAX_DIFFICULTY_CHANGE };
            current + step
        } else {
            let step: u32 = if current - ideal < MAX_DIFFICULTY_CHANGE { current - ideal } else { MAX_DIFFICULTY_CHANGE };
            current - step
        };
        if clamped < INITIAL_DIFFICULTY {
            INITIAL_DIFFICULTY
        } else {
            clamped
        }
    }

    /// Whether retargeting is defined on these blocks (see
    /// `retarget_in_range`).
    pub fn retarget_inputs_in_range(blocks: &[Block]) -> (r: bool)
        ensures
            r == retarget_in_range(blocks@),
    {
        let len = blocks.len();
        if len < DIFFICULTY_ADJUSTMENT_INTERVAL as usize {
            return true;
        }
        let last = &blocks[len - 1];
        let anchor = &blocks[len - DIFFICULTY_ADJUSTMENT_INTERVAL as usize];
        let actual: i128 = last.timestamp as i128 - anchor.timestamp as i128;
        if actual < i64::MIN as i128 || actual > i64::MAX as i128 {
            return false;
        }
        if actual == 0 && last.difficulty > u32::MAX - MAX_DIFFICULTY_CHANGE {
            return false;
        }
        true
    }

    /// The number of halvings of the mining reward by a block index.
    pub fn halvings(block_index: u64, halving_interval: u64) -> (r: u64)
        requires
            halving_interval > 0,
        ensures
            r == block_index / halving_interval,
    {
        block_index / halving_interval
    }
}

/// A block produced by mining passes the block-hash check.
pub proof fn lemma_mined_block_has_valid_hash(
    b: Block,
    index: u64,
    transactions: Seq<Transaction>,
    previous_hash: Seq<char>,
    difficulty: u32,
    miner: Seq<char>,
    reward_bits: u64,
    timestamp: int,
)
    requires
        is_mined_block(b, index, transactions, previous_hash, difficulty, miner, reward_bits, timestamp),
    ensures
        has_valid_hash(b),
{
}

/// A hash that meets a target meets every lower target.
pub proof fn lemma_target_monotone(hash_hex: Seq<char>, difficulty: u32, lower: u32)
    requires
        meets_target(hash_hex, difficulty),
        lower <= difficulty,
    ensures
        meets_target(hash_hex, lower),
{
    let bytes = hex_decode(hash_hex).unwrap();
    let d = capped_difficulty(difficulty);
    let d2 = capped_difficulty(lower);
    let full = d / 8;
    let full2 = d2 / 8;
    let rem = (d % 8) as u8;
    let rem2 = (d2 % 8) as u8;
    assert(full2 <= full);
    if rem2 > 0 {
        let b = bytes[full2];
        if full2 < full {
            assert(b == 0);
            assert(0u8 <= (0xffu8 >> rem2)) by (bit_vector);
        } else {
            assert(rem2 <= rem);
            assert(b <= (0xffu8 >> rem));
            assert(rem2 <= rem && rem < 8 && b <= (0xffu8 >> rem) ==> b <= (0xffu8 >> rem2)) by (bit_vector);
        }
    }
}

/// The hash that a header calls for meets a target exactly when the
/// double SHA-256 of the header's JSON text has that many leading zero bits:
/// the hex text always decodes back to the digest.
pub proof fn lemma_header_hash_target(
    index: u64,
    timestamp: i64,
    merkle_root: Seq<char>,
    previous_hash: Seq<char>,
    nonce: u64,
    extra_nonce: u64,
    difficulty: u32,
    miner: Seq<char>,
    target: u32,
)
    ensures
        meets_target(
            header_hash(index, timestamp, merkle_root, previous_hash, nonce, extra_nonce, difficulty, miner),
            target,
        ) == leading_bits_clear(
            sha256_digest(
                sha256_digest(
                    encode_utf8(
                        header_json(index, timestamp, merkle_root, previous_hash, nonce, extra_nonce, difficulty, miner),
                    ),
                ),
            ),
            target,
        ),
{
    lemma_hex_roundtrip(
        sha256_digest(
            sha256_digest(
                encode_utf8(
                    header_json(index, timestamp, merkle_root, previous_hash, nonce, extra_nonce, difficulty, miner),
                ),
            ),
        ),
    );
}

/// Retargeting never goes below the initial difficulty and moves the last
/// block's difficulty by at most four bits (up to the initial floor).
pub proof fn lemma_difficulty_bounded(blocks: Seq<Block>)
    requires
        blocks.len() >= DIFFICULTY_ADJUSTMENT_INTERVAL,
        retarget_in_range(blocks),
    ensures
        adjusted_difficulty(blocks) >= INITIAL_DIFFICULTY,
        adjusted_difficulty(blocks) <= blocks.last().difficulty + MAX_DIFFICULTY_CHANGE
            || adjusted_difficulty(blocks) == INITIAL_DIFFICULTY,
        adjusted_difficulty(blocks) >= blocks.last().difficulty - MAX_DIFFICULTY_CHANGE,
{
}

/// Below a full retarget window the next difficulty is the initial one.
pub proof fn lemma_short_chain_difficulty(blocks: Seq<Block>)
    requires
        blocks.len() < DIFFICULTY_ADJUSTMENT_INTERVAL,
    ensures
        adjusted_difficulty(blocks) == INITIAL_DIFFICULTY,
{
}

/// The Merkle root of a single transaction is the hex of its leaf.
pub proof fn lemma_merkle_single(t: Transaction)
    ensures
        merkle_root_of(seq![t]) == hex_lower(leaf_hash(t.id@)),
{
    assert(merkle_leaves(seq![t]) =~= seq![leaf_hash(t.id@)]);
}

/// The Merkle root reads nothing of a transaction but its id.
pub proof fn lemma_merkle_root_reads_ids(a: Seq<Transaction>, b: Seq<Transaction>)
    requires
        a.len() == b.len(),
        forall|i: int| 0 <= i < a.len() ==> #[trigger] a[i].id@ == b[i].id@,
    ensures
        merkle_root_of(a) == merkle_root_of(b),
{
    assert(merkle_leaves(a) =~= merkle_leaves(b));
}

/// With an odd number (at least three) of transactions, repeating the last
/// one leaves the Merkle root unchanged: the tree pads odd levels that way.
pub proof fn lemma_merkle_root_repeat_last(txs: Seq<Transaction>)
    requires
        txs.len() % 2 == 1,
        txs.len() >= 3,
    ensures
        merkle_root_of(txs.push(txs.last())) == merkle_root_of(txs),
{
    let l = merkle_leaves(txs);
    let l2 = merkle_leaves(txs.push(txs.last()));
    assert(l2 =~= padded_level(l));
    assert(padded_level(l2) =~= l2);
    assert(next_level(l2) =~= next_level(l));
}

/// The Merkle root of a list of transactions is the root of their ids.
pub proof fn lemma_merkle_root_by_ids(txs: Seq<Transaction>)
    ensures
        merkle_root_of(txs) == merkle_root_of_ids(ids_of(txs)),
{
    assert(merkle_leaves(txs) =~= ids_of(txs).map_values(|id: Seq<char>| leaf_hash(id)));
}

proof fn lemma_ilog2_monotone(x: nat, y: nat)
    requires
        x <= y,
    ensures
        ilog2(x) <= ilog2(y),
    decreases y,
{
    if x >= 2 {
        lemma_div_is_ordered(x as int, y as int, 2);
        lemma_ilog2_monotone(x / 2, y / 2);
    }
}

/// A slower retarget window never gives a higher difficulty: with the same
/// last difficulty, a longer positive time span over the window yields a
/// next difficulty no higher than a shorter one.
pub proof fn lemma_slower_window_lowers_difficulty(fast: Seq<Block>, slow: Seq<Block>)
    requires
        fast.len() >= DIFFICULTY_ADJUSTMENT_INTERVAL,
        slow.len() >= DIFFICULTY_ADJUSTMENT_INTERVAL,
        fast.last().difficulty == slow.last().difficulty,
        0 < window_span(fast) <= window_span(slow),
    ensures
        adjusted_difficulty(slow) <= adjusted_difficulty(fast),
{
    let c = fast.last().difficulty;
    let a1 = window_span(fast);
    let a2 = window_span(slow);
    let e = BLOCK_TIME_TARGET * DIFFICULTY_ADJUSTMENT_INTERVAL as int;
    if a2 <= e {
        lemma_div_is_ordered_by_denominator(e, a1, a2);
        lemma_ilog2_monotone((e / a2) as nat, (e / a1) as nat);
    } else if a1 > e {
        lemma_div_is_ordered(a1, a2, e);
        lemma_ilog2_monotone((a1 / e) as nat, (a2 / e) as nat);
    }
    assert(ideal_difficulty(c, a2) <= ideal_difficulty(c, a1));
}

/// One level of the Merkle tree up: node `i` of the level above is the
/// SHA-256 of node `2i` followed by node `2i + 1`, left child first; when the
/// level is odd its last node is paired with itself; the level above has half
/// as many nodes, rounded up.
pub proof fn lemma_merkle_level(level: Seq<Seq<u8>>)
    ensures
        next_level(level).len() == (level.len() + 1) / 2,
        forall|i: int|
            0 <= i < level.len() / 2 ==> #[trigger] next_level(level)[i] == sha256_digest(level[2 * i] + level[2 * i + 1]),
        level.len() % 2 == 1 ==> next_level(level)[(level.len() / 2) as int] == sha256_digest(level.last() + level.last()),
{
}

/// The Merkle root of transactions: 64 zeros for none; otherwise the hex of
/// the tree built up from the leaves, the double SHA-256 of each id's UTF-8
/// bytes in order, one level at a time until one node is left.
pub proof fn lemma_merkle_root_shape(txs: Seq<Transaction>)
    ensures
        txs.len() == 0 ==> merkle_root_of(txs) == Seq::new(64, |i: int| '0'),
        txs.len() > 0 ==> merkle_root_of(txs) == hex_lower(merkle_fold(merkle_leaves(txs))),
        merkle_leaves(txs).len() == txs.len(),
        forall|i: int|
            0 <= i < txs.len() ==> #[trigger] merkle_leaves(txs)[i] == sha256_digest(
                sha256_digest(encode_utf8(txs[i].id@)),
            ),
{
}

/// Folding a Merkle level: a single node is the root; a wider level folds
/// through the level above it.
pub proof fn lemma_merkle_fold_steps(level: Seq<Seq<u8>>)
    ensures
        level.len() == 1 ==> merkle_fold(level) == level[0],
        level.len() > 1 ==> merkle_fold(level) == merkle_fold(next_level(level)),
{
}

/// A block passes the hash check exactly when its stored hash is the hash of
/// its own header fields and that hash meets the block's own difficulty
/// target: recomputing the hash is not enough.
pub proof fn lemma_valid_hash_needs_target(b: Block)
    ensures
        has_valid_hash(b) <==> (b.hash@ == header_hash(
            b.index,
            b.timestamp,
            b.merkle_root@,
            b.previous_hash@,
            b.nonce,
            b.extra_nonce,
            b.difficulty,
            b.miner@,
        ) && meets_target(b.hash@, b.difficulty)),
        has_valid_hash(b) ==> meets_target(b.hash@, b.difficulty),
{
}

/// Bit `k` (0 the most significant) of a byte.
pub open spec fn bit_of(x: u8, k: int) -> u8 {
    (x >> ((7 - k) as u8)) & 1u8
}

/// The mask of the bits below the first `r` of a byte.
pub open spec fn low_mask(r: int) -> u8 {
    0xffu8 >> (r as u8)
}

proof fn lemma_byte_bits(x: u8)
    ensures
        x == 0 <==> (forall|k: int| 0 <= k < 8 ==> #[trigger] bit_of(x, k) == 0),
        forall|r: int|
            1 <= r < 8 ==> ((x <= #[trigger] low_mask(r)) <==> (forall|k: int| 0 <= k < r ==> #[trigger] bit_of(x, k) == 0)),
{
    assert(bit_of(x, 0) == (x >> 7u8) & 1u8);
    assert(bit_of(x, 1) == (x >> 6u8) & 1u8);
    assert(bit_of(x, 2) == (x >> 5u8) & 1u8);
    assert(bit_of(x, 3) == (x >> 4u8) & 1u8);
    assert(bit_of(x, 4) == (x >> 3u8) & 1u8);
    assert(bit_of(x, 5) == (x >> 2u8) & 1u8);
    assert(bit_of(x, 6) == (x >> 1u8) & 1u8);
    assert(bit_of(x, 7) == (x >> 0u8) & 1u8);
    assert(x == 0 <==> ((x >> 7u8) & 1u8 == 0 && (x >> 6u8) & 1u8 == 0 && (x >> 5u8) & 1u8 == 0 && (x >> 4u8) & 1u8
        == 0 && (x >> 3u8) & 1u8 == 0 && (x >> 2u8) & 1u8 == 0 && (x >> 1u8) & 1u8 == 0 && (x >> 0u8) & 1u8 == 0))
        by (bit_vector);
    assert(x <= (0xffu8 >> 1u8) <==> (x >> 7u8) & 1u8 == 0) by (bit_vector);
    assert(x <= (0xffu8 >> 2u8) <==> ((x >> 7u8) & 1u8 == 0 && (x >> 6u8) & 1u8 == 0)) by (bit_vector);
    assert(x <= (0xffu8 >> 3u8) <==> ((x >> 7u8) & 1u8 == 0 && (x >> 6u8) & 1u8 == 0 && (x >> 5u8) & 1u8 == 0))
        by (bit_vector);
    assert(x <= (0xffu8 >> 4u8) <==> ((x >> 7u8) & 1u8 == 0 && (x >> 6u8) & 1u8 == 0 && (x >> 5u8) & 1u8 == 0 && (x
        >> 4u8) & 1u8 == 0)) by (bit_vector);
    assert(x <= (0xffu8 >> 5u8) <==> ((x >> 7u8) & 1u8 == 0 && (x >> 6u8) & 1u8 == 0 && (x >> 5u8) & 1u8 == 0 && (x
        >> 4u8) & 1u8 == 0 && (x >> 3u8) & 1u8 == 0)) by (bit_vector);
    assert(x <= (0xffu8 >> 6u8) <==> ((x >> 7u8) & 1u8 == 0 && (x >> 6u8) & 1u8 == 0 && (x >> 5u8) & 1u8 == 0 && (x
        >> 4u8) & 1u8 == 0 && (x >> 3u8) & 1u8 == 0 && (x >> 2u8) & 1u8 == 0)) by (bit_vector);
    assert(x <= (0xffu8 >> 7u8) <==> ((x >> 7u8) & 1u8 == 0 && (x >> 6u8) & 1u8 == 0 && (x >> 5u8) & 1u8 == 0 && (x
        >> 4u8) & 1u8 == 0 && (x >> 3u8) & 1u8 == 0 && (x >> 2u8) & 1u8 == 0 && (x >> 1u8) & 1u8 == 0))
        by (bit_vector);
    assert forall|r: int| 1 <= r < 8 implies ((x <= #[trigger] low_mask(r)) <==> (forall|k: int|
        0 <= k < r ==> #[trigger] bit_of(x, k) == 0)) by {
        if (forall|k: int| 0 <= k < r ==> #[trigger] bit_of(x, k) == 0) {
            assert(bit_of(x, 0) == 0);
            if r > 1 { assert(bit_of(x, 1) == 0); }
            if r > 2 { assert(bit_of(x, 2) == 0); }
            if r > 3 { assert(bit_of(x, 3) == 0); }
            if r > 4 { assert(bit_of(x, 4) == 0); }
            if r > 5 { assert(bit_of(x, 5) == 0); }
            if r > 6 { assert(bit_of(x, 6) == 0); }
        }
    }
    if (forall|k: int| 0 <= k < 8 ==> #[trigger] bit_of(x, k) == 0) {
        assert(bit_of(x, 0) == 0 && bit_of(x, 1) == 0 && bit_of(x, 2) == 0 && bit_of(x, 3) == 0);
        assert(bit_of(x, 4) == 0 && bit_of(x, 5) == 0 && bit_of(x, 6) == 0 && bit_of(x, 7) == 0);
    }
}

/// Hex text meets a target exactly when it decodes to 32 bytes whose first
/// `min(difficulty, 255)` bits, counted from the most significant bit of the
/// first byte, are all zero.
pub proof fn lemma_target_bits(hash_hex: Seq<char>, difficulty: u32)
    ensures
        meets_target(hash_hex, difficulty) <==> (hex_decode(hash_hex) matches Some(bytes) && bytes.len() == 32
            && forall|j: int|
            0 <= j < (if difficulty < 255 {
                difficulty as int
            } else {
                255
            }) ==> #[trigger] bit_of(bytes[j / 8], j % 8) == 0),
{
    let dd: int = if difficulty < 255 {
        difficulty as int
    } else {
        255
    };
    if let Some(bytes) = hex_decode(hash_hex) {
        if bytes.len() == 32 {
            let full = dd / 8;
            let rem = dd % 8;
            let all_bits = forall|j: int| 0 <= j < dd ==> #[trigger] bit_of(bytes[j / 8], j % 8) == 0;
            if leading_bits_clear(bytes, difficulty) {
                assert forall|j: int| 0 <= j < dd implies #[trigger] bit_of(bytes[j / 8], j % 8) == 0 by {
                    lemma_byte_bits(bytes[j / 8]);
                    if j / 8 < full {
                        assert(bytes[j / 8] == 0);
                    } else {
                        assert(j / 8 == full);
                        assert(j % 8 < rem);
                        assert(rem > 0);
                        assert(bytes[full] <= (0xffu8 >> (rem as u8)));
                        assert(bytes[full] <= low_mask(rem));
                    }
                }
            }
            if all_bits {
                assert forall|i: int| 0 <= i < full implies bytes[i] == 0 by {
                    lemma_byte_bits(bytes[i]);
                    assert forall|k: int| 0 <= k < 8 implies #[trigger] bit_of(bytes[i], k) == 0 by {
                        let j = 8 * i + k;
                        assert(j / 8 == i && j % 8 == k);
                        assert(bit_of(bytes[j / 8], j % 8) == 0);
                    }
                }
                if rem > 0 {
                    lemma_byte_bits(bytes[full]);
                    assert forall|k: int| 0 <= k < rem implies #[trigger] bit_of(bytes[full], k) == 0 by {
                        let j = 8 * full + k;
                        assert(j / 8 == full && j % 8 == k);
                        assert(bit_of(bytes[j / 8], j % 8) == 0);
                    }
                    assert(bytes[full] <= low_mask(rem));
                }
                assert(leading_bits_clear(bytes, difficulty));
            }
        }
    }
}

/// Retargeting by the measured span of the window (the target is 144 blocks
/// of 30 s, 4 320 000 ms), never below 20: a span within a factor of two of
/// the target, or a negative one, keeps the last difficulty; an empty span or
/// one at least sixteen times shorter raises it by four; one at least sixteen
/// times longer lowers it by four.
pub proof fn lemma_retarget_steps(blocks: Seq<Block>)
    requires
        blocks.len() >= 144,
    ensures
        ({
            let c = blocks[blocks.len() - 1].difficulty as int;
            let a = blocks[blocks.len() - 1].timestamp - blocks[blocks.len() - 144].timestamp;
            let r = adjusted_difficulty(blocks) as int;
            &&& (a < 0 || 2_160_000 < a < 8_640_000) ==> r == (if c < 20 { 20 } else { c })
            &&& (0 <= a <= 270_000 && c + 4 <= u32::MAX) ==> r == (if c + 4 < 20 { 20 } else { c + 4 })
            &&& a >= 69_120_000 ==> r == (if c - 4 < 20 { 20 } else { c - 4 })
        }),
{
    let c = blocks.last().difficulty;
    let a = window_span(blocks);
    let e: int = 4_320_000;
    assert(BLOCK_TIME_TARGET * DIFFICULTY_ADJUSTMENT_INTERVAL as int == e);
    reveal_with_fuel(ilog2, 6);
    assert(ilog2(1) == 0);
    assert(ilog2(16) == 4);
    if 2_160_000 < a <= e {
        assert(e / a == 1) by (nonlinear_arith)
            requires
                2_160_000 < a <= e,
                e == 4_320_000,
        ;
    } else if e <= a < 8_640_000 {
        assert(a / e == 1) by (nonlinear_arith)
            requires
                e <= a < 8_640_000,
                e == 4_320_000,
        ;
    } else if 0 < a <= 270_000 {
        lemma_div_is_ordered_by_denominator(e, a, 270_000);
        lemma_ilog2_monotone(16, (e / a) as nat);
    } else if a >= 69_120_000 {
        lemma_div_is_ordered(69_120_000, a, e);
        lemma_ilog2_monotone(16, (a / e) as nat);
    }
}

/// A mined block carries its inputs, the Merkle root of its transactions,
/// and the hash of its own header, which meets the target; and no pair of
/// extra nonce and nonce before its own, taking extra nonces in order and
/// nonces in order within each, gives its header a hash that meets it.
pub proof fn lemma_mined_block_is_first(
    b: Block,
    index: u64,
    transactions: Seq<Transaction>,
    previous_hash: Seq<char>,
    difficulty: u32,
    miner: Seq<char>,
    reward_bits: u64,
    timestamp: int,
)
    requires
        is_mined_block(b, index, transactions, previous_hash, difficulty, miner, reward_bits, timestamp),
    ensures
        b.index == index && b.timestamp == timestamp && b.transactions@ == transactions && b.previous_hash@
            == previous_hash && b.difficulty == difficulty && b.miner@ == miner && b.reward_bits == reward_bits,
        b.merkle_root@ == merkle_root_of(transactions),
        b.hash@ == header_hash(index, b.timestamp, b.merkle_root@, previous_hash, b.nonce, b.extra_nonce, difficulty, miner),
        meets_target(b.hash@, difficulty),
        forall|e: u64, n: u64|
            (e < b.extra_nonce || (e == b.extra_nonce && n < b.nonce)) ==> !#[trigger] meets_target(
                header_hash(index, b.timestamp, b.merkle_root@, previous_hash, n, e, difficulty, miner),
                difficulty,
            ),
{
}

/// A header's hash is the lowercase hex of the double SHA-256 of the UTF-8
/// bytes of the compact JSON object with the keys `index`, `timestamp`,
/// `merkleRoot`, `previousHash`, `nonce`, `extraNonce`, `difficulty` and
/// `miner` holding the header's fields; an inner Merkle node is the SHA-256
/// of its left child followed by its right child.
pub proof fn lemma_hash_shapes(
    index: u64,
    timestamp: i64,
    merkle_root: Seq<char>,
    previous_hash: Seq<char>,
    nonce: u64,
    extra_nonce: u64,
    difficulty: u32,
    miner: Seq<char>,
    left: Seq<u8>,
    right: Seq<u8>,
)
    ensures
        header_hash(index, timestamp, merkle_root, previous_hash, nonce, extra_nonce, difficulty, miner) == hex_lower(
            sha256_digest(
                sha256_digest(
                    encode_utf8(
                        json_object(
                            seq![
                                ("index"@, JsonScalarView::Unsigned(index)),
                                ("timestamp"@, JsonScalarView::Signed(timestamp)),
                                ("merkleRoot"@, JsonScalarView::Text(merkle_root)),
                                ("previousHash"@, JsonScalarView::Text(previous_hash)),
                                ("nonce"@, JsonScalarView::Unsigned(nonce)),
                                ("extraNonce"@, JsonScalarView::Unsigned(extra_nonce)),
                                ("difficulty"@, JsonScalarView::Unsigned(difficulty as u64)),
                                ("miner"@, JsonScalarView::Text(miner)),
                            ],
                        ),
                    ),
                ),
            ),
        ),
        pair_hash(left, right) == sha256_digest(left + right),
{
}

/// Timestamps: a block is acceptable when it comes at least 5 000 ms after
/// the previous one and at most 120 000 ms ahead of the clock; mining stamps
/// a block with the clock, or with 5 000 ms after the previous block when
/// the clock is earlier than that.
pub proof fn lemma_timestamp_rules(timestamp: i64, previous: i64, now: i64)
    ensures
        timestamp_acceptable(timestamp, previous, now) <==> (previous + 5000 <= timestamp && timestamp <= now + 120_000),
        mined_timestamp(previous, now) >= previous + 5000,
        mined_timestamp(previous, now) >= now,
        mined_timestamp(previous, now) == now || mined_timestamp(previous, now) == previous + 5000,
{
}

} // verus!
