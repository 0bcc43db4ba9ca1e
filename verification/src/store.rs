//! The layout of the node's key-value store: the keys under which blocks,
//! transactions and balances are kept, and the order in which stored blocks
//! are read back.

use vstd::prelude::*;
use crate::types::Block;
use crate::text::{decimal, push_decimal, push_text, lemma_decimal_injective};

verus! {

/// `"block:"`.
pub open spec fn block_prefix() -> Seq<char> {
    seq!['b', 'l', 'o', 'c', 'k', ':']
}

/// `"tx:"`.
pub open spec fn transaction_prefix() -> Seq<char> {
    seq!['t', 'x', ':']
}

/// `"balance:"`.
pub open spec fn balance_prefix() -> Seq<char> {
    seq!['b', 'a', 'l', 'a', 'n', 'c', 'e', ':']
}

/// A key that starts with the block prefix.
pub open spec fn has_block_prefix(key: Seq<char>) -> bool {
    key.len() >= 6 && key.take(6) == block_prefix()
}

/// The key of the block with this index.
pub open spec fn block_key_of(index: u64) -> Seq<char> {
    block_prefix() + decimal(index as nat)
}

/// The key of the transaction with this id.
pub open spec fn transaction_key_of(id: Seq<char>) -> Seq<char> {
    transaction_prefix() + id
}

/// The key of an address's balance of a token.
pub open spec fn balance_key_of(address: Seq<char>, token_id: Seq<char>) -> Seq<char> {
    balance_prefix() + address + seq![':'] + token_id
}

/// `block:`, the prefix under which every block is stored.
pub fn block_key_prefix() -> (r: String)
    ensures
        r@ == block_prefix(),
{
    let mut key = String::new();
    key.push('b');
    key.push('l');
    key.push('o');
    key.push('c');
    key.push('k');
    key.push(':');
    assert(key@ =~= block_prefix());
    key
}

/// `block:<index>`.
pub fn block_key(index: u64) -> (r: String)
    ensures
        r@ == block_key_of(index),
{
    let mut key = String::new();
    key.push('b');
    key.push('l');
    key.push('o');
    key.push('c');
    key.push('k');
    key.push(':');
    push_decimal(&mut key, index);
    assert(key@ =~= block_key_of(index));
    key
}

/// `tx:<id>`.
pub fn transaction_key(id: &str) -> (r: String)
    ensures
        r@ == transaction_key_of(id@),
{
    let mut key = String::new();
    key.push('t');
    key.push('x');
    key.push(':');
    push_text(&mut key, id);
    assert(key@ =~= transaction_key_of(id@));
    key
}

/// `balance:<address>:<token>`.
pub fn balance_key(address: &str, token_id: &str) -> (r: String)
    ensures
        r@ == balance_key_of(address@, token_id@),
{
    let mut key = String::new();
    key.push('b');
    key.push('a');
    key.push('l');
    key.push('a');
    key.push('n');
    key.push('c');
    key.push('e');
    key.push(':');
    push_text(&mut key, address);
    key.push(':');
    push_text(&mut key, token_id);
    assert(key@ =~= balance_key_of(address@, token_id@));
    key
}

/// The blocks with this index, in the order of the list.
pub open spec fn with_index(s: Seq<Block>, k: u64) -> Seq<Block>
    decreases s.len(),
{
    if s.len() == 0 {
        Seq::empty()
    } else {
        (if s[0].index == k {
            seq![s[0]]
        } else {
            Seq::empty()
        }) + with_index(s.drop_first(), k)
    }
}

/// Blocks in nondecreasing order of index.
pub open spec fn sorted_by_index(s: Seq<Block>) -> bool {
    forall|i: int, j: int| 0 <= i < j < s.len() ==> #[trigger] s[i].index <= #[trigger] s[j].index
}

proof fn lemma_with_index_append(a: Seq<Block>, b: Seq<Block>, k: u64)
    ensures
        with_index(a + b, k) == with_index(a, k) + with_index(b, k),
    decreases a.len(),
{
    if a.len() == 0 {
        assert(a + b =~= b);
        assert(with_index(a, k) + with_index(b, k) =~= with_index(b, k));
    } else {
        assert((a + b).drop_first() =~= a.drop_first() + b);
        lemma_with_index_append(a.drop_first(), b, k);
        assert((a + b)[0] == a[0]);
        assert(with_index(a + b, k) =~= with_index(a, k) + with_index(b, k));
    }
}

proof fn lemma_with_index_none(a: Seq<Block>, k: u64)
    requires
        forall|i: int| 0 <= i < a.len() ==> #[trigger] a[i].index != k,
    ensures
        with_index(a, k) == Seq::<Block>::empty(),
    decreases a.len(),
{
    if a.len() > 0 {
        assert(forall|i: int| 0 <= i < a.drop_first().len() ==> #[trigger] a.drop_first()[i].index == a[i + 1].index);
        lemma_with_index_none(a.drop_first(), k);
    }
}

/// The blocks in nondecreasing order of index; blocks with equal indices
/// keep their relative order (a stable sort).
pub fn sort_blocks_by_index(blocks: Vec<Block>) -> (r: Vec<Block>)
    ensures
        r@.len() == blocks@.len(),
        sorted_by_index(r@),
        forall|k: u64| #[trigger] with_index(r@, k) == with_index(blocks@, k),
{
    let ghost orig = blocks@;
    let n = blocks.len();
    let mut rest = blocks;
    let mut out: Vec<Block> = Vec::new();
    while rest.len() > 0
        invariant
            rest@ == orig.subrange(0, rest@.len() as int),
            rest@.len() <= orig.len(),
            out@.len() + rest@.len() == orig.len(),
            sorted_by_index(out@),
            forall|k: u64| #[trigger] with_index(out@, k) == with_index(orig.subrange(rest@.len() as int, orig.len() as int), k),
        decreases rest@.len(),
    {
        let ghost before = out@;
        let ghost m = rest@.len() as int;
        let x = rest.pop().unwrap();
        let mut p: usize = 0;
        while p < out.len() && out[p].index < x.index
            invariant
                p <= out@.len(),
                out@ == before,
                forall|i: int| 0 <= i < p ==> #[trigger] out@[i].index < x.index,
            decreases out@.len() - p,
        {
            p = p + 1;
        }
        let ghost xv = x;
        out.insert(p, x);
        proof {
            let a = before.subrange(0, p as int);
            let b = before.subrange(p as int, before.len() as int);
            assert(before =~= a + b);
            assert(out@ =~= a + seq![xv] + b);
            assert forall|i: int, j: int| 0 <= i < j < out@.len() implies #[trigger] out@[i].index <= #[trigger] out@[j].index by {
                if p < before.len() {
                    assert(before[p as int].index >= xv.index);
                }
                if i < p && j == p {
                } else if i < p && j > p {
                    assert(out@[j] == before[j - 1]);
                } else if i == p && j > p {
                    assert(out@[j] == before[j - 1]);
                    assert(before[p as int].index <= before[j - 1].index);
                } else if i > p {
                    assert(out@[i] == before[i - 1]);
                    assert(out@[j] == before[j - 1]);
                }
            }
            let s_new = orig.subrange(m - 1, orig.len() as int);
            let s_old = orig.subrange(m, orig.len() as int);
            assert(s_new.drop_first() =~= s_old);
            assert(s_new[0] == xv);
            assert forall|k: u64| #[trigger] with_index(out@, k) == with_index(s_new, k) by {
                lemma_with_index_append(a + seq![xv], b, k);
                lemma_with_index_append(a, seq![xv], k);
                lemma_with_index_append(a, b, k);
                lemma_with_index_none(a, xv.index);
                assert(seq![xv].drop_first() =~= Seq::<Block>::empty());
                assert(with_index(Seq::<Block>::empty(), k) =~= Seq::<Block>::empty());
                assert(with_index(seq![xv], k) =~= if xv.index == k {
                    seq![xv]
                } else {
                    Seq::<Block>::empty()
                });
                assert(with_index(s_new, k) =~= with_index(seq![xv], k) + with_index(s_old, k));
                if k == xv.index {
                    assert(with_index(a, k) =~= Seq::<Block>::empty());
                    assert(with_index(out@, k) =~= seq![xv] + with_index(before, k));
                } else {
                    assert(with_index(out@, k) =~= with_index(before, k));
                }
            }
        }
    }
    assert(orig.subrange(0, orig.len() as int) =~= orig);
    out
}

/// The last of the blocks, if any.
pub fn latest_of(blocks: Vec<Block>) -> (r: Option<Block>)
    ensures
        blocks@.len() == 0 ==> r is None,
        blocks@.len() > 0 ==> r == Some(blocks@.last()),
{
    let mut blocks = blocks;
    blocks.pop()
}

/// Distinct indices are stored under distinct keys.
pub proof fn lemma_block_keys_distinct(i: u64, j: u64)
    requires
        i != j,
    ensures
        block_key_of(i) != block_key_of(j),
{
    if block_key_of(i) == block_key_of(j) {
        assert(decimal(i as nat) =~= block_key_of(i).skip(6));
        assert(decimal(j as nat) =~= block_key_of(j).skip(6));
        lemma_decimal_injective(i as nat, j as nat);
    }
}

/// Distinct ids are stored under distinct transaction keys.
pub proof fn lemma_transaction_keys_distinct(a: Seq<char>, b: Seq<char>)
    requires
        a != b,
    ensures
        transaction_key_of(a) != transaction_key_of(b),
{
    if transaction_key_of(a) == transaction_key_of(b) {
        assert(a =~= transaction_key_of(a).skip(3));
        assert(b =~= transaction_key_of(b).skip(3));
    }
}

/// Keys of blocks, transactions and balances never collide, and only block
/// keys start with the block prefix that the store scans.
pub proof fn lemma_key_kinds_disjoint(index: u64, id: Seq<char>, address: Seq<char>, token_id: Seq<char>)
    ensures
        block_key_of(index) != transaction_key_of(id),
        block_key_of(index) != balance_key_of(address, token_id),
        transaction_key_of(id) != balance_key_of(address, token_id),
        has_block_prefix(block_key_of(index)),
        !has_block_prefix(transaction_key_of(id)),
        !has_block_prefix(balance_key_of(address, token_id)),
{
    assert(block_key_of(index)[0] == 'b');
    assert(transaction_key_of(id)[0] == 't');
    assert(balance_key_of(address, token_id)[0] == 'b');
    assert(block_key_of(index)[1] == 'l');
    assert(balance_key_of(address, token_id)[1] == 'a');
    assert(block_key_of(index).take(6) =~= block_prefix());
    if transaction_key_of(id).len() >= 6 {
        assert(transaction_key_of(id).take(6)[0] == 't');
    }
    assert(balance_key_of(address, token_id).take(6)[1] == 'a');
}

/// Balances of distinct (address, token) pairs are stored under distinct
/// keys, as long as the addresses hold no colon.
pub proof fn lemma_balance_keys_distinct(a1: Seq<char>, t1: Seq<char>, a2: Seq<char>, t2: Seq<char>)
    requires
        !a1.contains(':'),
        !a2.contains(':'),
        a1 != a2 || t1 != t2,
    ensures
        balance_key_of(a1, t1) != balance_key_of(a2, t2),
{
    let k1 = balance_key_of(a1, t1);
    let k2 = balance_key_of(a2, t2);
    if k1 == k2 {
        if a1.len() < a2.len() {
            assert(k1[8 + a1.len() as int] == ':');
            assert(k2[8 + a1.len() as int] == a2[a1.len() as int]);
        } else if a2.len() < a1.len() {
            assert(k2[8 + a2.len() as int] == ':');
            assert(k1[8 + a2.len() as int] == a1[a2.len() as int]);
        } else {
            assert(a1 =~= k1.subrange(8, 8 + a1.len() as int));
            assert(a2 =~= k2.subrange(8, 8 + a2.len() as int));
            assert(t1 =~= k1.skip(9 + a1.len() as int));
            assert(t2 =~= k2.skip(9 + a2.len() as int));
        }
    }
}

/// The last block saved with index `i`, if any.
pub open spec fn last_saved(saves: Seq<Block>, i: u64) -> Option<Block>
    decreases saves.len(),
{
    if saves.len() == 0 {
        None
    } else if saves.last().index == i {
        Some(saves.last())
    } else {
        last_saved(saves.drop_last(), i)
    }
}

/// The blocks in the store after these saves, by key: each save writes its
/// block under the key of its index.
pub open spec fn saved_blocks(saves: Seq<Block>) -> Map<Seq<char>, Block>
    decreases saves.len(),
{
    if saves.len() == 0 {
        Map::empty()
    } else {
        saved_blocks(saves.drop_last()).insert(block_key_of(saves.last().index), saves.last())
    }
}

proof fn lemma_saved_blocks(saves: Seq<Block>)
    ensures
        forall|k: Seq<char>|
            #[trigger] saved_blocks(saves).dom().contains(k) ==> k == block_key_of(saved_blocks(saves)[k].index)
                && last_saved(saves, saved_blocks(saves)[k].index) == Some(saved_blocks(saves)[k]),
        forall|i: u64|
            #[trigger] last_saved(saves, i) is Some ==> saved_blocks(saves).dom().contains(block_key_of(i)),
    decreases saves.len(),
{
    if saves.len() > 0 {
        let prev = saves.drop_last();
        let b = saves.last();
        lemma_saved_blocks(prev);
        assert forall|k: Seq<char>| #[trigger] saved_blocks(saves).dom().contains(k) implies k == block_key_of(
            saved_blocks(saves)[k].index,
        ) && last_saved(saves, saved_blocks(saves)[k].index) == Some(saved_blocks(saves)[k]) by {
            if k != block_key_of(b.index) {
                let v = saved_blocks(prev)[k];
                assert(saved_blocks(prev).dom().contains(k));
                if v.index == b.index {
                    assert(false);
                } else {
                    assert(last_saved(saves, v.index) == last_saved(prev, v.index));
                }
            }
        }
        assert forall|i: u64| #[trigger] last_saved(saves, i) is Some implies saved_blocks(saves).dom().contains(
            block_key_of(i),
        ) by {
            if b.index != i {
                assert(last_saved(prev, i) is Some);
            }
        }
    }
}

/// `x` stands at some position of `s`.
pub open spec fn occurs(s: Seq<Block>, x: Block) -> bool {
    exists|p: int| 0 <= p < s.len() && s[p] == x
}

proof fn lemma_with_index_elems(s: Seq<Block>, k: u64)
    ensures
        forall|m: int|
            0 <= m < with_index(s, k).len() ==> (#[trigger] with_index(s, k)[m]).index == k && occurs(
                s,
                with_index(s, k)[m],
            ),
    decreases s.len(),
{
    if s.len() == 0 {
        assert(with_index(s, k) =~= Seq::<Block>::empty());
    } else {
        let t = s.drop_first();
        lemma_with_index_elems(t, k);
        let head = if s[0].index == k {
            seq![s[0]]
        } else {
            Seq::<Block>::empty()
        };
        assert(with_index(s, k) == head + with_index(t, k));
        assert forall|m: int| 0 <= m < with_index(s, k).len() implies (#[trigger] with_index(s, k)[m]).index == k
            && occurs(s, with_index(s, k)[m]) by {
            if m < head.len() {
                assert(s[0] == with_index(s, k)[m]);
            } else {
                let x = with_index(t, k)[m - head.len()];
                assert(with_index(s, k)[m] == x);
                assert(occurs(t, x));
                let q = choose|q: int| 0 <= q < t.len() && t[q] == x;
                assert(s[q + 1] == t[q]);
            }
        }
    }
}

proof fn lemma_with_index_has(s: Seq<Block>, k: u64, p: int)
    requires
        0 <= p < s.len(),
        s[p].index == k,
    ensures
        exists|m: int| 0 <= m < with_index(s, k).len() && #[trigger] with_index(s, k)[m] == s[p],
    decreases s.len(),
{
    let t = s.drop_first();
    let head = if s[0].index == k {
        seq![s[0]]
    } else {
        Seq::<Block>::empty()
    };
    assert(with_index(s, k) == head + with_index(t, k));
    if p == 0 {
        assert(with_index(s, k)[0] == s[0]);
    } else {
        lemma_with_index_has(t, k, p - 1);
        let m = choose|m: int| 0 <= m < with_index(t, k).len() && #[trigger] with_index(t, k)[m] == t[p - 1];
        assert(with_index(s, k)[m + head.len()] == s[p]);
    }
}

proof fn lemma_with_index_two(s: Seq<Block>, k: u64, j: int, l: int)
    requires
        0 <= j < l < s.len(),
        s[j].index == k,
        s[l].index == k,
    ensures
        with_index(s, k).len() >= 2,
    decreases s.len(),
{
    let t = s.drop_first();
    let head = if s[0].index == k {
        seq![s[0]]
    } else {
        Seq::<Block>::empty()
    };
    assert(with_index(s, k) == head + with_index(t, k));
    if j == 0 {
        lemma_with_index_has(t, k, l - 1);
    } else {
        lemma_with_index_two(t, k, j - 1, l - 1);
    }
}

proof fn lemma_with_index_distinct(s: Seq<Block>, k: u64)
    requires
        forall|i: int, j: int| 0 <= i < j < s.len() ==> #[trigger] s[i].index != #[trigger] s[j].index,
    ensures
        with_index(s, k).len() <= 1,
    decreases s.len(),
{
    if s.len() > 0 {
        let t = s.drop_first();
        assert forall|i: int, j: int| 0 <= i < j < t.len() implies #[trigger] t[i].index != #[trigger] t[j].index by {
            assert(t[i] == s[i + 1] && t[j] == s[j + 1]);
        }
        lemma_with_index_distinct(t, k);
        if s[0].index == k && with_index(t, k).len() > 0 {
            lemma_with_index_elems(t, k);
            assert(with_index(t, k)[0].index == k && occurs(t, with_index(t, k)[0]));
            let p = choose|p: int| 0 <= p < t.len() && t[p] == with_index(t, k)[0];
            assert(s[p + 1].index == s[0].index);
        }
    }
}

/// Blocks read back from the store come one per saved index, in strictly
/// increasing order of index, each the last block saved with its index.
/// `scanned` is what a scan of the block keys returns (each stored key
/// once, with its block, in any order) and `sorted` what
/// `sort_blocks_by_index` makes of it.
pub proof fn lemma_read_back_blocks(saves: Seq<Block>, keys: Seq<Seq<char>>, scanned: Seq<Block>, sorted: Seq<Block>)
    requires
        keys.len() == scanned.len(),
        forall|j: int, l: int| 0 <= j < l < keys.len() ==> keys[j] != keys[l],
        forall|k: Seq<char>| saved_blocks(saves).dom().contains(k) <==> keys.contains(k),
        forall|j: int| 0 <= j < keys.len() ==> scanned[j] == saved_blocks(saves)[#[trigger] keys[j]],
        sorted_by_index(sorted),
        forall|k: u64| #[trigger] with_index(sorted, k) == with_index(scanned, k),
    ensures
        forall|j: int, l: int| 0 <= j < l < sorted.len() ==> #[trigger] sorted[j].index < #[trigger] sorted[l].index,
        forall|j: int| 0 <= j < sorted.len() ==> last_saved(saves, #[trigger] sorted[j].index) == Some(sorted[j]),
        forall|i: u64| #[trigger] last_saved(saves, i) is Some ==> exists|j: int| 0 <= j < sorted.len() && #[trigger] sorted[j].index == i,
{
    let m = saved_blocks(saves);
    lemma_saved_blocks(saves);
    assert forall|j: int| 0 <= j < keys.len() implies keys[j] == block_key_of(#[trigger] scanned[j].index) && last_saved(
        saves,
        scanned[j].index,
    ) == Some(scanned[j]) by {
        assert(keys.contains(keys[j]));
        assert(m.dom().contains(keys[j]));
    }
    assert forall|j: int, l: int| 0 <= j < l < scanned.len() implies #[trigger] scanned[j].index != #[trigger] scanned[l].index by {
        assert(keys[j] == block_key_of(scanned[j].index));
        assert(keys[l] == block_key_of(scanned[l].index));
    }
    assert forall|j: int, l: int| 0 <= j < l < sorted.len() implies #[trigger] sorted[j].index < #[trigger] sorted[l].index by {
        if sorted[j].index == sorted[l].index {
            lemma_with_index_two(sorted, sorted[j].index, j, l);
            lemma_with_index_distinct(scanned, sorted[j].index);
        }
    }
    assert forall|j: int| 0 <= j < sorted.len() implies last_saved(saves, #[trigger] sorted[j].index) == Some(sorted[j]) by {
        let k = sorted[j].index;
        lemma_with_index_has(sorted, k, j);
        let mm = choose|mm: int| 0 <= mm < with_index(sorted, k).len() && #[trigger] with_index(sorted, k)[mm] == sorted[j];
        lemma_with_index_elems(scanned, k);
        assert(with_index(scanned, k)[mm] == sorted[j]);
        assert(occurs(scanned, with_index(scanned, k)[mm]));
        let p = choose|p: int| 0 <= p < scanned.len() && scanned[p] == sorted[j];
        assert(last_saved(saves, scanned[p].index) == Some(scanned[p]));
    }
    assert forall|i: u64| #[trigger] last_saved(saves, i) is Some implies exists|j: int| 0 <= j < sorted.len() && #[trigger] sorted[j].index == i by {
        assert(m.dom().contains(block_key_of(i)));
        assert(keys.contains(block_key_of(i)));
        let q = choose|q: int| 0 <= q < keys.len() && keys[q] == block_key_of(i);
        assert(keys[q] == block_key_of(scanned[q].index));
        if scanned[q].index != i {
            lemma_block_keys_distinct(scanned[q].index, i);
        }
        lemma_with_index_has(scanned, i, q);
        let mm = choose|mm: int| 0 <= mm < with_index(scanned, i).len() && #[trigger] with_index(scanned, i)[mm] == scanned[q];
        lemma_with_index_elems(sorted, i);
        assert(with_index(sorted, i)[mm] == scanned[q]);
        assert(with_index(sorted, i)[mm].index == i && occurs(sorted, with_index(sorted, i)[mm]));
        let p = choose|p: int| 0 <= p < sorted.len() && sorted[p] == scanned[q];
        assert(sorted[p].index == i);
    }
}

/// The store's keys: `block:` and the index in decimal, `tx:` and the id,
/// `balance:`, the address, `:` and the token.
pub proof fn lemma_key_formats(index: u64, id: Seq<char>, address: Seq<char>, token_id: Seq<char>)
    ensures
        block_key_of(index) == "block:"@ + decimal(index as nat),
        transaction_key_of(id) == "tx:"@ + id,
        balance_key_of(address, token_id) == "balance:"@ + address + ":"@ + token_id,
{
    reveal_strlit("block:");
    reveal_strlit("tx:");
    reveal_strlit("balance:");
    reveal_strlit(":");
    assert(block_prefix() =~= "block:"@);
    assert(transaction_prefix() =~= "tx:"@);
    assert(balance_prefix() =~= "balance:"@);
    assert(seq![':'] =~= ":"@);
}

} // verus!
