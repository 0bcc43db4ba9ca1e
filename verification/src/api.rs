//! What the HTTP interface computes: response envelopes, an address's
//! transaction history, pages of blocks, and numeric query parameters.

use vstd::prelude::*;
use vstd::string::StrSliceExecFns;
use crate::types::{Block, Transaction};
use crate::text::{decimal, digit_char};

verus! {

/// The envelope of every answer: `success` with `data`, or an `error`.
pub struct ApiResponse<T> {
    pub success: bool,
    pub data: Option<T>,
    pub error: Option<String>,
}

impl<T> ApiResponse<T> {
    /// A successful answer carrying `data`.
    pub fn ok(data: T) -> (r: Self)
        ensures
            r.success,
            r.data == Some(data),
            r.error is None,
    {
        ApiResponse { success: true, data: Some(data), error: None }
    }

    /// A failed answer carrying the message.
    pub fn err(msg: String) -> (r: Self)
        ensures
            !r.success,
            r.data is None,
            r.error == Some(msg),
    {
        ApiResponse { success: false, data: None, error: Some(msg) }
    }
}

/// All transactions of the blocks, block by block, in order.
pub open spec fn all_transactions(blocks: Seq<Block>) -> Seq<Transaction>
    decreases blocks.len(),
{
    if blocks.len() == 0 {
        Seq::empty()
    } else {
        all_transactions(blocks.drop_last()) + blocks.last().transactions@
    }
}

/// The transactions sent or received by `address`, in order.
pub open spec fn involving(txs: Seq<Transaction>, address: Seq<char>) -> Seq<Transaction>
    decreases txs.len(),
{
    if txs.len() == 0 {
        Seq::empty()
    } else {
        let t = txs.last();
        involving(txs.drop_last(), address) + if t.from@ == address || t.to@ == address {
            seq![t]
        } else {
            Seq::empty()
        }
    }
}

/// The history of an address: every transaction of the blocks that it
/// sends or receives, newest first.
pub fn transactions_for_address(blocks: &[Block], address: &str) -> (r: Vec<Transaction>)
    ensures
        r@ == involving(all_transactions(blocks@), address@).reverse(),
{
    let who = crate::text::owned(address);
    let mut found: Vec<Transaction> = Vec::new();
    let mut i: usize = 0;
    while i < blocks.len()
        invariant
            i <= blocks@.len(),
            who@ == address@,
            found@ == involving(all_transactions(blocks@.subrange(0, i as int)), address@),
        decreases blocks@.len() - i,
    {
        let txs = &blocks[i].transactions;
        let ghost prefix = all_transactions(blocks@.subrange(0, i as int));
        let mut j: usize = 0;
        while j < txs.len()
            invariant
                j <= txs@.len(),
                who@ == address@,
                found@ == involving(prefix + txs@.subrange(0, j as int), address@),
            decreases txs@.len() - j,
        {
            let t = &txs[j];
            assert((prefix + txs@.subrange(0, j + 1)).drop_last() =~= prefix + txs@.subrange(0, j as int));
            if t.from == who || t.to == who {
                found.push(t.clone());
            }
            j = j + 1;
        }
        assert(blocks@.subrange(0, i + 1).drop_last() =~= blocks@.subrange(0, i as int));
        assert(txs@.subrange(0, txs@.len() as int) =~= txs@);
        i = i + 1;
    }
    assert(blocks@.subrange(0, blocks@.len() as int) =~= blocks@);
    let n = found.len();
    let mut out: Vec<Transaction> = Vec::new();
    let mut k: usize = 0;
    while k < n
        invariant
            n == found@.len(),
            k <= n,
            out@ == found@.reverse().subrange(0, k as int),
        decreases n - k,
    {
        out.push(found[n - 1 - k].clone());
        k = k + 1;
        assert(out@ =~= found@.reverse().subrange(0, k as int));
    }
    assert(found@.reverse().subrange(0, n as int) =~= found@.reverse());
    out
}

/// The page of blocks, newest first, that skips `offset` blocks and keeps
/// at most `limit`.
pub open spec fn block_page(blocks: Seq<Block>, offset: int, limit: int) -> Seq<Block> {
    let rev = blocks.reverse();
    let start = if offset < rev.len() { offset } else { rev.len() as int };
    let end = if start + limit < rev.len() { start + limit } else { rev.len() as int };
    rev.subrange(start, end)
}

/// The blocks newest first, without the first `offset`, at most `limit`.
pub fn paginate_blocks(blocks: Vec<Block>, offset: usize, limit: usize) -> (r: Vec<Block>)
    ensures
        r@ == block_page(blocks@, offset as int, limit as int),
{
    let ghost orig = blocks@;
    let n = blocks.len();
    let start: usize = if offset < n { offset } else { n };
    let count: usize = if limit < n - start { limit } else { n - start };
    let mut blocks = blocks;
    blocks.truncate(n - start);
    let mut chunk = blocks.split_off(n - start - count);
    let ghost c = chunk@;
    assert(c =~= orig.subrange((n - start - count) as int, (n - start) as int));
    let mut out: Vec<Block> = Vec::new();
    while chunk.len() > 0
        invariant
            chunk@ == c.subrange(0, chunk@.len() as int),
            chunk@.len() <= c.len(),
            out@ == c.reverse().subrange(0, (c.len() - chunk@.len()) as int),
        decreases chunk@.len(),
    {
        let b = chunk.pop().unwrap();
        out.push(b);
        assert(out@ =~= c.reverse().subrange(0, (c.len() - chunk@.len()) as int));
    }
    assert(out@ =~= block_page(orig, offset as int, limit as int));
    out
}

/// An ASCII decimal digit.
pub open spec fn is_digit(c: char) -> bool {
    '0' <= c && c <= '9'
}

/// The value of a string of decimal digits.
pub open spec fn digits_value(s: Seq<char>) -> nat
    decreases s.len(),
{
    if s.len() == 0 {
        0
    } else {
        digits_value(s.drop_last()) * 10 + (s.last() as nat - 48) as nat
    }
}

/// The digits of an unsigned number: the text without one leading `+`.
pub open spec fn unsigned_digits(s: Seq<char>) -> Seq<char> {
    if s.len() > 0 && s[0] == '+' {
        s.drop_first()
    } else {
        s
    }
}

/// Text read as a `usize`: an optional `+` and then one or more decimal
/// digits whose value fits; `None` otherwise.
pub open spec fn parsed_usize(s: Seq<char>) -> Option<usize> {
    let d = unsigned_digits(s);
    if d.len() > 0 && (forall|i: int| 0 <= i < d.len() ==> is_digit(#[trigger] d[i])) && digits_value(d)
        <= usize::MAX {
        Some(digits_value(d) as usize)
    } else {
        None
    }
}

/// Reads text as a `usize` (see `parsed_usize`).
pub fn parse_usize(s: &str) -> (r: Option<usize>)
    ensures
        r == parsed_usize(s@),
{
    let n = s.unicode_len();
    let mut i: usize = 0;
    if n > 0 && s.get_char(0) == '+' {
        i = 1;
    }
    let ghost d = unsigned_digits(s@);
    let first = i;
    assert(d =~= s@.skip(first as int));
    if i == n {
        return None;
    }
    let mut acc: usize = 0;
    let mut overflow = false;
    while i < n
        invariant
            n == s@.len(),
            first <= i <= n,
            first < n,
            d == s@.skip(first as int),
            d == unsigned_digits(s@),
            forall|k: int| 0 <= k < i - first ==> is_digit(#[trigger] d[k]),
            overflow ==> digits_value(d.take(i - first)) > usize::MAX,
            !overflow ==> acc == digits_value(d.take(i - first)),
        decreases n - i,
    {
        let c = s.get_char(i);
        assert(d[i - first] == c);
        if c < '0' || c > '9' {
            assert(!is_digit(d[i - first]));
            assert(!(forall|k: int| 0 <= k < d.len() ==> is_digit(#[trigger] d[k])));
            return None;
        }
        let digit: usize = (c as u32 - 48) as usize;
        assert(d.take(i + 1 - first).drop_last() =~= d.take(i - first));
        assert(d.take(i + 1 - first).last() == c);
        if !overflow {
            if acc > (usize::MAX - digit) / 10 {
                overflow = true;
            } else {
                acc = acc * 10 + digit;
            }
        }
        i = i + 1;
    }
    assert(d.take(n - first) =~= d);
    if overflow {
        None
    } else {
        Some(acc)
    }
}

/// A numeric query parameter: its value when present and readable, the
/// default otherwise.
pub fn usize_param_or(text: Option<&str>, default: usize) -> (r: usize)
    ensures
        r == match text {
            Some(t) => match parsed_usize(t@) {
                Some(v) => v,
                None => default,
            },
            None => default,
        },
{
    match text {
        Some(t) => match parse_usize(t) {
            Some(v) => v,
            None => default,
        },
        None => default,
    }
}

/// Every transaction of an address's history is sent or received by it.
pub proof fn lemma_history_involves(txs: Seq<Transaction>, address: Seq<char>)
    ensures
        forall|i: int|
            0 <= i < involving(txs, address).len() ==> (#[trigger] involving(txs, address)[i]).from@ == address
                || involving(txs, address)[i].to@ == address,
    decreases txs.len(),
{
    if txs.len() > 0 {
        lemma_history_involves(txs.drop_last(), address);
    }
}

/// A page holds at most `limit` blocks.
pub proof fn lemma_page_length(blocks: Seq<Block>, offset: int, limit: int)
    requires
        offset >= 0,
        limit >= 0,
    ensures
        block_page(blocks, offset, limit).len() <= limit,
{
}

/// Consecutive pages tile the newest-first listing: the page of `a` blocks
/// at `offset`, then the page of `b` blocks right after it, is the page of
/// `a + b` blocks at `offset`.
pub proof fn lemma_pages_tile(blocks: Seq<Block>, offset: int, a: int, b: int)
    requires
        offset >= 0,
        a >= 0,
        b >= 0,
    ensures
        block_page(blocks, offset, a) + block_page(blocks, offset + a, b) == block_page(blocks, offset, a + b),
{
    assert(block_page(blocks, offset, a) + block_page(blocks, offset + a, b) =~= block_page(blocks, offset, a + b));
}

proof fn lemma_digit_char(d: nat)
    requires
        d < 10,
    ensures
        digit_char(d) as nat == d + 48,
        is_digit(digit_char(d)),
{
    let b: u8 = (d + 48) as u8;
    assert(b == d + 48);
    assert(b as char as nat == b);
}

proof fn lemma_decimal_digits(n: nat)
    ensures
        decimal(n).len() > 0,
        forall|i: int| 0 <= i < decimal(n).len() ==> is_digit(#[trigger] decimal(n)[i]),
        digits_value(decimal(n)) == n,
        decimal(n)[0] != '+',
    decreases n,
{
    if n < 10 {
        lemma_digit_char(n);
        assert(decimal(n) =~= seq![digit_char(n)]);
        assert(seq![digit_char(n)].drop_last() =~= Seq::<char>::empty());
        assert(decimal(n).last() == digit_char(n));
        assert(digits_value(decimal(n)) == digits_value(decimal(n).drop_last()) * 10 + (decimal(n).last() as nat - 48) as nat);
    } else {
        lemma_decimal_digits(n / 10);
        lemma_digit_char(n % 10);
        let s = decimal(n);
        assert(s == decimal(n / 10).push(digit_char(n % 10)));
        assert(s.drop_last() =~= decimal(n / 10));
        assert(s.last() == digit_char(n % 10));
        assert(s[0] == decimal(n / 10)[0]);
        assert forall|i: int| 0 <= i < s.len() implies is_digit(#[trigger] s[i]) by {
            if i < s.len() - 1 {
                assert(s[i] == decimal(n / 10)[i]);
            }
        }
        assert(digits_value(s) == digits_value(s.drop_last()) * 10 + (s.last() as nat - 48) as nat);
        assert(n == (n / 10) * 10 + n % 10);
    }
}

/// Reading back the decimal text of a number gives the number.
pub proof fn lemma_parse_decimal(n: nat)
    requires
        n <= usize::MAX,
    ensures
        parsed_usize(decimal(n)) == Some(n as usize),
{
    lemma_decimal_digits(n);
    assert(unsigned_digits(decimal(n)) == decimal(n));
}

/// Every transaction that an address sends or receives is in its history
/// over a list of transactions.
pub proof fn lemma_history_complete(txs: Seq<Transaction>, address: Seq<char>)
    ensures
        forall|i: int|
            0 <= i < txs.len() && ((#[trigger] txs[i]).from@ == address || txs[i].to@ == address) ==> involving(
                txs,
                address,
            ).contains(txs[i]),
    decreases txs.len(),
{
    if txs.len() > 0 {
        let pre = txs.drop_last();
        let t = txs.last();
        lemma_history_complete(pre, address);
        let a = involving(pre, address);
        let tail = if t.from@ == address || t.to@ == address {
            seq![t]
        } else {
            Seq::<Transaction>::empty()
        };
        assert(involving(txs, address) == a + tail);
        assert forall|i: int| 0 <= i < txs.len() && ((#[trigger] txs[i]).from@ == address || txs[i].to@ == address) implies involving(
            txs,
            address,
        ).contains(txs[i]) by {
            if i < pre.len() {
                assert(pre[i] == txs[i]);
                assert(a.contains(txs[i]));
                let q = choose|q: int| 0 <= q < a.len() && a[q] == txs[i];
                assert((a + tail)[q] == txs[i]);
            } else {
                assert(txs[i] == t);
                assert((a + tail)[a.len() as int] == t);
            }
        }
    }
}

/// `x` is one of the transactions of one of the blocks.
pub open spec fn in_some_block(blocks: Seq<Block>, x: Transaction) -> bool {
    exists|b: int, j: int| 0 <= b < blocks.len() && 0 <= j < blocks[b].transactions@.len() && blocks[b].transactions@[j] == x
}

/// The transactions of the blocks are exactly those of each block: every
/// transaction of every block is there, and each one there comes from some
/// block.
pub proof fn lemma_all_transactions_cover(blocks: Seq<Block>)
    ensures
        forall|b: int, j: int|
            0 <= b < blocks.len() && 0 <= j < blocks[b].transactions@.len() ==> all_transactions(blocks).contains(
                #[trigger] blocks[b].transactions@[j],
            ),
        forall|p: int|
            0 <= p < all_transactions(blocks).len() ==> in_some_block(blocks, #[trigger] all_transactions(blocks)[p]),
    decreases blocks.len(),
{
    if blocks.len() > 0 {
        let pre = blocks.drop_last();
        let last = blocks.last().transactions@;
        lemma_all_transactions_cover(pre);
        let a = all_transactions(pre);
        assert(all_transactions(blocks) == a + last);
        assert forall|b: int, j: int|
            0 <= b < blocks.len() && 0 <= j < blocks[b].transactions@.len() implies all_transactions(blocks).contains(
            #[trigger] blocks[b].transactions@[j],
        ) by {
            let x = blocks[b].transactions@[j];
            if b < pre.len() {
                assert(pre[b] == blocks[b]);
                assert(a.contains(pre[b].transactions@[j]));
                let q = choose|q: int| 0 <= q < a.len() && a[q] == x;
                assert((a + last)[q] == x);
            } else {
                assert((a + last)[a.len() + j] == x);
            }
        }
        assert forall|p: int| 0 <= p < all_transactions(blocks).len() implies in_some_block(
            blocks,
            #[trigger] all_transactions(blocks)[p],
        ) by {
            if p < a.len() {
                assert(all_transactions(blocks)[p] == a[p]);
                assert(in_some_block(pre, a[p]));
                let (b, j) = choose|b: int, j: int|
                    0 <= b < pre.len() && 0 <= j < pre[b].transactions@.len() && pre[b].transactions@[j] == a[p];
                assert(blocks[b] == pre[b]);
            } else {
                let b = blocks.len() - 1;
                let j = p - a.len();
                assert(blocks[b].transactions@[j] == all_transactions(blocks)[p]);
            }
        }
    }
}

/// An address's history holds every transaction of the blocks that it sends
/// or receives (the mining rewards it receives among them), and nothing that
/// does not involve it.
pub proof fn lemma_history_of_blocks(blocks: Seq<Block>, address: Seq<char>)
    ensures
        forall|b: int, j: int|
            0 <= b < blocks.len() && 0 <= j < blocks[b].transactions@.len() && ((#[trigger] blocks[b].transactions@[j]).from@
                == address || blocks[b].transactions@[j].to@ == address) ==> involving(all_transactions(blocks), address).reverse().contains(
                blocks[b].transactions@[j],
            ),
        forall|p: int|
            0 <= p < involving(all_transactions(blocks), address).reverse().len() ==> (#[trigger] involving(
                all_transactions(blocks),
                address,
            ).reverse()[p]).from@ == address || involving(all_transactions(blocks), address).reverse()[p].to@ == address,
{
    let all = all_transactions(blocks);
    let h = involving(all, address);
    lemma_all_transactions_cover(blocks);
    lemma_history_complete(all, address);
    lemma_history_involves(all, address);
    assert forall|b: int, j: int|
        0 <= b < blocks.len() && 0 <= j < blocks[b].transactions@.len() && ((#[trigger] blocks[b].transactions@[j]).from@
            == address || blocks[b].transactions@[j].to@ == address) implies h.reverse().contains(blocks[b].transactions@[j]) by {
        let x = blocks[b].transactions@[j];
        assert(all.contains(x));
        let i = choose|i: int| 0 <= i < all.len() && all[i] == x;
        assert(h.contains(all[i]));
        let q = choose|q: int| 0 <= q < h.len() && h[q] == x;
        assert(h.reverse()[h.len() - 1 - q] == x);
    }
    assert forall|p: int| 0 <= p < h.reverse().len() implies (#[trigger] h.reverse()[p]).from@ == address || h.reverse()[p].to@
        == address by {
        assert(h.reverse()[p] == h[h.len() - 1 - p]);
    }
}

/// A page lists the blocks newest first: it holds `min(limit, n - offset)`
/// blocks (none past the end), and its `i`-th block is the block `offset + i`
/// places from the newest.
pub proof fn lemma_page_positions(blocks: Seq<Block>, offset: int, limit: int)
    requires
        offset >= 0,
        limit >= 0,
    ensures
        block_page(blocks, offset, limit).len() == (if offset >= blocks.len() {
            0
        } else if limit < blocks.len() - offset {
            limit
        } else {
            blocks.len() - offset
        }),
        forall|i: int|
            0 <= i < block_page(blocks, offset, limit).len() ==> #[trigger] block_page(blocks, offset, limit)[i]
                == blocks[blocks.len() - 1 - offset - i],
{
}

proof fn lemma_involving_append(x: Seq<Transaction>, y: Seq<Transaction>, address: Seq<char>)
    ensures
        involving(x + y, address) == involving(x, address) + involving(y, address),
    decreases y.len(),
{
    if y.len() == 0 {
        assert(x + y =~= x);
        assert(involving(y, address) =~= Seq::<Transaction>::empty());
        assert(involving(x, address) + involving(y, address) =~= involving(x, address));
    } else {
        assert((x + y).drop_last() =~= x + y.drop_last());
        lemma_involving_append(x, y.drop_last(), address);
        assert(involving(x + y, address) =~= involving(x, address) + involving(y, address));
    }
}

/// Histories grow newest first: after one more block, an address's history
/// is that block's transactions involving it, last first, followed by the
/// history before the block.
pub proof fn lemma_history_extend(blocks: Seq<Block>, b: Block, address: Seq<char>)
    ensures
        involving(all_transactions(blocks.push(b)), address).reverse() == involving(b.transactions@, address).reverse()
            + involving(all_transactions(blocks), address).reverse(),
{
    assert(blocks.push(b).drop_last() =~= blocks);
    assert(all_transactions(blocks.push(b)) == all_transactions(blocks) + b.transactions@);
    lemma_involving_append(all_transactions(blocks), b.transactions@, address);
    let x = involving(all_transactions(blocks), address);
    let y = involving(b.transactions@, address);
    assert((x + y).reverse() =~= y.reverse() + x.reverse());
}

/// Reading a number digit by digit: a single digit reads as its value; one
/// more digit after a readable number multiplies it by ten and adds the
/// digit, unless that passes `usize::MAX`, when the text is not read; text
/// that is not read stays unread with more digits; a non-digit is never read;
/// one leading `+` is skipped, a second one is not.
pub proof fn lemma_parse_rule(d: Seq<char>, c: char)
    requires
        d.len() > 0,
        forall|i: int| 0 <= i < d.len() ==> '0' <= #[trigger] d[i] <= '9',
    ensures
        '0' <= c <= '9' ==> parsed_usize(seq![c]) == Some((c as int - 48) as usize),
        !('0' <= c <= '9') ==> parsed_usize(d.push(c)) is None && parsed_usize(seq![c]) is None,
        '0' <= c <= '9' ==> parsed_usize(d.push(c)) == match parsed_usize(d) {
            Some(v) => if v * 10 + (c as int - 48) <= usize::MAX {
                Some((v * 10 + (c as int - 48)) as usize)
            } else {
                None
            },
            None => None,
        },
        parsed_usize(seq!['+'] + d) == parsed_usize(d),
        parsed_usize(seq!['+', '+'] + d) is None,
        parsed_usize(Seq::<char>::empty()) is None,
        parsed_usize(seq!['+']) is None,
{
    let e = d.push(c);
    assert(unsigned_digits(d) == d);
    assert(e[0] == d[0]);
    assert(unsigned_digits(e) == e);
    assert(e.drop_last() =~= d);
    assert(digits_value(e) == digits_value(d) * 10 + (c as nat - 48) as nat);
    if '0' <= c <= '9' {
        assert(forall|i: int| 0 <= i < e.len() ==> '0' <= #[trigger] e[i] <= '9') by {
            assert forall|i: int| 0 <= i < e.len() implies '0' <= #[trigger] e[i] <= '9' by {
                if i < d.len() {
                    assert(e[i] == d[i]);
                }
            }
        }
        assert(unsigned_digits(seq![c]) == seq![c]);
        assert(seq![c].drop_last() =~= Seq::<char>::empty());
        assert(digits_value(seq![c]) == digits_value(Seq::<char>::empty()) * 10 + (c as nat - 48) as nat);
        assert(is_digit(seq![c][0]));
    } else {
        assert(!is_digit(e[e.len() - 1]));
        assert(!is_digit(seq![c][0]));
    }
    assert((seq!['+'] + d)[0] == '+');
    assert((seq!['+'] + d).drop_first() =~= d);
    assert((seq!['+', '+'] + d).drop_first() =~= seq!['+'] + d);
    assert(!is_digit((seq!['+'] + d)[0]));
    assert(seq!['+'].drop_first() =~= Seq::<char>::empty());
}

} // verus!
