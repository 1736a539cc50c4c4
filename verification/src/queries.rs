//! What is read from the venue: depth, logs, one trader's matches, and who may ask.

use crate::book::{levels_view, sorted_prices, Levels, OrderBook};
use crate::bytes::{same_id, Id32};
use crate::hexes::{fault_text, hex_bytes, hex_decode, hex_fault, hex_valid, HexFault};
use crate::receipts::{receipts_view, OrderReceipt};
use crate::text::{decimal_text, push_decimal, strip_pairs, stripped};
use crate::types::{matches_view, orders_view, Match, Order, OrderSpec};
use vstd::prelude::*;
use vstd::utf8::{encode_utf8, encode_utf8_decode_utf8};

verus! {

broadcast use {vstd::std_specs::btree::group_btree_axioms, vstd::laws_cmp::group_laws_cmp};

/// How much rests at a price.
#[derive(Clone, Copy, Debug, PartialEq, Eq, Structural)]
pub struct PriceLevel {
    pub price: u64,
    pub total_amount: u64,
}

/// How much rests at each price, on both sides.
#[derive(Clone, Debug)]
pub struct OrderBookResponse {
    pub symbol: String,
    pub bids: Vec<PriceLevel>,
    pub asks: Vec<PriceLevel>,
}

/// What orders amount to.
pub open spec fn level_total(s: Seq<OrderSpec>) -> nat
    decreases s.len(),
{
    if s.len() == 0 {
        0
    } else {
        level_total(s.drop_last()) + s.last().amount as nat
    }
}

/// Each level's total can be held.
pub open spec fn totals_fit(levels: Map<u64, Seq<OrderSpec>>) -> bool {
    forall|p: u64| #[trigger] levels.contains_key(p) ==> level_total(levels[p]) <= u64::MAX
}

/// Some entry is for price `p`.
pub open spec fn reports_price(r: Seq<PriceLevel>, p: u64) -> bool {
    exists|i: int| 0 <= i < r.len() && (#[trigger] r[i]).price == p
}

/// One entry for each price, lowest first, with what rests there.
pub open spec fn is_depth(r: Seq<PriceLevel>, levels: Map<u64, Seq<OrderSpec>>) -> bool {
    &&& forall|i: int, j: int|
        0 <= i < j < r.len() ==> (#[trigger] r[i]).price < (#[trigger] r[j]).price
    &&& forall|p: u64| #[trigger] levels.contains_key(p) <==> reports_price(r, p)
    &&& forall|i: int|
        0 <= i < r.len() ==> levels.contains_key((#[trigger] r[i]).price) && r[i].total_amount
            == level_total(levels[r[i].price])
}

proof fn lemma_total_grows(s: Seq<OrderSpec>, n: int)
    requires
        0 <= n <= s.len(),
    ensures
        level_total(s.take(n)) <= level_total(s),
    decreases s.len() - n,
{
    if n < s.len() {
        lemma_total_grows(s, n + 1);
        assert(s.take(n + 1).drop_last() =~= s.take(n));
    } else {
        assert(s.take(n) =~= s);
    }
}

/// What the orders of a level amount to.
pub fn total_of(level: &Vec<Order>) -> (r: u64)
    requires
        level_total(orders_view(level@)) <= u64::MAX,
    ensures
        r == level_total(orders_view(level@)),
{
    let ghost s = orders_view(level@);
    let mut total: u64 = 0;
    let mut i: usize = 0;
    while i < level.len()
        invariant
            i <= level@.len(),
            s == orders_view(level@),
            level_total(s) <= u64::MAX,
            total == level_total(s.take(i as int)),
        decreases level@.len() - i,
    {
        proof {
            lemma_total_grows(s, i + 1);
            assert(s.take(i + 1).drop_last() =~= s.take(i as int));
            assert(s.take(i + 1).last() == level@[i as int]@);
        }
        total = total + level[i].amount;
        i = i + 1;
    }
    proof {
        assert(s.take(s.len() as int) =~= s);
    }
    total
}

fn depth_of(levels: &Levels) -> (r: Vec<PriceLevel>)
    requires
        totals_fit(levels_view(levels@)),
    ensures
        is_depth(r@, levels_view(levels@)),
{
    let prices: Vec<u64> = sorted_prices(levels);
    let ghost lv = levels_view(levels@);
    let mut out: Vec<PriceLevel> = Vec::new();
    let mut i: usize = 0;
    while i < prices.len()
        invariant
            i <= prices@.len(),
            lv == levels_view(levels@),
            totals_fit(lv),
            forall|p: u64| #[trigger] prices@.contains(p) <==> levels@.contains_key(p),
            out@.len() == i,
            forall|k: int|
                0 <= k < i ==> (#[trigger] out@[k]).price == prices@[k] && out@[k].total_amount
                    == level_total(lv[prices@[k]]),
        decreases prices@.len() - i,
    {
        let price: u64 = prices[i];
        proof {
            assert(prices@.contains(price));
            assert(lv.contains_key(price));
        }
        let total_amount: u64 = match levels.get(&price) {
            Some(level) => total_of(level),
            None => 0,
        };
        out.push(PriceLevel { price, total_amount });
        i = i + 1;
    }
    proof {
        assert forall|k: int| 0 <= k < out@.len() implies lv.contains_key(
            (#[trigger] out@[k]).price,
        ) by {
            assert(prices@.contains(prices@[k]));
        }
        assert forall|p: u64| #[trigger] lv.contains_key(p) <==> reports_price(out@, p) by {
            if lv.contains_key(p) {
                assert(prices@.contains(p));
                let k = choose|k: int| 0 <= k < prices@.len() && prices@[k] == p;
                assert(out@[k].price == p);
            }
            if reports_price(out@, p) {
                let k = choose|k: int| 0 <= k < out@.len() && (#[trigger] out@[k]).price == p;
                assert(prices@[k] == p);
                assert(prices@.contains(p));
            }
        }
    }
    out
}

/// How much rests at each price, lowest price first on both sides.
pub fn order_book_depth(book: &OrderBook) -> (r: OrderBookResponse)
    requires
        totals_fit(book@.bids),
        totals_fit(book@.asks),
    ensures
        r.symbol@ == book@.symbol,
        is_depth(r.bids@, book@.bids),
        is_depth(r.asks@, book@.asks),
{
    OrderBookResponse {
        symbol: book.symbol.clone(),
        bids: depth_of(&book.bids),
        asks: depth_of(&book.asks),
    }
}

/// A log's latest hash and how long the log is.
#[derive(Clone, Debug)]
pub struct LogRootResponse {
    pub root: Id32,
    pub len: u64,
}

/// A log of which the first `base_seq` entries are archived and `hot` are held has this root. Its
/// length counts both.
pub fn log_root(root: Id32, base_seq: u64, hot: usize) -> (r: LogRootResponse)
    requires
        base_seq + hot <= u64::MAX,
    ensures
        r.root == root,
        r.len == base_seq + hot,
{
    LogRootResponse { root, len: base_seq + hot as u64 }
}

/// Where the entries from `since` on begin among those held.
pub open spec fn hot_start(base_seq: u64, hot: nat, since: u64) -> nat {
    if since <= base_seq {
        0
    } else if since - base_seq >= hot {
        hot
    } else {
        (since - base_seq) as nat
    }
}

fn first_held(base_seq: u64, hot: usize, since: u64) -> (r: usize)
    ensures
        r == hot_start(base_seq, hot as nat, since),
{
    if since <= base_seq {
        return 0;
    }
    let skip: u64 = since - base_seq;
    if skip >= hot as u64 {
        hot
    } else {
        skip as usize
    }
}

/// Whether part of what is asked for is in the archive, given whether there is one.
pub fn spans_archive(base_seq: u64, since: u64, archive: bool) -> (r: bool)
    ensures
        r == (archive && since < base_seq),
{
    archive && since < base_seq
}

/// The receipts from `since` on: those from the archive, if any were asked for there, and those
/// held.
pub fn order_log_entries(
    held: &Vec<OrderReceipt>,
    base_seq: u64,
    since: u64,
    archived: Vec<OrderReceipt>,
) -> (r: Vec<OrderReceipt>)
    ensures
        receipts_view(r@) == receipts_view(archived@) + receipts_view(held@).skip(
            hot_start(base_seq, held@.len(), since) as int,
        ),
{
    let ghost front = receipts_view(archived@);
    let ghost hot = receipts_view(held@);
    let start: usize = first_held(base_seq, held.len(), since);
    let mut out: Vec<OrderReceipt> = archived;
    let mut i: usize = start;
    proof {
        assert(receipts_view(out@) =~= front + hot.subrange(start as int, start as int));
    }
    while i < held.len()
        invariant
            start <= i <= held@.len(),
            hot == receipts_view(held@),
            receipts_view(out@) == front + hot.subrange(start as int, i as int),
        decreases held@.len() - i,
    {
        let ghost before = receipts_view(out@);
        out.push(held[i].duplicate());
        proof {
            assert(receipts_view(out@) =~= before.push(hot[i as int]));
            assert(front + hot.subrange(start as int, i + 1) =~= before.push(hot[i as int]));
        }
        i = i + 1;
    }
    proof {
        assert(hot.subrange(start as int, held@.len() as int) =~= hot.skip(start as int));
    }
    out
}

/// The matches from `since` on: those from the archive, if any were asked for there, and those
/// held.
pub fn match_log_entries(
    held: &Vec<Match>,
    base_seq: u64,
    since: u64,
    archived: Vec<Match>,
) -> (r: Vec<Match>)
    ensures
        matches_view(r@) == matches_view(archived@) + matches_view(held@).skip(
            hot_start(base_seq, held@.len(), since) as int,
        ),
{
    let ghost front = matches_view(archived@);
    let ghost hot = matches_view(held@);
    let start: usize = first_held(base_seq, held.len(), since);
    let mut out: Vec<Match> = archived;
    let mut i: usize = start;
    proof {
        assert(matches_view(out@) =~= front + hot.subrange(start as int, start as int));
    }
    while i < held.len()
        invariant
            start <= i <= held@.len(),
            hot == matches_view(held@),
            matches_view(out@) == front + hot.subrange(start as int, i as int),
        decreases held@.len() - i,
    {
        let ghost before = matches_view(out@);
        out.push(held[i].duplicate());
        proof {
            assert(matches_view(out@) =~= before.push(hot[i as int]));
            assert(front + hot.subrange(start as int, i + 1) =~= before.push(hot[i as int]));
        }
        i = i + 1;
    }
    proof {
        assert(hot.subrange(start as int, held@.len() as int) =~= hot.skip(start as int));
    }
    out
}

/// What of the archive a read of receipts needs: nothing where the read does not reach it or there is
/// none.
pub open spec fn archived_receipts(
    base_seq: u64,
    since: u64,
    fetched: Option<Result<Vec<OrderReceipt>, String>>,
) -> Result<Seq<OrderReceipt>, Seq<char>> {
    if since >= base_seq {
        Ok(Seq::empty())
    } else {
        match fetched {
            None => Ok(Seq::empty()),
            Some(Ok(v)) => Ok(v@),
            Some(Err(e)) => Err(e@),
        }
    }
}

/// Reads receipts from `since` on, given what was fetched from the archive if there is one. Where the
/// read reaches the archive and the fetch failed the read fails: it is never cut short.
pub fn read_order_log(
    held: &Vec<OrderReceipt>,
    base_seq: u64,
    since: u64,
    fetched: Option<Result<Vec<OrderReceipt>, String>>,
) -> (r: Result<Vec<OrderReceipt>, String>)
    ensures
        match (r, archived_receipts(base_seq, since, fetched)) {
            (Ok(out), Ok(front)) => receipts_view(out@) == receipts_view(front) + receipts_view(held@).skip(
                hot_start(base_seq, held@.len(), since) as int,
            ),
            (Err(e), Err(why)) => e@ == why,
            _ => false,
        },
{
    let front: Vec<OrderReceipt> = if since >= base_seq {
        Vec::new()
    } else {
        match fetched {
            None => Vec::new(),
            Some(Ok(v)) => v,
            Some(Err(e)) => {
                return Err(e);
            },
        }
    };
    assert(archived_receipts(base_seq, since, fetched)->Ok_0 =~= front@);
    Ok(order_log_entries(held, base_seq, since, front))
}

/// What of the archive a read of matches needs: nothing where the read does not reach it or there is
/// none.
pub open spec fn archived_matches(
    base_seq: u64,
    since: u64,
    fetched: Option<Result<Vec<Match>, String>>,
) -> Result<Seq<Match>, Seq<char>> {
    if since >= base_seq {
        Ok(Seq::empty())
    } else {
        match fetched {
            None => Ok(Seq::empty()),
            Some(Ok(v)) => Ok(v@),
            Some(Err(e)) => Err(e@),
        }
    }
}

/// Reads matches from `since` on, given what was fetched from the archive if there is one. Where the
/// read reaches the archive and the fetch failed the read fails: it is never cut short.
pub fn read_match_log(
    held: &Vec<Match>,
    base_seq: u64,
    since: u64,
    fetched: Option<Result<Vec<Match>, String>>,
) -> (r: Result<Vec<Match>, String>)
    ensures
        match (r, archived_matches(base_seq, since, fetched)) {
            (Ok(out), Ok(front)) => matches_view(out@) == matches_view(front) + matches_view(held@).skip(
                hot_start(base_seq, held@.len(), since) as int,
            ),
            (Err(e), Err(why)) => e@ == why,
            _ => false,
        },
{
    let front: Vec<Match> = if since >= base_seq {
        Vec::new()
    } else {
        match fetched {
            None => Vec::new(),
            Some(Ok(v)) => v,
            Some(Err(e)) => {
                return Err(e);
            },
        }
    };
    assert(archived_matches(base_seq, since, fetched)->Ok_0 =~= front@);
    Ok(match_log_entries(held, base_seq, since, front))
}

/// What is read of a log does not depend on how much of it has been archived, as long as what was
/// archived is read from the archive.
pub proof fn law_reads_span_the_archive<T>(log: Seq<T>, base_seq: u64, since: u64)
    requires
        base_seq <= log.len(),
        since <= log.len(),
    ensures
        ({
            let base = base_seq as int;
            let held = log.skip(base);
            let archived = if since < base_seq {
                log.subrange(since as int, base)
            } else {
                Seq::empty()
            };
            archived + held.skip(hot_start(base_seq, held.len(), since) as int) == log.skip(
                since as int,
            )
        }),
{
    let base = base_seq as int;
    let held = log.skip(base);
    let archived = if since < base_seq {
        log.subrange(since as int, base)
    } else {
        Seq::empty()
    };
    assert(archived + held.skip(hot_start(base_seq, held.len(), since) as int) =~= log.skip(
        since as int,
    ));
}

/// Whether a trader took part in a match.
pub fn match_involves(m: &Match, trader: &Id32) -> (r: bool)
    ensures
        r == (m.maker_trader == *trader || m.taker_trader == *trader),
{
    same_id(&m.maker_trader, trader) || same_id(&m.taker_trader, trader)
}

/// Whether two texts are the same. How long this takes depends on their lengths alone.
pub fn constant_time_eq(a: &str, b: &str) -> (r: bool)
    ensures
        r == (a@ == b@),
{
    let x: &[u8] = a.as_bytes();
    let y: &[u8] = b.as_bytes();
    proof {
        encode_utf8_decode_utf8(a@);
        encode_utf8_decode_utf8(b@);
        assert((a@ == b@) <==> (x@ == y@));
    }
    if x.len() != y.len() {
        return false;
    }
    let mut acc: u8 = 0;
    let mut i: usize = 0;
    while i < x.len()
        invariant
            i <= x@.len(),
            x@.len() == y@.len(),
            (acc == 0) <==> (forall|k: int| 0 <= k < i ==> #[trigger] x@[k] == y@[k]),
        decreases x@.len() - i,
    {
        let p: u8 = x[i];
        let q: u8 = y[i];
        proof {
            assert((acc | (p ^ q)) == 0 <==> acc == 0 && p == q) by (bit_vector);
        }
        acc = acc | (p ^ q);
        i = i + 1;
    }
    proof {
        if acc == 0 {
            assert(x@ =~= y@);
        }
    }
    acc == 0
}

/// The digits of a key: the text without the prefixes that it may begin with.
pub open spec fn key_digits(s: Seq<char>) -> Seq<u8> {
    encode_utf8(stripped(stripped(s, '0', 'x'), '0', 'X'))
}

/// Parses a trader's key from hexadecimal text, with or without a prefix.
pub fn parse_trader_hex(s: &str) -> (r: Result<Id32, String>)
    ensures
        ({
            let digits = key_digits(s@);
            match r {
                Ok(id) => hex_valid(digits) && digits.len() == 64 && id@ == hex_bytes(digits),
                Err(e) => if hex_valid(digits) {
                    digits.len() != 64 && e@ == "expected 32 bytes, got "@ + decimal_text(
                        digits.len() / 2,
                    )
                } else {
                    exists|f: HexFault| #[trigger]
                        hex_fault(digits, f) && e@ == "invalid hex: "@ + fault_text(f)
                },
            }
        }),
{
    let once: &str = strip_pairs(s, '0', 'x');
    let twice: &str = strip_pairs(once, '0', 'X');
    let ghost digits = key_digits(s@);
    match hex_decode(twice.as_bytes()) {
        Err(f) => {
            let mut e: String = "invalid hex: ".to_owned();
            e.append(f.message().as_str());
            Err(e)
        },
        Ok(v) => {
            if v.len() != 32 {
                let mut e: String = "expected 32 bytes, got ".to_owned();
                push_decimal(&mut e, v.len() as u64);
                return Err(e);
            }
            let id: Id32 = crate::bytes::id_from_slice(v.as_slice());
            proof {
                assert(v@.take(32) =~= v@);
            }
            Ok(id)
        },
    }
}

/// What orders amount to adds up: nothing for none, an order's amount for one, and for two queues what
/// both amount to.
pub proof fn law_amounts_add_up(a: Seq<OrderSpec>, b: Seq<OrderSpec>, o: OrderSpec)
    ensures
        level_total(Seq::<OrderSpec>::empty()) == 0,
        level_total(seq![o]) == o.amount,
        level_total(a + b) == level_total(a) + level_total(b),
    decreases b.len(),
{
    assert(seq![o].drop_last() =~= Seq::empty());
    if b.len() > 0 {
        assert((a + b).drop_last() =~= a + b.drop_last());
        law_amounts_add_up(a, b.drop_last(), o);
    } else {
        assert(a + b =~= a);
    }
}

/// A read of receipts is never cut short. Of a log whose first `base_seq` entries are archived and the
/// others held, a read from `since` on gives all entries from there on, provided the archive was asked
/// for the part that it has; it fails exactly where it needs the archive and the archive failed.
pub proof fn law_receipt_reads_are_whole(
    log: Seq<OrderReceipt>,
    base_seq: u64,
    since: u64,
    fetched: Vec<OrderReceipt>,
    e: String,
)
    requires
        base_seq <= log.len(),
        since <= log.len(),
        since < base_seq ==> fetched@ == log.subrange(since as int, base_seq as int),
    ensures
        ({
            let held = log.skip(base_seq as int);
            let start = hot_start(base_seq, held.len(), since) as int;
            &&& archived_receipts(base_seq, since, Some(Ok(fetched))) matches Ok(a) && a
                + held.skip(start) == log.skip(since as int)
            &&& archived_receipts(base_seq, since, Some(Err(e))) is Err <==> since < base_seq
            &&& archived_receipts(base_seq, since, Some(Err(e))) matches Err(f) ==> f == e@
            &&& since >= base_seq ==> (archived_receipts(base_seq, since, None) matches Ok(a) && a
                + held.skip(start) == log.skip(since as int))
        }),
{
    law_reads_span_the_archive(log, base_seq, since);
}

/// A read of matches is never cut short, as one of receipts is not.
pub proof fn law_match_reads_are_whole(
    log: Seq<Match>,
    base_seq: u64,
    since: u64,
    fetched: Vec<Match>,
    e: String,
)
    requires
        base_seq <= log.len(),
        since <= log.len(),
        since < base_seq ==> fetched@ == log.subrange(since as int, base_seq as int),
    ensures
        ({
            let held = log.skip(base_seq as int);
            let start = hot_start(base_seq, held.len(), since) as int;
            &&& archived_matches(base_seq, since, Some(Ok(fetched))) matches Ok(a) && a + held.skip(
                start,
            ) == log.skip(since as int)
            &&& archived_matches(base_seq, since, Some(Err(e))) is Err <==> since < base_seq
            &&& archived_matches(base_seq, since, Some(Err(e))) matches Err(f) ==> f == e@
            &&& since >= base_seq ==> (archived_matches(base_seq, since, None) matches Ok(a) && a
                + held.skip(start) == log.skip(since as int))
        }),
{
    law_reads_span_the_archive(log, base_seq, since);
}

/// The reported depth leaves no price out and makes none up: every price of the side is reported once, with
/// what all of its orders come to together, the lower prices first.
pub proof fn law_depth_reports_every_level(
    r: Seq<PriceLevel>,
    levels: Map<u64, Seq<OrderSpec>>,
    p: u64,
    i: int,
    j: int,
)
    requires
        is_depth(r, levels),
    ensures
        0 <= i < j < r.len() ==> r[i].price < r[j].price,
        0 <= i < r.len() ==> levels.contains_key(r[i].price),
        levels.contains_key(p) ==> exists|k: int|
            0 <= k < r.len() && (#[trigger] r[k]).price == p && r[k].total_amount == level_total(
                levels[p],
            ),
{
    if levels.contains_key(p) {
        assert(reports_price(r, p));
        let k = choose|k: int| 0 <= k < r.len() && (#[trigger] r[k]).price == p;
        assert(r[k].total_amount == level_total(levels[p]));
    }
}

} // verus!
