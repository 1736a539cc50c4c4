//! What holds of every order book.

use crate::book::{
    best_first, better, book_after, book_has_id, book_without, crosses, crossing, cursor_at,
    fill_level, fill_prefix, holds_id, is_crossing, is_first_with, is_lowest_with, less,
    level_at, match_at, matches_after, matches_of, meet, meet_level, opposite_levels, own_levels, rest_order,
    node_at, side_has_id, side_without, sweep, sweep_prefix, BookSpec, Fill, OrderBook,
};
use crate::bytes::Id32;
use crate::types::{MatchSpec, OrderSide, OrderSpec, SettlementPreference, SettlementRequester};
use vstd::prelude::*;

verus! {

/// What a queue of orders offers in all.
pub open spec fn queue_amount(q: Seq<OrderSpec>) -> nat
    decreases q.len(),
{
    if q.len() == 0 {
        0
    } else {
        queue_amount(q.drop_last()) + q.last().amount as nat
    }
}

/// What fills trade in all.
pub open spec fn fill_amount(fills: Seq<Fill>) -> nat
    decreases fills.len(),
{
    if fills.len() == 0 {
        0
    } else {
        fill_amount(fills.drop_last()) + fills.last().amount as nat
    }
}

/// What fills trade at one price.
pub open spec fn fill_amount_at(fills: Seq<Fill>, price: u64) -> nat
    decreases fills.len(),
{
    if fills.len() == 0 {
        0
    } else if fills.last().price == price {
        fill_amount_at(fills.drop_last(), price) + fills.last().amount as nat
    } else {
        fill_amount_at(fills.drop_last(), price)
    }
}

proof fn lemma_queue_push(q: Seq<OrderSpec>, o: OrderSpec)
    ensures
        queue_amount(q.push(o)) == queue_amount(q) + o.amount,
{
    assert(q.push(o).drop_last() =~= q);
}

proof fn lemma_fill_push(fills: Seq<Fill>, f: Fill)
    ensures
        fill_amount(fills.push(f)) == fill_amount(fills) + f.amount,
{
    assert(fills.push(f).drop_last() =~= fills);
}

proof fn lemma_fills_add(a: Seq<Fill>, b: Seq<Fill>, price: u64)
    ensures
        fill_amount(a + b) == fill_amount(a) + fill_amount(b),
        fill_amount_at(a + b, price) == fill_amount_at(a, price) + fill_amount_at(b, price),
    decreases b.len(),
{
    if b.len() == 0 {
        assert(a + b =~= a);
    } else {
        assert((a + b).drop_last() =~= a + b.drop_last());
        lemma_fills_add(a, b.drop_last(), price);
    }
}

/// What is true of every fill that one level makes.
pub open spec fn fill_is_sound(f: Fill, price: u64, taker: Id32) -> bool {
    f.price == price && f.maker.trader != taker && f.amount <= f.maker.amount
}

/// What holds after the first `n` orders of a level have met the incoming one.
proof fn lemma_fill_prefix(level: Seq<OrderSpec>, price: u64, taker: Id32, left: u64, n: nat)
    requires
        n <= level.len(),
    ensures
        ({
            let s = fill_prefix(level, price, taker, left, n);
            &&& s.left + fill_amount(s.fills) == left
            &&& queue_amount(s.kept) + fill_amount(s.fills) == queue_amount(level.take(n as int))
            &&& forall|i: int|
                0 <= i < s.fills.len() ==> fill_is_sound(#[trigger] s.fills[i], price, taker)
            &&& forall|i: int|
                0 <= i < s.fills.len() ==> s.fills.len() - 1 == i || (
                #[trigger] s.fills[i]).amount == s.fills[i].maker.amount
            &&& s.left > 0 ==> forall|i: int|
                0 <= i < s.kept.len() ==> (#[trigger] s.kept[i]).trader == taker
            &&& s.left > 0 && s.fills.len() > 0 ==> s.fills.last().amount
                == s.fills.last().maker.amount
            &&& forall|i: int|
                0 <= i < s.kept.len() ==> trader_in(level, (#[trigger] s.kept[i]).trader)
            &&& fill_amount_at(s.fills, price) == fill_amount(s.fills)
            &&& forall|q: u64| q != price ==> #[trigger] fill_amount_at(s.fills, q) == 0
        }),
    decreases n,
{
    if n == 0 {
        assert(level.take(0) =~= Seq::empty());
    } else {
        let m = (n - 1) as nat;
        lemma_fill_prefix(level, price, taker, left, m);
        let s = fill_prefix(level, price, taker, left, m);
        let t = fill_prefix(level, price, taker, left, n);
        let maker = level[n - 1];
        assert(t == meet(s, price, maker, taker));
        assert(level.take(n as int) =~= level.take(m as int).push(maker));
        lemma_queue_push(level.take(m as int), maker);
        assert(trader_in(level, maker.trader)) by {
            assert(level[n - 1].trader == maker.trader);
        }
        if s.left == 0 || maker.trader == taker {
            lemma_queue_push(s.kept, maker);
        } else {
            let a = if s.left <= maker.amount {
                s.left
            } else {
                maker.amount
            };
            let f = Fill { price, maker, amount: a };
            lemma_fill_push(s.fills, f);
            assert(s.fills.push(f).drop_last() =~= s.fills);
            if maker.amount != a {
                lemma_queue_push(s.kept, less(maker, a));
            }
            assert forall|q: u64| q != price implies #[trigger] fill_amount_at(t.fills, q)
                == 0 by {
                assert(fill_amount_at(s.fills, q) == 0);
            }
        }
    }
}

/// Some order of the queue is this trader's.
pub open spec fn trader_in(q: Seq<OrderSpec>, trader: Id32) -> bool {
    exists|i: int| 0 <= i < q.len() && (#[trigger] q[i]).trader == trader
}

proof fn lemma_fill_level(level: Seq<OrderSpec>, price: u64, taker: Id32, left: u64)
    ensures
        ({
            let s = fill_level(level, price, taker, left);
            &&& s.left + fill_amount(s.fills) == left
            &&& queue_amount(s.kept) + fill_amount(s.fills) == queue_amount(level)
            &&& forall|i: int|
                0 <= i < s.fills.len() ==> fill_is_sound(#[trigger] s.fills[i], price, taker)
            &&& forall|i: int|
                0 <= i < s.fills.len() ==> s.fills.len() - 1 == i || (
                #[trigger] s.fills[i]).amount == s.fills[i].maker.amount
            &&& s.left > 0 ==> forall|i: int|
                0 <= i < s.kept.len() ==> (#[trigger] s.kept[i]).trader == taker
            &&& s.left > 0 && s.fills.len() > 0 ==> s.fills.last().amount
                == s.fills.last().maker.amount
            &&& forall|i: int|
                0 <= i < s.kept.len() ==> trader_in(level, (#[trigger] s.kept[i]).trader)
            &&& fill_amount_at(s.fills, price) == fill_amount(s.fills)
            &&& forall|q: u64| q != price ==> #[trigger] fill_amount_at(s.fills, q) == 0
        }),
{
    lemma_fill_prefix(level, price, taker, left, level.len());
    assert(level.take(level.len() as int) =~= level);
}

/// What a price offers.
pub open spec fn offered_at(levels: Map<u64, Seq<OrderSpec>>, price: u64) -> nat {
    queue_amount(level_at(levels, price))
}

/// What holds after the first `n` prices have met the incoming order.
pub open spec fn swept(
    levels: Map<u64, Seq<OrderSpec>>,
    prices: Seq<u64>,
    taker: Id32,
    left: u64,
    n: nat,
) -> bool {
    let s = sweep_prefix(levels, prices, taker, left, n);
    &&& s.left + fill_amount(s.fills) == left
    &&& forall|p: u64| #[trigger]
        offered_at(levels, p) == offered_at(s.levels, p) + fill_amount_at(s.fills, p)
    &&& forall|i: int|
        0 <= i < s.fills.len() ==> {
            &&& (#[trigger] s.fills[i]).maker.trader != taker
            &&& s.fills[i].amount <= s.fills[i].maker.amount
            &&& prices.take(n as int).contains(s.fills[i].price)
        }
    &&& forall|i: int|
        0 <= i < s.fills.len() ==> s.fills.len() - 1 == i || (#[trigger] s.fills[i]).amount
            == s.fills[i].maker.amount
    &&& s.left > 0 && s.fills.len() > 0 ==> s.fills.last().amount == s.fills.last().maker.amount
    &&& forall|p: u64|
        #![trigger s.levels.contains_key(p)]
        #![trigger s.levels[p]]
        !prices.take(n as int).contains(p) ==> s.levels.contains_key(p) == levels.contains_key(p)
            && s.levels[p] == levels[p]
    &&& forall|p: u64, i: int|
        s.left > 0 && prices.take(n as int).contains(p) && s.levels.contains_key(p) && 0 <= i
            < s.levels[p].len() ==> (#[trigger] s.levels[p][i]).trader == taker
    &&& forall|p: u64| #[trigger] s.levels.contains_key(p) ==> levels.contains_key(p)
    &&& forall|p: u64, i: int|
        s.levels.contains_key(p) && 0 <= i < s.levels[p].len() ==> trader_in(
            levels[p],
            (#[trigger] s.levels[p][i]).trader,
        )
    &&& (forall|p: u64| #[trigger] levels.contains_key(p) ==> levels[p].len() > 0) ==> forall|
        p: u64,
    | #[trigger]
        s.levels.contains_key(p) ==> s.levels[p].len() > 0
}

proof fn lemma_swept(
    levels: Map<u64, Seq<OrderSpec>>,
    prices: Seq<u64>,
    side: OrderSide,
    taker: Id32,
    left: u64,
    n: nat,
)
    requires
        n <= prices.len(),
        best_first(prices, side),
        forall|i: int| 0 <= i < prices.len() ==> levels.contains_key(#[trigger] prices[i]),
    ensures
        swept(levels, prices, taker, left, n),
        ({
            let s = sweep_prefix(levels, prices, taker, left, n);
            forall|i: int, j: int|
                0 <= i < j < s.fills.len() ==> (#[trigger] s.fills[i]).price == (
                #[trigger] s.fills[j]).price || better(side, s.fills[i].price, s.fills[j].price)
        }),
    decreases n,
{
    if n == 0 {
        let s = sweep_prefix(levels, prices, taker, left, 0);
        assert forall|p: u64, i: int|
            s.levels.contains_key(p) && 0 <= i < s.levels[p].len() implies trader_in(
            levels[p],
            (#[trigger] s.levels[p][i]).trader,
        ) by {
            assert(levels[p][i].trader == s.levels[p][i].trader);
        }
    } else {
        let m = (n - 1) as nat;
        lemma_swept(levels, prices, side, taker, left, m);
        let s = sweep_prefix(levels, prices, taker, left, m);
        let t = sweep_prefix(levels, prices, taker, left, n);
        let price = prices[n - 1];
        let done = prices.take(m as int);
        assert(prices.take(n as int) =~= done.push(price));
        assert(t == meet_level(s, price, taker));
        assert(!done.contains(price)) by {
            if done.contains(price) {
                let k = choose|k: int| 0 <= k < done.len() && done[k] == price;
                assert(better(side, prices[k], prices[n - 1]));
            }
        }
        assert(levels.contains_key(prices[n - 1]));
        assert(s.levels.contains_key(price) && s.levels[price] == levels[price]);
        assert forall|p: u64| #[trigger] prices.take(n as int).contains(p) <==> done.contains(p)
            || p == price by {
            if done.contains(p) {
                let k = choose|k: int| 0 <= k < done.len() && done[k] == p;
                assert(prices.take(n as int)[k] == p);
            }
            if p == price {
                assert(prices.take(n as int)[n - 1] == p);
            }
        }
        if s.left > 0 {
            let r = fill_level(s.levels[price], price, taker, s.left);
            lemma_fill_level(s.levels[price], price, taker, s.left);
            lemma_fills_add(s.fills, r.fills, price);
            assert forall|p: u64| #[trigger]
                offered_at(levels, p) == offered_at(t.levels, p) + fill_amount_at(t.fills, p) by {
                lemma_fills_add(s.fills, r.fills, p);
                assert(offered_at(levels, p) == offered_at(s.levels, p) + fill_amount_at(
                    s.fills,
                    p,
                ));
                if p == price {
                    assert(level_at(s.levels, p) == levels[price]);
                    if r.kept.len() == 0 {
                        assert(level_at(t.levels, p) == Seq::<OrderSpec>::empty());
                        assert(queue_amount(r.kept) == 0);
                    } else {
                        assert(level_at(t.levels, p) == r.kept);
                    }
                } else {
                    assert(level_at(t.levels, p) == level_at(s.levels, p));
                    assert(fill_amount_at(r.fills, p) == 0);
                }
            }
            assert forall|i: int| 0 <= i < t.fills.len() implies {
                &&& (#[trigger] t.fills[i]).maker.trader != taker
                &&& t.fills[i].amount <= t.fills[i].maker.amount
                &&& prices.take(n as int).contains(t.fills[i].price)
            } by {
                if i < s.fills.len() {
                    assert(t.fills[i] == s.fills[i]);
                } else {
                    assert(t.fills[i] == r.fills[i - s.fills.len()]);
                    assert(fill_is_sound(r.fills[i - s.fills.len()], price, taker));
                }
            }
            assert forall|i: int| 0 <= i < t.fills.len() implies t.fills.len() - 1 == i || (
            #[trigger] t.fills[i]).amount == t.fills[i].maker.amount by {
                if i < s.fills.len() {
                    assert(t.fills[i] == s.fills[i]);
                    if i == s.fills.len() - 1 {
                        assert(s.fills.last() == s.fills[i]);
                    }
                } else {
                    assert(t.fills[i] == r.fills[i - s.fills.len()]);
                }
            }
            if t.left > 0 && t.fills.len() > 0 {
                if r.fills.len() > 0 {
                    assert(t.fills.last() == r.fills.last());
                } else {
                    assert(t.fills.last() == s.fills.last());
                }
            }
            assert forall|p: u64, i: int|
                t.left > 0 && prices.take(n as int).contains(p) && t.levels.contains_key(p) && 0
                    <= i < t.levels[p].len() implies (#[trigger] t.levels[p][i]).trader
                == taker by {
                if p == price {
                    assert(t.levels[p] == r.kept);
                } else {
                    assert(done.contains(p));
                    assert(t.levels[p] == s.levels[p]);
                    assert(s.levels[p][i].trader == taker);
                }
            }
            assert forall|p: u64, i: int|
                t.levels.contains_key(p) && 0 <= i < t.levels[p].len() implies trader_in(
                levels[p],
                (#[trigger] t.levels[p][i]).trader,
            ) by {
                if p == price {
                    assert(t.levels[p] == r.kept);
                    assert(trader_in(s.levels[price], r.kept[i].trader));
                } else {
                    assert(t.levels[p] == s.levels[p]);
                    assert(trader_in(levels[p], s.levels[p][i].trader));
                }
            }
            assert forall|i: int, j: int| 0 <= i < j < t.fills.len() implies (
            #[trigger] t.fills[i]).price == (#[trigger] t.fills[j]).price || better(
                side,
                t.fills[i].price,
                t.fills[j].price,
            ) by {
                if j < s.fills.len() {
                    assert(t.fills[i] == s.fills[i] && t.fills[j] == s.fills[j]);
                } else {
                    assert(t.fills[j] == r.fills[j - s.fills.len()]);
                    assert(fill_is_sound(r.fills[j - s.fills.len()], price, taker));
                    if i < s.fills.len() {
                        assert(t.fills[i] == s.fills[i]);
                        assert(done.contains(s.fills[i].price));
                        let k = choose|k: int| 0 <= k < done.len() && done[k] == s.fills[i].price;
                        assert(better(side, prices[k], prices[n - 1]));
                    } else {
                        assert(t.fills[i] == r.fills[i - s.fills.len()]);
                        assert(fill_is_sound(r.fills[i - s.fills.len()], price, taker));
                    }
                }
            }
        } else {
            assert forall|i: int| 0 <= i < t.fills.len() implies prices.take(n as int).contains(
                (#[trigger] t.fills[i]).price,
            ) by {
                assert(done.contains(s.fills[i].price));
            }
        }
    }
}

/// Both sides of the book have finitely many prices, as those of every [`OrderBook`] do.
pub open spec fn finite_book(b: BookSpec) -> bool {
    b.bids.dom().finite() && b.asks.dom().finite()
}

/// The sides of an order book are finite.
pub proof fn law_books_are_finite(book: &OrderBook)
    ensures
        finite_book(book@),
{
    broadcast use vstd::std_specs::btree::group_btree_axioms;

    assert(book@.bids.dom() =~= book.bids@.dom());
    assert(book@.asks.dom() =~= book.asks@.dom());
}

/// `s` with `a` put where it belongs.
spec fn insert_price(s: Seq<u64>, a: u64, side: OrderSide) -> Seq<u64>
    decreases s.len(),
{
    if s.len() == 0 {
        seq![a]
    } else if better(side, s.last(), a) {
        s.push(a)
    } else {
        insert_price(s.drop_last(), a, side).push(s.last())
    }
}

proof fn lemma_insert_price(s: Seq<u64>, a: u64, side: OrderSide)
    requires
        best_first(s, side),
        !s.contains(a),
    ensures
        best_first(insert_price(s, a, side), side),
        forall|p: u64| #[trigger]
            insert_price(s, a, side).contains(p) <==> s.contains(p) || p == a,
        insert_price(s, a, side).len() == s.len() + 1,
    decreases s.len(),
{
    let t = insert_price(s, a, side);
    if s.len() == 0 {
        assert(t[0] == a);
    } else if better(side, s.last(), a) {
        assert forall|i: int, j: int| 0 <= i < j < t.len() implies better(
            side,
            #[trigger] t[i],
            #[trigger] t[j],
        ) by {
            if j == s.len() && i < s.len() - 1 {
                assert(better(side, s[i], s[s.len() - 1]));
            }
        }
        assert(t[s.len() as int] == a);
        assert forall|p: u64| #[trigger] t.contains(p) <==> s.contains(p) || p == a by {
            if s.contains(p) {
                let k = choose|k: int| 0 <= k < s.len() && s[k] == p;
                assert(t[k] == p);
            }
        }
    } else {
        let s1 = s.drop_last();
        assert(s.contains(s[s.len() - 1]));
        assert(!s1.contains(a)) by {
            if s1.contains(a) {
                let k = choose|k: int| 0 <= k < s1.len() && s1[k] == a;
                assert(s[k] == a);
            }
        }
        lemma_insert_price(s1, a, side);
        let t1 = insert_price(s1, a, side);
        assert forall|i: int, j: int| 0 <= i < j < t.len() implies better(
            side,
            #[trigger] t[i],
            #[trigger] t[j],
        ) by {
            if j == t.len() - 1 {
                assert(t1.contains(t1[i]));
                if t1[i] != a {
                    let k = choose|k: int| 0 <= k < s1.len() && s1[k] == t1[i];
                    assert(better(side, s[k], s[s.len() - 1]));
                }
            }
        }
        assert forall|p: u64| #[trigger] t.contains(p) <==> s.contains(p) || p == a by {
            if t.contains(p) {
                let k = choose|k: int| 0 <= k < t.len() && t[k] == p;
                if k < t1.len() {
                    assert(t1.contains(p));
                    if p != a {
                        let m = choose|m: int| 0 <= m < s1.len() && s1[m] == p;
                        assert(s[m] == p);
                    }
                } else {
                    assert(s[s.len() - 1] == p);
                }
            }
            if s.contains(p) || p == a {
                if p == s.last() {
                    assert(t[t.len() - 1] == p);
                } else {
                    if p != a {
                        let m = choose|m: int| 0 <= m < s.len() && s[m] == p;
                        assert(s1[m] == p);
                    }
                    assert(t1.contains(p));
                    let k = choose|k: int| 0 <= k < t1.len() && t1[k] == p;
                    assert(t[k] == p);
                }
            }
        }
    }
}

proof fn lemma_crossing_exists(dom: Set<u64>, side: OrderSide, limit: u64) -> (s: Seq<u64>)
    requires
        dom.finite(),
    ensures
        is_crossing(s, dom, side, limit),
    decreases dom.len(),
{
    if exists|p: u64| #[trigger] dom.contains(p) && crosses(side, limit, p) {
        let a = choose|p: u64| #[trigger] dom.contains(p) && crosses(side, limit, p);
        let rest = dom.remove(a);
        let t = lemma_crossing_exists(rest, side, limit);
        assert(!t.contains(a));
        lemma_insert_price(t, a, side);
        insert_price(t, a, side)
    } else {
        Seq::empty()
    }
}

/// The prices that an order trades at are listed, where there are finitely many.
proof fn lemma_crossing(dom: Set<u64>, side: OrderSide, limit: u64)
    requires
        dom.finite(),
    ensures
        is_crossing(crossing(dom, side, limit), dom, side, limit),
{
    let s = lemma_crossing_exists(dom, side, limit);
    assert(is_crossing(s, dom, side, limit));
}

/// What the lemmas on sweeps give for an order that comes into a book.
proof fn lemma_order_swept(b: BookSpec, o: OrderSpec)
    requires
        finite_book(b),
    ensures
        ({
            let levels = opposite_levels(b, o.side);
            let prices = crossing(levels.dom(), o.side, o.price);
            let s = sweep(levels, o);
            &&& is_crossing(prices, levels.dom(), o.side, o.price)
            &&& prices.take(prices.len() as int) == prices
            &&& swept(levels, prices, o.trader, o.amount, prices.len())
            &&& s == sweep_prefix(levels, prices, o.trader, o.amount, prices.len())
            &&& forall|i: int, j: int|
                0 <= i < j < s.fills.len() ==> (#[trigger] s.fills[i]).price == (
                #[trigger] s.fills[j]).price || better(o.side, s.fills[i].price, s.fills[j].price)
        }),
{
    let levels = opposite_levels(b, o.side);
    let prices = crossing(levels.dom(), o.side, o.price);
    lemma_crossing(levels.dom(), o.side, o.price);
    assert forall|i: int| 0 <= i < prices.len() implies levels.contains_key(
        #[trigger] prices[i],
    ) by {
        assert(prices.contains(prices[i]));
    }
    lemma_swept(levels, prices, o.side, o.trader, o.amount, prices.len());
    assert(prices.take(prices.len() as int) =~= prices);
}

/// What matches trade in all.
pub open spec fn match_amount(ms: Seq<MatchSpec>) -> nat
    decreases ms.len(),
{
    if ms.len() == 0 {
        0
    } else {
        match_amount(ms.drop_last()) + ms.last().amount as nat
    }
}

proof fn lemma_match_amount(ms: Seq<MatchSpec>, fills: Seq<Fill>)
    requires
        ms.len() == fills.len(),
        forall|i: int| 0 <= i < ms.len() ==> (#[trigger] ms[i]).amount == fills[i].amount,
    ensures
        match_amount(ms) == fill_amount(fills),
    decreases ms.len(),
{
    if ms.len() > 0 {
        lemma_match_amount(ms.drop_last(), fills.drop_last());
    }
}

/// Nothing is made or lost in matching: what an order asks for is what its matches trade and
/// what rests of it, what a price of the opposite side no longer offers is what was traded
/// there, and its own side gains exactly what rests.
pub proof fn law_matching_conserves_amounts(b: BookSpec, o: OrderSpec, timestamp_us: u64, price: u64)
    requires
        finite_book(b),
    ensures
        ({
            let s = sweep(opposite_levels(b, o.side), o);
            let after = book_after(b, o);
            &&& o.amount == match_amount(matches_after(b, o, timestamp_us)) + s.left
            &&& offered_at(opposite_levels(b, o.side), price) == offered_at(
                opposite_levels(after, o.side),
                price,
            ) + fill_amount_at(s.fills, price)
            &&& offered_at(own_levels(after, o.side), price) == offered_at(
                own_levels(b, o.side),
                price,
            ) + if price == o.price {
                s.left as nat
            } else {
                0
            }
        }),
{
    lemma_order_swept(b, o);
    let s = sweep(opposite_levels(b, o.side), o);
    lemma_match_amount(matches_after(b, o, timestamp_us), s.fills);
    assert(offered_at(opposite_levels(b, o.side), price) == offered_at(s.levels, price)
        + fill_amount_at(s.fills, price));
    let own = own_levels(b, o.side);
    if s.left > 0 {
        let rest = OrderSpec { amount: s.left, ..o };
        lemma_queue_push(level_at(own, o.price), rest);
        assert(level_at(rest_order(own, rest), o.price) == level_at(own, o.price).push(rest));
        if price != o.price {
            assert(level_at(rest_order(own, rest), price) == level_at(own, price));
        }
    }
}

/// A match trades at a price that the incoming order accepts, matches come best price first, no
/// trader trades with itself, and no match trades more than the resting order had.
pub proof fn law_matches_are_sound(b: BookSpec, o: OrderSpec, timestamp_us: u64, i: int, j: int)
    requires
        finite_book(b),
        0 <= i < matches_after(b, o, timestamp_us).len(),
        i < j < matches_after(b, o, timestamp_us).len() || i == j,
    ensures
        ({
            let ms = matches_after(b, o, timestamp_us);
            let fills = sweep(opposite_levels(b, o.side), o).fills;
            &&& crosses(o.side, o.price, ms[i].price)
            &&& opposite_levels(b, o.side).contains_key(ms[i].price)
            &&& ms[i].price == ms[j].price || better(o.side, ms[i].price, ms[j].price)
            &&& ms[i].maker_trader != ms[i].taker_trader
            &&& ms[i].taker_trader == o.trader
            &&& ms[i].taker_order_id == o.id
            &&& ms[i].amount <= fills[i].maker.amount
            &&& i < j ==> ms[i].amount == fills[i].maker.amount
        }),
{
    lemma_order_swept(b, o);
    let levels = opposite_levels(b, o.side);
    let prices = crossing(levels.dom(), o.side, o.price);
    let s = sweep(levels, o);
    let f = s.fills[i];
    assert(prices.contains(f.price));
    if i < j {
        let g = s.fills[j];
        assert(s.fills[i].amount == s.fills[i].maker.amount);
    }
}

/// While an order still has something left to trade, nothing that it could trade with rests in
/// the book: every resting order that it crosses is its own trader's.
pub proof fn law_leftover_means_nothing_to_trade(b: BookSpec, o: OrderSpec, price: u64, i: int)
    requires
        finite_book(b),
        sweep(opposite_levels(b, o.side), o).left > 0,
        opposite_levels(book_after(b, o), o.side).contains_key(price),
        crosses(o.side, o.price, price),
        0 <= i < opposite_levels(book_after(b, o), o.side)[price].len(),
    ensures
        opposite_levels(book_after(b, o), o.side)[price][i].trader == o.trader,
{
    lemma_order_swept(b, o);
    let levels = opposite_levels(b, o.side);
    let prices = crossing(levels.dom(), o.side, o.price);
    let s = sweep(levels, o);
    assert(levels.contains_key(price));
    assert(prices.contains(price));
    assert(s.levels[price][i].trader == o.trader);
}

/// No bid meets an ask of another trader.
pub open spec fn uncrossed(b: BookSpec) -> bool {
    forall|p: u64, i: int, q: u64, j: int|
        b.bids.contains_key(p) && 0 <= i < b.bids[p].len() && b.asks.contains_key(q) && 0 <= j
            < b.asks[q].len() && (#[trigger] b.bids[p][i]).trader != (
        #[trigger] b.asks[q][j]).trader ==> p < q
}

/// No price level is empty.
pub open spec fn no_empty_level(b: BookSpec) -> bool {
    &&& forall|p: u64| #[trigger] b.bids.contains_key(p) ==> b.bids[p].len() > 0
    &&& forall|p: u64| #[trigger] b.asks.contains_key(p) ==> b.asks[p].len() > 0
}

/// A book in which no bid meets an ask of another trader stays so, whatever order comes in.
pub proof fn law_book_stays_uncrossed(b: BookSpec, o: OrderSpec)
    requires
        finite_book(b),
        uncrossed(b),
    ensures
        uncrossed(book_after(b, o)),
{
    lemma_order_swept(b, o);
    let after = book_after(b, o);
    let opp = opposite_levels(b, o.side);
    let s = sweep(opp, o);
    assert forall|p: u64, i: int, q: u64, j: int|
        after.bids.contains_key(p) && 0 <= i < after.bids[p].len() && after.asks.contains_key(q)
            && 0 <= j < after.asks[q].len() && (#[trigger] after.bids[p][i]).trader != (
        #[trigger] after.asks[q][j]).trader implies p < q by {
        if o.side == OrderSide::Buy {
            let t = s.levels[q][j].trader;
            assert(trader_in(b.asks[q], t));
            let k = choose|k: int| 0 <= k < b.asks[q].len() && (#[trigger] b.asks[q][k]).trader
                == t;
            if s.left > 0 && p == o.price && i == level_at(b.bids, p).len() {
                if crosses(o.side, o.price, q) {
                    law_leftover_means_nothing_to_trade(b, o, q, j);
                }
            } else {
                assert(after.bids[p][i] == b.bids[p][i]);
                assert(b.bids[p][i].trader != b.asks[q][k].trader);
            }
        } else {
            let t = s.levels[p][i].trader;
            assert(trader_in(b.bids[p], t));
            let k = choose|k: int| 0 <= k < b.bids[p].len() && (#[trigger] b.bids[p][k]).trader
                == t;
            if s.left > 0 && q == o.price && j == level_at(b.asks, q).len() {
                if crosses(o.side, o.price, p) {
                    law_leftover_means_nothing_to_trade(b, o, p, i);
                }
            } else {
                assert(after.asks[q][j] == b.asks[q][j]);
                assert(b.bids[p][k].trader != b.asks[q][j].trader);
            }
        }
    }
}

/// Matching leaves no empty price level behind.
pub proof fn law_matching_leaves_no_empty_level(b: BookSpec, o: OrderSpec)
    requires
        finite_book(b),
        no_empty_level(b),
    ensures
        no_empty_level(book_after(b, o)),
        finite_book(book_after(b, o)),
{
    lemma_order_swept(b, o);
    law_order_keeps_book_finite(b, o);
}

/// An incoming order keeps the book finite.
pub proof fn law_order_keeps_book_finite(b: BookSpec, o: OrderSpec)
    requires
        finite_book(b),
    ensures
        finite_book(book_after(b, o)),
{
    lemma_order_swept(b, o);
    let opp = opposite_levels(b, o.side);
    let s = sweep(opp, o);
    assert(s.levels.dom().subset_of(opp.dom()));
    vstd::set_lib::lemma_set_subset_finite(opp.dom(), s.levels.dom());
    let own = own_levels(b, o.side);
    if s.left > 0 {
        let rest = OrderSpec { amount: s.left, ..o };
        assert(rest_order(own, rest).dom() =~= own.dom().insert(o.price));
    }
}

/// The nodes take turns: starting at `c`, the `k`-th match goes to the node `k` places further
/// on, counting round.
pub proof fn law_nodes_take_turns(nodes: Seq<Id32>, c: usize, k: nat)
    requires
        nodes.len() > 0,
        nodes.len() <= usize::MAX,
    ensures
        node_at(nodes, cursor_at(c, nodes.len(), k)) == nodes[((c + k) % (nodes.len() as int))],
    decreases k,
{
    lemma_cursor_value(c, nodes.len(), k);
}

proof fn lemma_cursor_value(c: usize, n: nat, k: nat)
    requires
        0 < n <= usize::MAX,
    ensures
        cursor_at(c, n, k) as nat % n == (c + k) as nat % n,
    decreases k,
{
    if k > 0 {
        lemma_cursor_value(c, n, (k - 1) as nat);
        let a = cursor_at(c, n, (k - 1) as nat) as nat;
        let e = (c + k - 1) as nat;
        vstd::arithmetic::div_mod::lemma_add_mod_noop(e as int, 1, n as int);
        vstd::arithmetic::div_mod::lemma_add_mod_noop(a as int, 1, n as int);
        vstd::arithmetic::div_mod::lemma_mod_twice((a % n + 1) as int, n as int);
        vstd::arithmetic::div_mod::lemma_add_mod_noop_right(1, e as int, n as int);
        vstd::arithmetic::div_mod::lemma_add_mod_noop_right(1, a as int, n as int);
    }
}

/// The book after a list of orders.
pub open spec fn book_after_all(b: BookSpec, orders: Seq<(OrderSpec, u64)>) -> BookSpec
    decreases orders.len(),
{
    if orders.len() == 0 {
        b
    } else {
        book_after(book_after_all(b, orders.drop_last()), orders.last().0)
    }
}

/// The matches that a list of orders, each with its time, makes.
pub open spec fn matches_after_all(b: BookSpec, orders: Seq<(OrderSpec, u64)>) -> Seq<MatchSpec>
    decreases orders.len(),
{
    if orders.len() == 0 {
        Seq::empty()
    } else {
        matches_after_all(b, orders.drop_last()) + matches_after(
            book_after_all(b, orders.drop_last()),
            orders.last().0,
            orders.last().1,
        )
    }
}

/// A second replica may have stamped the orders otherwise: the books still agree, and so does
/// every match in all but its time and its deadline.
pub proof fn law_replicas_agree(
    b: BookSpec,
    ours: Seq<(OrderSpec, u64)>,
    theirs: Seq<(OrderSpec, u64)>,
)
    requires
        ours.len() == theirs.len(),
        forall|i: int| 0 <= i < ours.len() ==> (#[trigger] ours[i]).0 == theirs[i].0,
    ensures
        book_after_all(b, ours) == book_after_all(b, theirs),
        matches_after_all(b, ours).len() == matches_after_all(b, theirs).len(),
        forall|i: int|
            0 <= i < matches_after_all(b, ours).len() ==> same_trade(
                #[trigger] matches_after_all(b, ours)[i],
                matches_after_all(b, theirs)[i],
            ),
        ours == theirs ==> matches_after_all(b, ours) == matches_after_all(b, theirs),
    decreases ours.len(),
{
    if ours.len() > 0 {
        law_replicas_agree(b, ours.drop_last(), theirs.drop_last());
        let mid = book_after_all(b, ours.drop_last());
        let o = ours.last().0;
        assert(theirs.last().0 == o) by {
            assert(ours[ours.len() - 1].0 == theirs[ours.len() - 1].0);
        }
        let x = matches_after_all(b, ours);
        let y = matches_after_all(b, theirs);
        let k = matches_after_all(b, ours.drop_last()).len();
        assert forall|i: int| 0 <= i < x.len() implies same_trade(#[trigger] x[i], y[i]) by {
            if i < k {
                assert(x[i] == matches_after_all(b, ours.drop_last())[i]);
                assert(y[i] == matches_after_all(b, theirs.drop_last())[i]);
            }
        }
    }
}

/// The same trade, whenever it was stamped.
pub open spec fn same_trade(a: MatchSpec, b: MatchSpec) -> bool {
    b == MatchSpec {
        timestamp_us: b.timestamp_us,
        settlement_deadline: b.settlement_deadline,
        ..a
    }
}

/// Which of two orders came first does not change the terms of their trade: tier, fee, seller
/// and fee payer follow from the sides alone.
pub proof fn law_terms_do_not_depend_on_arrival(
    b: BookSpec,
    buy: OrderSpec,
    sell: OrderSpec,
    price: u64,
    amount: u64,
    timestamp_us: u64,
    c: usize,
)
    requires
        buy.side == OrderSide::Buy,
        sell.side == OrderSide::Sell,
    ensures
        ({
            let x = match_at(b, buy, timestamp_us, Fill { price, maker: sell, amount }, c);
            let y = match_at(b, sell, timestamp_us, Fill { price, maker: buy, amount }, c);
            &&& x.settlement_tier == y.settlement_tier
            &&& x.fee_basis_points == y.fee_basis_points
            &&& x.seller == sell.trader && y.seller == sell.trader
            &&& x.fee_payer == buy.trader && y.fee_payer == buy.trader
            &&& x.settlement_deadline == y.settlement_deadline
        }),
{
}

/// At most one order of the side has this id.
pub open spec fn side_id_unique(levels: Map<u64, Seq<OrderSpec>>, id: Id32) -> bool {
    forall|p: u64, i: int, q: u64, j: int|
        levels.contains_key(p) && 0 <= i < levels[p].len() && levels.contains_key(q) && 0 <= j
            < levels[q].len() && (#[trigger] levels[p][i]).id == id && (#[trigger] levels[q][j]).id
            == id ==> p == q && i == j
}

/// An order can be withdrawn once: afterwards no order has its id, where at most one had it.
pub proof fn law_cancel_only_once(b: BookSpec, id: Id32)
    requires
        side_id_unique(b.bids, id),
        side_id_unique(b.asks, id),
        !(side_has_id(b.bids, id) && side_has_id(b.asks, id)),
    ensures
        !book_has_id(book_without(b, id), id),
{
    if side_has_id(b.bids, id) {
        lemma_side_without(b.bids, id);
    } else if side_has_id(b.asks, id) {
        lemma_side_without(b.asks, id);
    }
}

proof fn lemma_lowest_exists(levels: Map<u64, Seq<OrderSpec>>, id: Id32, p: u64) -> (r: u64)
    requires
        holds_id(levels, id, p),
    ensures
        is_lowest_with(levels, id, r),
    decreases p,
{
    if exists|q: u64| #[trigger] holds_id(levels, id, q) && q < p {
        let q = choose|q: u64| #[trigger] holds_id(levels, id, q) && q < p;
        lemma_lowest_exists(levels, id, q)
    } else {
        p
    }
}

proof fn lemma_first_exists(level: Seq<OrderSpec>, id: Id32, i: int) -> (r: int)
    requires
        0 <= i < level.len(),
        level[i].id == id,
    ensures
        is_first_with(level, id, r),
    decreases i,
{
    if exists|j: int| 0 <= j < i && (#[trigger] level[j]).id == id {
        let j = choose|j: int| 0 <= j < i && (#[trigger] level[j]).id == id;
        lemma_first_exists(level, id, j)
    } else {
        i
    }
}

proof fn lemma_side_without(levels: Map<u64, Seq<OrderSpec>>, id: Id32)
    requires
        side_has_id(levels, id),
        side_id_unique(levels, id),
    ensures
        !side_has_id(side_without(levels, id), id),
{
    let p0 = choose|p: u64| #[trigger] holds_id(levels, id, p);
    let p1 = lemma_lowest_exists(levels, id, p0);
    let p = choose|p: u64| is_lowest_with(levels, id, p);
    assert(is_lowest_with(levels, id, p));
    let i0 = choose|i: int| 0 <= i < levels[p].len() && (#[trigger] levels[p][i]).id == id;
    let i1 = lemma_first_exists(levels[p], id, i0);
    let i = choose|i: int| is_first_with(levels[p], id, i);
    assert(is_first_with(levels[p], id, i));
    let after = side_without(levels, id);
    let l = levels[p].remove(i);
    assert forall|q: u64| !#[trigger] holds_id(after, id, q) by {
        if holds_id(after, id, q) {
            let j = choose|j: int| 0 <= j < after[q].len() && (#[trigger] after[q][j]).id == id;
            if q == p {
                let k = if j < i {
                    j
                } else {
                    j + 1
                };
                assert(l[j] == levels[p][k]);
                assert(levels[p][k].id == id && levels[p][i].id == id);
            } else {
                assert(levels[q][j].id == id && levels[p][i].id == id);
            }
        }
    }
}

proof fn lemma_left_shrinks(level: Seq<OrderSpec>, price: u64, taker: Id32, left: u64, i: nat, j: nat)
    requires
        i <= j,
    ensures
        fill_prefix(level, price, taker, left, j).left <= fill_prefix(
            level,
            price,
            taker,
            left,
            i,
        ).left,
    decreases j,
{
    if i < j {
        lemma_left_shrinks(level, price, taker, left, i, (j - 1) as nat);
    }
}

/// Time priority: an order in the queue trades only once every older order of another trader
/// than the incoming one's has traded in full.
pub proof fn law_older_orders_trade_first(
    level: Seq<OrderSpec>,
    price: u64,
    taker: Id32,
    left: u64,
    i: nat,
    j: nat,
)
    requires
        i < j < level.len(),
        level[i as int].trader != taker,
        fill_prefix(level, price, taker, left, j + 1).left < fill_prefix(
            level,
            price,
            taker,
            left,
            j,
        ).left,
    ensures
        fill_prefix(level, price, taker, left, i).left - fill_prefix(
            level,
            price,
            taker,
            left,
            i + 1,
        ).left == level[i as int].amount,
{
    lemma_left_shrinks(level, price, taker, left, i + 1, j);
}

/// What rests at a price; nothing where there is no level.
pub open spec fn resting(levels: Map<u64, Seq<OrderSpec>>, price: u64) -> Seq<OrderSpec> {
    if levels.contains_key(price) {
        levels[price]
    } else {
        Seq::empty()
    }
}

/// At most one order of the book has this id.
pub open spec fn book_id_unique(b: BookSpec, id: Id32) -> bool {
    &&& side_id_unique(b.bids, id)
    &&& side_id_unique(b.asks, id)
    &&& forall|p: u64, i: int, q: u64, j: int|
        b.bids.contains_key(p) && 0 <= i < b.bids[p].len() && b.asks.contains_key(q) && 0 <= j
            < b.asks[q].len() && (#[trigger] b.bids[p][i]).id == id ==> (
        #[trigger] b.asks[q][j]).id != id
}

proof fn lemma_remove_filtered(q: Seq<OrderSpec>, id: Id32, i: int)
    requires
        0 <= i < q.len(),
        q[i].id == id,
    ensures
        q.remove(i).filter(|o: OrderSpec| o.id != id) == q.filter(|o: OrderSpec| o.id != id),
{
    let keep = |o: OrderSpec| o.id != id;
    let l = q.take(i);
    let r = q.skip(i + 1);
    assert(q =~= l + seq![q[i]] + r);
    assert(q.remove(i) =~= l + r);
    Seq::filter_distributes_over_add(l + seq![q[i]], r, keep);
    Seq::filter_distributes_over_add(l, seq![q[i]], keep);
    Seq::filter_distributes_over_add(l, r, keep);
    assert(seq![q[i]].filter(keep) =~= Seq::empty()) by {
        let none = Seq::<OrderSpec>::empty();
        none.lemma_filter_push(q[i], keep);
        assert(seq![q[i]] =~= none.push(q[i]));
        reveal(Seq::filter);
    }
    assert(l.filter(keep) + Seq::empty() =~= l.filter(keep));
}

proof fn lemma_filter_all(q: Seq<OrderSpec>, keep: spec_fn(OrderSpec) -> bool)
    requires
        forall|i: int| 0 <= i < q.len() ==> keep(#[trigger] q[i]),
    ensures
        q.filter(keep) == q,
    decreases q.len(),
{
    reveal(Seq::filter);
    if q.len() > 0 {
        let t = q.drop_last();
        assert forall|i: int| 0 <= i < t.len() implies keep(#[trigger] t[i]) by {
            assert(t[i] == q[i]);
        }
        lemma_filter_all(t, keep);
        assert(keep(q[q.len() - 1]));
        assert(t.push(q.last()) =~= q);
    } else {
        assert(q.filter(keep) =~= q);
    }
}

proof fn lemma_side_without_keeps(levels: Map<u64, Seq<OrderSpec>>, id: Id32) -> (r: (u64, int))
    requires
        side_has_id(levels, id),
    ensures
        levels.contains_key(r.0),
        0 <= r.1 < levels[r.0].len(),
        levels[r.0][r.1].id == id,
        side_without(levels, id) == levels.insert(r.0, levels[r.0].remove(r.1)),
        forall|p: u64|
            resting(side_without(levels, id), p).filter(|o: OrderSpec| o.id != id)
                == (#[trigger] resting(levels, p)).filter(|o: OrderSpec| o.id != id),
{
    let p0 = choose|p: u64| #[trigger] holds_id(levels, id, p);
    let p1 = lemma_lowest_exists(levels, id, p0);
    let p = choose|p: u64| is_lowest_with(levels, id, p);
    assert(is_lowest_with(levels, id, p));
    let i0 = choose|i: int| 0 <= i < levels[p].len() && (#[trigger] levels[p][i]).id == id;
    let i1 = lemma_first_exists(levels[p], id, i0);
    let i = choose|i: int| is_first_with(levels[p], id, i);
    assert(is_first_with(levels[p], id, i));
    lemma_remove_filtered(levels[p], id, i);
    (p, i)
}

proof fn lemma_none_filtered(levels: Map<u64, Seq<OrderSpec>>, id: Id32, p: u64)
    requires
        !side_has_id(levels, id),
    ensures
        resting(levels, p).filter(|o: OrderSpec| o.id != id) == resting(levels, p),
{
    let q = resting(levels, p);
    let keep = |o: OrderSpec| o.id != id;
    assert forall|i: int| 0 <= i < q.len() implies keep(#[trigger] q[i]) by {
        if q[i].id == id {
            assert(levels[p][i].id == id);
            assert(holds_id(levels, id, p));
        }
    }
    lemma_filter_all(q, keep);
}

/// Cancelling an id keeps every other order. At every price of both sides the orders with other ids
/// are afterwards those that were there before, in the same sequence; where at most one order of the
/// book had the id, they are all that is there. The prices, the terms and the turn among the nodes
/// stay as they are.
pub proof fn law_cancel_keeps_other_orders(b: BookSpec, id: Id32, price: u64)
    ensures
        ({
            let a = book_without(b, id);
            let other = |o: OrderSpec| o.id != id;
            &&& resting(a.bids, price).filter(other) == resting(b.bids, price).filter(other)
            &&& resting(a.asks, price).filter(other) == resting(b.asks, price).filter(other)
            &&& book_id_unique(b, id) ==> resting(a.bids, price) == resting(b.bids, price).filter(
                other,
            ) && resting(a.asks, price) == resting(b.asks, price).filter(other)
            &&& a.bids.dom() == b.bids.dom()
            &&& a.asks.dom() == b.asks.dom()
            &&& a == (BookSpec { bids: a.bids, asks: a.asks, ..b })
        }),
{
    let a = book_without(b, id);
    let other = |o: OrderSpec| o.id != id;
    if side_has_id(b.bids, id) {
        let (p, i) = lemma_side_without_keeps(b.bids, id);
        assert(a.bids.dom() =~= b.bids.dom());
        if book_id_unique(b, id) {
            lemma_side_without(b.bids, id);
            lemma_none_filtered(a.bids, id, price);
            assert(!side_has_id(b.asks, id)) by {
                if side_has_id(b.asks, id) {
                    let q = choose|q: u64| #[trigger] holds_id(b.asks, id, q);
                    let j = choose|j: int|
                        0 <= j < b.asks[q].len() && (#[trigger] b.asks[q][j]).id == id;
                    assert(b.bids[p][i].id == id);
                    assert(b.asks[q][j].id != id);
                }
            }
            lemma_none_filtered(b.asks, id, price);
        }
    } else {
        lemma_none_filtered(b.bids, id, price);
        if side_has_id(b.asks, id) {
            let (p, i) = lemma_side_without_keeps(b.asks, id);
            assert(a.asks.dom() =~= b.asks.dom());
            if book_id_unique(b, id) {
                lemma_side_without(b.asks, id);
                lemma_none_filtered(a.asks, id, price);
            }
        } else {
            lemma_none_filtered(b.asks, id, price);
        }
    }
}

/// Cancelling finds an order exactly where one has the id, and takes one such order out: one price of
/// one side holds one order fewer, and all other queues are untouched.
pub proof fn law_cancel_takes_one_order(b: BookSpec, id: Id32)
    ensures
        ({
            let a = book_without(b, id);
            let there = (exists|p: u64, i: int|
                b.bids.contains_key(p) && 0 <= i < b.bids[p].len() && (
                #[trigger] b.bids[p][i]).id == id) || (exists|p: u64, i: int|
                b.asks.contains_key(p) && 0 <= i < b.asks[p].len() && (
                #[trigger] b.asks[p][i]).id == id);
            &&& book_has_id(b, id) == there
            &&& !there ==> a == b
            &&& there ==> exists|p: u64, i: int|
                {
                    ||| b.bids.contains_key(p) && 0 <= i < b.bids[p].len() && (
                    #[trigger] b.bids[p][i]).id == id && a.asks == b.asks && a.bids
                        == b.bids.insert(p, b.bids[p].remove(i))
                    ||| b.asks.contains_key(p) && 0 <= i < b.asks[p].len() && b.asks[p][i].id == id
                        && a.bids == b.bids && a.asks == b.asks.insert(p, b.asks[p].remove(i))
                }
        }),
{
    let a = book_without(b, id);
    assert forall|p: u64, i: int|
        b.bids.contains_key(p) && 0 <= i < b.bids[p].len() && (#[trigger] b.bids[p][i]).id
            == id implies side_has_id(b.bids, id) by {
        assert(holds_id(b.bids, id, p));
    }
    assert forall|p: u64, i: int|
        b.asks.contains_key(p) && 0 <= i < b.asks[p].len() && (#[trigger] b.asks[p][i]).id
            == id implies side_has_id(b.asks, id) by {
        assert(holds_id(b.asks, id, p));
    }
    if side_has_id(b.bids, id) {
        let (p, i) = lemma_side_without_keeps(b.bids, id);
        assert(b.bids[p][i].id == id);
    } else if side_has_id(b.asks, id) {
        let (p, i) = lemma_side_without_keeps(b.asks, id);
        assert(b.asks[p][i].id == id);
        let x = b.bids[p][i];
        assert(b.asks.contains_key(p) && a.bids == b.bids);
    }
}

/// The orders of a queue that are another trader's, each by its id, its trader and its amount.
pub open spec fn sold_from(q: Seq<OrderSpec>, taker: Id32) -> Seq<(Id32, Id32, u64)> {
    q.filter(|o: OrderSpec| o.trader != taker).map_values(
        |o: OrderSpec| (o.id, o.trader, o.amount),
    )
}

/// The matches at a price, each by its maker's order, its maker and its amount.
pub open spec fn traded_at(ms: Seq<MatchSpec>, price: u64) -> Seq<(Id32, Id32, u64)> {
    ms.filter(|m: MatchSpec| m.price == price).map_values(
        |m: MatchSpec| (m.maker_order_id, m.maker_trader, m.amount),
    )
}

/// A queue has been traded with from its head on: the first `c` orders, but for the taker's own,
/// which stay, have traded in full and are gone; of the next one `part` has traded, where that is not
/// zero; all behind are untouched. `traded` lists what has traded.
pub open spec fn traded_from_head(
    before: Seq<OrderSpec>,
    after: Seq<OrderSpec>,
    traded: Seq<(Id32, Id32, u64)>,
    taker: Id32,
    c: int,
    part: u64,
) -> bool {
    let own = |o: OrderSpec| o.trader == taker;
    &&& 0 <= c <= before.len()
    &&& if part == 0 {
        &&& after == before.take(c).filter(own) + before.skip(c)
        &&& traded == sold_from(before.take(c), taker)
    } else {
        &&& c < before.len()
        &&& before[c].trader != taker
        &&& part < before[c].amount
        &&& after == before.take(c).filter(own) + seq![
            OrderSpec { amount: (before[c].amount - part) as u64, ..before[c] },
        ] + before.skip(c + 1)
        &&& traded == sold_from(before.take(c), taker).push((before[c].id, before[c].trader, part))
    }
}

/// Fills, each by its maker's order, its maker and its amount.
spec fn fills_listed(fills: Seq<Fill>) -> Seq<(Id32, Id32, u64)> {
    Seq::new(fills.len(), |i: int| (fills[i].maker.id, fills[i].maker.trader, fills[i].amount))
}

proof fn lemma_sold_push(q: Seq<OrderSpec>, taker: Id32, o: OrderSpec)
    ensures
        sold_from(q.push(o), taker) == if o.trader != taker {
            sold_from(q, taker).push((o.id, o.trader, o.amount))
        } else {
            sold_from(q, taker)
        },
        q.push(o).filter(|x: OrderSpec| x.trader == taker) == if o.trader == taker {
            q.filter(|x: OrderSpec| x.trader == taker).push(o)
        } else {
            q.filter(|x: OrderSpec| x.trader == taker)
        },
{
    let theirs = |x: OrderSpec| x.trader != taker;
    let own = |x: OrderSpec| x.trader == taker;
    q.lemma_filter_push(o, theirs);
    q.lemma_filter_push(o, own);
    if o.trader != taker {
        assert(sold_from(q.push(o), taker) =~= sold_from(q, taker).push(
            (o.id, o.trader, o.amount),
        ));
    }
}

proof fn lemma_fill_from_head(
    level: Seq<OrderSpec>,
    price: u64,
    taker: Id32,
    left: u64,
    n: nat,
) -> (r: (int, u64))
    requires
        n <= level.len(),
    ensures
        ({
            let s = fill_prefix(level, price, taker, left, n);
            &&& traded_from_head(
                level.take(n as int),
                s.kept,
                fills_listed(s.fills),
                taker,
                r.0,
                r.1,
            )
            &&& s.left > 0 ==> r.0 == n && r.1 == 0
        }),
    decreases n,
{
    let own = |o: OrderSpec| o.trader == taker;
    let q = level.take(n as int);
    let s = fill_prefix(level, price, taker, left, n);
    if n == 0 {
        assert(q.take(0) =~= Seq::empty());
        assert(q.skip(0) =~= Seq::empty());
        reveal(Seq::filter);
        assert(s.kept =~= q.take(0).filter(own) + q.skip(0));
        assert(fills_listed(s.fills) =~= sold_from(q.take(0), taker));
        (0, 0)
    } else {
        let m = (n - 1) as nat;
        let (c, part) = lemma_fill_from_head(level, price, taker, left, m);
        let p = level.take(m as int);
        let t = fill_prefix(level, price, taker, left, m);
        let o = level[m as int];
        assert(q =~= p.push(o));
        assert(q.take(n as int) =~= q);
        assert(q.skip(n as int) =~= Seq::empty());
        lemma_sold_push(p, taker, o);
        if t.left > 0 {
            assert(p.take(m as int) =~= p);
            assert(p.skip(m as int) =~= Seq::empty());
            assert(t.kept =~= p.filter(own));
            assert(fills_listed(t.fills) == sold_from(p, taker));
            if o.trader == taker {
                assert(s.kept =~= q.filter(own) + Seq::empty());
                (n as int, 0)
            } else {
                let a = if t.left <= o.amount {
                    t.left
                } else {
                    o.amount
                };
                assert(fills_listed(s.fills) =~= fills_listed(t.fills).push((o.id, o.trader, a)));
                if a == o.amount {
                    assert(s.kept =~= q.filter(own) + Seq::empty());
                    (n as int, 0)
                } else {
                    assert(q.take(m as int) =~= p);
                    assert(q.skip(n as int) =~= Seq::empty());
                    assert(s.kept =~= p.filter(own) + seq![
                        OrderSpec { amount: (o.amount - a) as u64, ..o },
                    ] + Seq::empty());
                    (m as int, a)
                }
            }
        } else {
            assert(q.take(c) =~= p.take(c));
            assert(q.skip(c) =~= p.skip(c).push(o));
            if part > 0 {
                assert(q.skip(c + 1) =~= p.skip(c + 1).push(o));
                assert(q[c] == p[c]);
                let head = p.take(c).filter(own) + seq![
                    OrderSpec { amount: (p[c].amount - part) as u64, ..p[c] },
                ];
                assert((head + p.skip(c + 1)).push(o) =~= head + q.skip(c + 1));
            } else {
                assert((p.take(c).filter(own) + p.skip(c)).push(o) =~= q.take(c).filter(own)
                    + q.skip(c));
            }
            (c, part)
        }
    }
}

proof fn lemma_fills_elsewhere(fills: Seq<Fill>, price: u64)
    requires
        forall|i: int| 0 <= i < fills.len() ==> (#[trigger] fills[i]).price != price,
    ensures
        fills.filter(|f: Fill| f.price == price) == Seq::<Fill>::empty(),
    decreases fills.len(),
{
    let at = |f: Fill| f.price == price;
    reveal(Seq::filter);
    if fills.len() > 0 {
        let t = fills.drop_last();
        assert forall|i: int| 0 <= i < t.len() implies (#[trigger] t[i]).price != price by {
            assert(t[i] == fills[i]);
        }
        lemma_fills_elsewhere(t, price);
        assert(fills[fills.len() - 1].price != price);
    }
}

proof fn lemma_fills_here(fills: Seq<Fill>, price: u64)
    requires
        forall|i: int| 0 <= i < fills.len() ==> (#[trigger] fills[i]).price == price,
    ensures
        fills.filter(|f: Fill| f.price == price) == fills,
    decreases fills.len(),
{
    let at = |f: Fill| f.price == price;
    reveal(Seq::filter);
    if fills.len() > 0 {
        let t = fills.drop_last();
        assert forall|i: int| 0 <= i < t.len() implies (#[trigger] t[i]).price == price by {
            assert(t[i] == fills[i]);
        }
        lemma_fills_here(t, price);
        assert(fills[fills.len() - 1].price == price);
        assert(t.push(fills.last()) =~= fills);
    } else {
        assert(fills.filter(at) =~= fills);
    }
}

/// What a sweep has done at one of its prices.
spec fn swept_at(
    levels: Map<u64, Seq<OrderSpec>>,
    prices: Seq<u64>,
    taker: Id32,
    left: u64,
    n: nat,
    i: int,
) -> bool {
    let p = prices[i];
    let s = sweep_prefix(levels, prices, taker, left, n);
    let l = sweep_prefix(levels, prices, taker, left, i as nat).left;
    let r = fill_level(levels[p], p, taker, l);
    let at = |f: Fill| f.price == p;
    &&& l == 0 ==> s.levels.contains_key(p) && s.levels[p] == levels[p] && s.fills.filter(at)
        == Seq::<Fill>::empty()
    &&& l > 0 ==> resting(s.levels, p) == r.kept && s.fills.filter(at) == r.fills
}

proof fn lemma_swept_at(
    levels: Map<u64, Seq<OrderSpec>>,
    prices: Seq<u64>,
    side: OrderSide,
    taker: Id32,
    left: u64,
    n: nat,
    i: int,
)
    requires
        0 <= i < n <= prices.len(),
        best_first(prices, side),
        forall|k: int| 0 <= k < prices.len() ==> levels.contains_key(#[trigger] prices[k]),
    ensures
        swept_at(levels, prices, taker, left, n, i),
    decreases n,
{
    let p = prices[i];
    let at = |f: Fill| f.price == p;
    let m = (n - 1) as nat;
    let price = prices[m as int];
    let t = sweep_prefix(levels, prices, taker, left, m);
    let s = sweep_prefix(levels, prices, taker, left, n);
    lemma_swept(levels, prices, side, taker, left, m);
    if i < m {
        lemma_swept_at(levels, prices, side, taker, left, m, i);
        assert(better(side, prices[i], prices[m as int]));
        if t.left > 0 {
            let done = prices.take(m as int);
            assert(!done.contains(price)) by {
                if done.contains(price) {
                    let k = choose|k: int| 0 <= k < done.len() && done[k] == price;
                    assert(better(side, prices[k], prices[m as int]));
                }
            }
            let r = fill_level(t.levels[price], price, taker, t.left);
            lemma_fill_level(t.levels[price], price, taker, t.left);
            assert forall|k: int| 0 <= k < r.fills.len() implies (#[trigger] r.fills[k]).price
                != p by {
                assert(fill_is_sound(r.fills[k], price, taker));
            }
            lemma_fills_elsewhere(r.fills, p);
            Seq::filter_distributes_over_add(t.fills, r.fills, at);
            assert(t.fills.filter(at) + Seq::<Fill>::empty() =~= t.fills.filter(at));
        }
    } else {
        let done = prices.take(m as int);
        assert(!done.contains(price)) by {
            if done.contains(price) {
                let k = choose|k: int| 0 <= k < done.len() && done[k] == price;
                assert(better(side, prices[k], prices[m as int]));
            }
        }
        assert(levels.contains_key(prices[m as int]));
        assert(t.levels.contains_key(price) && t.levels[price] == levels[price]);
        assert forall|k: int| 0 <= k < t.fills.len() implies (#[trigger] t.fills[k]).price != p by {
            assert(done.contains(t.fills[k].price));
        }
        lemma_fills_elsewhere(t.fills, p);
        if t.left > 0 {
            let r = fill_level(levels[price], price, taker, t.left);
            lemma_fill_level(levels[price], price, taker, t.left);
            assert forall|k: int| 0 <= k < r.fills.len() implies (#[trigger] r.fills[k]).price
                == p by {
                assert(fill_is_sound(r.fills[k], price, taker));
            }
            lemma_fills_here(r.fills, p);
            Seq::filter_distributes_over_add(t.fills, r.fills, at);
            assert(Seq::<Fill>::empty() + r.fills =~= r.fills);
            if r.kept.len() == 0 {
                assert(resting(s.levels, p) =~= r.kept);
            }
        }
    }
}

proof fn lemma_match_list(
    b: BookSpec,
    o: OrderSpec,
    timestamp_us: u64,
    fills: Seq<Fill>,
    price: u64,
)
    ensures
        traded_at(matches_of(b, o, timestamp_us, fills), price) == fills_listed(
            fills.filter(|f: Fill| f.price == price),
        ),
    decreases fills.len(),
{
    let at = |f: Fill| f.price == price;
    let mat = |m: MatchSpec| m.price == price;
    let ms = matches_of(b, o, timestamp_us, fills);
    reveal(Seq::filter);
    if fills.len() > 0 {
        let t = fills.drop_last();
        lemma_match_list(b, o, timestamp_us, t, price);
        let ns = matches_of(b, o, timestamp_us, t);
        assert(ms.drop_last() =~= ns);
        let f = fills.last();
        if f.price == price {
            assert(traded_at(ms, price) =~= traded_at(ns, price).push(
                (f.maker.id, f.maker.trader, f.amount),
            ));
            assert(fills_listed(fills.filter(at)) =~= fills_listed(t.filter(at)).push(
                (f.maker.id, f.maker.trader, f.amount),
            ));
        }
    } else {
        assert(traded_at(ms, price) =~= fills_listed(fills.filter(at)));
    }
}

/// The levels that an order on this side trades with, and those that it rests on.
pub open spec fn facing(b: BookSpec, side: OrderSide) -> Map<u64, Seq<OrderSpec>> {
    if side == OrderSide::Buy {
        b.asks
    } else {
        b.bids
    }
}

pub open spec fn behind(b: BookSpec, side: OrderSide) -> Map<u64, Seq<OrderSpec>> {
    if side == OrderSide::Buy {
        b.bids
    } else {
        b.asks
    }
}

/// Time priority. At each price that an order accepts it trades with the queue from its head on, each
/// older order of another trader in full before the next; the order's own trader's orders are passed
/// over and stay. The matches at that price are exactly those trades, oldest first.
pub proof fn law_queues_trade_from_the_head(
    b: BookSpec,
    o: OrderSpec,
    timestamp_us: u64,
    price: u64,
)
    requires
        finite_book(b),
        facing(b, o.side).contains_key(price),
        o.side == OrderSide::Buy ==> price <= o.price,
        o.side == OrderSide::Sell ==> price >= o.price,
    ensures
        exists|c: int, part: u64| #[trigger]
            traded_from_head(
                facing(b, o.side)[price],
                resting(facing(book_after(b, o), o.side), price),
                traded_at(matches_after(b, o, timestamp_us), price),
                o.trader,
                c,
                part,
            ),
{
    lemma_order_swept(b, o);
    let levels = opposite_levels(b, o.side);
    let prices = crossing(levels.dom(), o.side, o.price);
    let s = sweep(levels, o);
    let q = levels[price];
    let at = |f: Fill| f.price == price;
    assert(prices.contains(price));
    let i = choose|i: int| 0 <= i < prices.len() && prices[i] == price;
    assert forall|k: int| 0 <= k < prices.len() implies levels.contains_key(#[trigger] prices[k]) by {
        assert(prices.contains(prices[k]));
    }
    lemma_swept_at(levels, prices, o.side, o.trader, o.amount, prices.len(), i);
    lemma_match_list(b, o, timestamp_us, s.fills, price);
    let l = sweep_prefix(levels, prices, o.trader, o.amount, i as nat).left;
    if l == 0 {
        let own = |x: OrderSpec| x.trader == o.trader;
        reveal(Seq::filter);
        assert(q.take(0) =~= Seq::empty());
        assert(q.skip(0) =~= q);
        assert(q.take(0).filter(own) + q.skip(0) =~= q);
        assert(fills_listed(Seq::empty()) =~= sold_from(q.take(0), o.trader));
        assert(traded_from_head(
            q,
            resting(facing(book_after(b, o), o.side), price),
            traded_at(matches_after(b, o, timestamp_us), price),
            o.trader,
            0,
            0,
        ));
    } else {
        let (c, part) = lemma_fill_from_head(q, price, o.trader, l, q.len());
        assert(q.take(q.len() as int) =~= q);
        assert(traded_from_head(
            q,
            resting(facing(book_after(b, o), o.side), price),
            traded_at(matches_after(b, o, timestamp_us), price),
            o.trader,
            c,
            part,
        ));
    }
}

proof fn lemma_sweep_stops(
    levels: Map<u64, Seq<OrderSpec>>,
    prices: Seq<u64>,
    taker: Id32,
    left: u64,
    k: nat,
    n: nat,
)
    requires
        k <= n,
        sweep_prefix(levels, prices, taker, left, k).left == 0,
    ensures
        sweep_prefix(levels, prices, taker, left, n) == sweep_prefix(
            levels,
            prices,
            taker,
            left,
            k,
        ),
    decreases n,
{
    if k < n {
        lemma_sweep_stops(levels, prices, taker, left, k, (n - 1) as nat);
    }
}

/// Price priority. An order trades at prices that it accepts and at no other, where those queues stay
/// as they are. As long as another trader's order is left at one price, no price that is worse for
/// the incoming order is touched. Matches come in the order of their prices, the best first: for a
/// buying order the lowest.
pub proof fn law_better_prices_trade_first(
    b: BookSpec,
    o: OrderSpec,
    timestamp_us: u64,
    p: u64,
    q: u64,
    k: int,
    i: int,
    j: int,
)
    requires
        finite_book(b),
    ensures
        ({
            let before = facing(b, o.side);
            let after = facing(book_after(b, o), o.side);
            let ms = matches_after(b, o, timestamp_us);
            let buying = o.side == OrderSide::Buy;
            let left_over = after.contains_key(p) && 0 <= k < after[p].len() && after[p][k].trader
                != o.trader;
            let accepted = |x: u64|
                if buying {
                    x <= o.price
                } else {
                    x >= o.price
                };
            &&& !accepted(q) ==> after.contains_key(q) == before.contains_key(q) && after[q]
                == before[q] && traded_at(ms, q).len() == 0
            &&& left_over && accepted(p) && (if buying {
                p < q
            } else {
                p > q
            }) ==> after.contains_key(q) == before.contains_key(q) && after[q] == before[q]
                && traded_at(ms, q).len() == 0
            &&& 0 <= i < ms.len() ==> accepted(ms[i].price) && before.contains_key(ms[i].price)
            &&& 0 <= i < j < ms.len() ==> if buying {
                ms[i].price <= ms[j].price
            } else {
                ms[i].price >= ms[j].price
            }
        }),
{
    lemma_order_swept(b, o);
    let levels = opposite_levels(b, o.side);
    let prices = crossing(levels.dom(), o.side, o.price);
    let n = prices.len();
    let s = sweep(levels, o);
    let ms = matches_after(b, o, timestamp_us);
    lemma_match_list(b, o, timestamp_us, s.fills, q);
    if 0 <= i < ms.len() {
        assert(prices.contains(s.fills[i].price));
    }
    if !prices.contains(q) {
        assert forall|x: int| 0 <= x < s.fills.len() implies (#[trigger] s.fills[x]).price != q by {
            assert(prices.contains(s.fills[x].price));
        }
        lemma_fills_elsewhere(s.fills, q);
        assert(s.levels.contains_key(q) == levels.contains_key(q));
    } else {
        let after = facing(book_after(b, o), o.side);
        if after.contains_key(p) && 0 <= k < after[p].len() && after[p][k].trader != o.trader
            && crosses(o.side, o.price, p) && better(o.side, p, q) {
            assert(levels.contains_key(p));
            assert(prices.contains(p));
            let x = choose|x: int| 0 <= x < n && prices[x] == p;
            let y = choose|y: int| 0 <= y < n && prices[y] == q;
            assert(x < y) by {
                if y < x {
                    assert(better(o.side, prices[y], prices[x]));
                }
            }
            assert forall|z: int| 0 <= z < prices.len() implies levels.contains_key(
                #[trigger] prices[z],
            ) by {
                assert(prices.contains(prices[z]));
            }
            let m = (x + 1) as nat;
            let t = sweep_prefix(levels, prices, o.trader, o.amount, m);
            lemma_swept(levels, prices, o.side, o.trader, o.amount, m);
            lemma_swept_at(levels, prices, o.side, o.trader, o.amount, m, x);
            lemma_swept_at(levels, prices, o.side, o.trader, o.amount, n, x);
            assert(resting(t.levels, p) == resting(s.levels, p));
            assert(prices.take(m as int)[x] == p);
            assert(t.levels.contains_key(p) && t.levels[p][k].trader != o.trader);
            assert(t.left == 0);
            lemma_sweep_stops(levels, prices, o.trader, o.amount, m, n);
            lemma_sweep_stops(levels, prices, o.trader, o.amount, m, y as nat);
            lemma_swept_at(levels, prices, o.side, o.trader, o.amount, n, y);
        }
    }
}

/// What is left of an order rests: it joins the end of the queue at its own price, with its amount
/// less what its matches have traded, and nothing else of its side changes. Where nothing is left its
/// side stays as it is.
pub proof fn law_leftover_joins_the_queue(
    b: BookSpec,
    o: OrderSpec,
    timestamp_us: u64,
    price: u64,
)
    requires
        finite_book(b),
    ensures
        ({
            let before = behind(b, o.side);
            let after = behind(book_after(b, o), o.side);
            let traded = match_amount(matches_after(b, o, timestamp_us));
            &&& traded <= o.amount
            &&& traded < o.amount ==> after.contains_key(o.price) && after[o.price] == resting(
                before,
                o.price,
            ).push(OrderSpec { amount: (o.amount - traded) as u64, ..o })
            &&& traded == o.amount ==> after == before
            &&& price != o.price ==> after.contains_key(price) == before.contains_key(price)
                && after[price] == before[price]
            &&& book_after(b, o).symbol == b.symbol
            &&& book_after(b, o).rates == b.rates
            &&& book_after(b, o).nodes == b.nodes
            &&& book_after(b, o).node_rewards == b.node_rewards
        }),
{
    law_matching_conserves_amounts(b, o, timestamp_us, price);
}

proof fn lemma_fill_makers(level: Seq<OrderSpec>, price: u64, taker: Id32, left: u64, n: nat)
    requires
        n <= level.len(),
    ensures
        forall|i: int|
            0 <= i < fill_prefix(level, price, taker, left, n).fills.len() ==> level.contains(
                (#[trigger] fill_prefix(level, price, taker, left, n).fills[i]).maker,
            ),
    decreases n,
{
    if n > 0 {
        let m = (n - 1) as nat;
        lemma_fill_makers(level, price, taker, left, m);
        let s = fill_prefix(level, price, taker, left, m);
        let t = fill_prefix(level, price, taker, left, n);
        assert forall|i: int| 0 <= i < t.fills.len() implies level.contains(
            (#[trigger] t.fills[i]).maker,
        ) by {
            if i < s.fills.len() {
                assert(t.fills[i] == s.fills[i]);
            } else {
                assert(level[n - 1] == t.fills[i].maker);
            }
        }
    }
}

proof fn lemma_sweep_makers(
    levels: Map<u64, Seq<OrderSpec>>,
    prices: Seq<u64>,
    side: OrderSide,
    taker: Id32,
    left: u64,
    n: nat,
)
    requires
        n <= prices.len(),
        best_first(prices, side),
        forall|i: int| 0 <= i < prices.len() ==> levels.contains_key(#[trigger] prices[i]),
    ensures
        ({
            let s = sweep_prefix(levels, prices, taker, left, n);
            forall|i: int|
                0 <= i < s.fills.len() ==> levels.contains_key((#[trigger] s.fills[i]).price)
                    && levels[s.fills[i].price].contains(s.fills[i].maker)
        }),
    decreases n,
{
    if n > 0 {
        let m = (n - 1) as nat;
        lemma_sweep_makers(levels, prices, side, taker, left, m);
        lemma_swept(levels, prices, side, taker, left, m);
        let s = sweep_prefix(levels, prices, taker, left, m);
        let t = sweep_prefix(levels, prices, taker, left, n);
        let price = prices[n - 1];
        let done = prices.take(m as int);
        assert(!done.contains(price)) by {
            if done.contains(price) {
                let k = choose|k: int| 0 <= k < done.len() && done[k] == price;
                assert(better(side, prices[k], prices[n - 1]));
            }
        }
        assert(levels.contains_key(prices[n - 1]));
        assert(s.levels.contains_key(price) && s.levels[price] == levels[price]);
        if s.left > 0 {
            let r = fill_level(levels[price], price, taker, s.left);
            lemma_fill_makers(levels[price], price, taker, s.left, levels[price].len());
            lemma_fill_level(levels[price], price, taker, s.left);
            assert forall|i: int| 0 <= i < t.fills.len() implies levels.contains_key(
                (#[trigger] t.fills[i]).price,
            ) && levels[t.fills[i].price].contains(t.fills[i].maker) by {
                if i < s.fills.len() {
                    assert(t.fills[i] == s.fills[i]);
                } else {
                    assert(t.fills[i] == r.fills[i - s.fills.len()]);
                    assert(fill_is_sound(r.fills[i - s.fills.len()], price, taker));
                }
            }
        }
    }
}

/// A match between an incoming order and a resting one, on the terms that the two give it.
pub open spec fn made_on_terms(
    b: BookSpec,
    o: OrderSpec,
    timestamp_us: u64,
    m: MatchSpec,
    maker: OrderSpec,
) -> bool {
    let sell = if o.side == OrderSide::Sell {
        o
    } else {
        maker
    };
    let buy = if o.side == OrderSide::Sell {
        maker
    } else {
        o
    };
    let tier = if sell.settlement_requester == SettlementRequester::Seller {
        sell.settlement_preference
    } else {
        buy.settlement_preference
    };
    let set = match tier {
        SettlementPreference::Standard => b.rates.standard_bps,
        SettlementPreference::Express => b.rates.express_bps,
        SettlementPreference::Instant => b.rates.instant_bps,
    };
    let allowed: int = match tier {
        SettlementPreference::Standard => 86_400,
        SettlementPreference::Express => 3_600,
        SettlementPreference::Instant => 60,
    };
    &&& m.maker_order_id == maker.id
    &&& m.maker_trader == maker.trader
    &&& m.amount <= maker.amount
    &&& m.amount <= o.amount
    &&& m.taker_order_id == o.id
    &&& m.taker_trader == o.trader
    &&& m.maker_trader != m.taker_trader
    &&& m.seller == sell.trader
    &&& m.fee_payer == buy.trader
    &&& m.settlement_tier == tier
    &&& 1 <= set <= 500 ==> m.fee_basis_points == set
    &&& set < 1 ==> m.fee_basis_points == 1
    &&& set > 500 ==> m.fee_basis_points == 500
    &&& m.timestamp_us == timestamp_us
    &&& m.settlement_deadline == timestamp_us / 1_000_000 + allowed
    &&& m.symbol == b.symbol
}

/// The terms of a match. It is between the incoming order and an order that rested at the match's
/// price. The trader of the selling order is the seller and the one of the buying order pays the fee.
/// The selling order says whose preference sets the tier; the tier sets the fee rate, kept between 1
/// and 500 basis points, and the deadline: a minute, an hour or a day after the second of the match.
pub proof fn law_match_terms(b: BookSpec, o: OrderSpec, timestamp_us: u64, i: int)
    requires
        finite_book(b),
        0 <= i < matches_after(b, o, timestamp_us).len(),
    ensures
        ({
            let m = matches_after(b, o, timestamp_us)[i];
            let queue = facing(b, o.side)[m.price];
            &&& facing(b, o.side).contains_key(m.price)
            &&& exists|k: int|
                0 <= k < queue.len() && made_on_terms(b, o, timestamp_us, m, #[trigger] queue[k])
        }),
{
    lemma_order_swept(b, o);
    law_matches_are_sound(b, o, timestamp_us, i, i);
    let levels = opposite_levels(b, o.side);
    let prices = crossing(levels.dom(), o.side, o.price);
    assert forall|k: int| 0 <= k < prices.len() implies levels.contains_key(#[trigger] prices[k]) by {
        assert(prices.contains(prices[k]));
    }
    lemma_sweep_makers(levels, prices, o.side, o.trader, o.amount, prices.len());
    let s = sweep(levels, o);
    let f = s.fills[i];
    let queue = levels[f.price];
    let k = choose|k: int| 0 <= k < queue.len() && queue[k] == f.maker;
    lemma_fill_bounded(s.fills, i);
    let m = matches_after(b, o, timestamp_us)[i];
    assert(m == match_at(b, o, timestamp_us, f, cursor_at(b.cursor, b.nodes.len(), i as nat)));
    let q = facing(b, o.side)[m.price];
    assert(q == queue);
    assert(0 <= k < q.len() && made_on_terms(b, o, timestamp_us, m, q[k]));
}

proof fn lemma_fill_bounded(fills: Seq<Fill>, i: int)
    requires
        0 <= i < fills.len(),
    ensures
        fills[i].amount <= fill_amount(fills),
    decreases fills.len(),
{
    if i < fills.len() - 1 {
        lemma_fill_bounded(fills.drop_last(), i);
        assert(fills.drop_last()[i] == fills[i]);
    }
}

/// The nodes take turns at the matches: the `i`-th match of an order goes to the node `i` places on
/// from where the turn stood, counting round, and the next order's first match to the one after the
/// last. Without nodes a match is assigned to none.
pub proof fn law_matches_go_round_the_nodes(b: BookSpec, o: OrderSpec, timestamp_us: u64, i: int)
    requires
        b.nodes.len() <= usize::MAX,
        0 <= i < matches_after(b, o, timestamp_us).len(),
    ensures
        ({
            let ms = matches_after(b, o, timestamp_us);
            let n = b.nodes.len() as int;
            let after = book_after(b, o);
            &&& n > 0 ==> ms[i].assigned_node == b.nodes[(b.cursor + i) % n]
            &&& n > 0 ==> after.cursor as int % n == (b.cursor + ms.len()) % n
            &&& n == 0 ==> after.cursor == b.cursor && forall|k: int|
                0 <= k < 32 ==> #[trigger] ms[i].assigned_node@[k] == 0
        }),
{
    let ms = matches_after(b, o, timestamp_us);
    let n = b.nodes.len();
    if n > 0 {
        law_nodes_take_turns(b.nodes, b.cursor, i as nat);
        lemma_cursor_value(b.cursor, n, ms.len());
    } else {
        lemma_cursor_still(b.cursor, ms.len());
        lemma_cursor_still(b.cursor, i as nat);
    }
}

proof fn lemma_cursor_still(c: usize, k: nat)
    ensures
        cursor_at(c, 0, k) == c,
    decreases k,
{
    if k > 0 {
        lemma_cursor_still(c, (k - 1) as nat);
    }
}

/// Of the orders of a side with an id, this one is first: no lower price has one, and none is older at
/// its own.
pub open spec fn rests_first(levels: Map<u64, Seq<OrderSpec>>, id: Id32, p: u64, i: int) -> bool {
    &&& levels.contains_key(p) && 0 <= i < levels[p].len() && levels[p][i].id == id
    &&& forall|j: int| 0 <= j < i ==> (#[trigger] levels[p][j]).id != id
    &&& forall|q: u64, j: int|
        q < p && levels.contains_key(q) && 0 <= j < levels[q].len() ==> (
        #[trigger] levels[q][j]).id != id
}

/// No order of a side has an id.
pub open spec fn rests_nowhere(levels: Map<u64, Seq<OrderSpec>>, id: Id32) -> bool {
    forall|q: u64, j: int|
        levels.contains_key(q) && 0 <= j < levels[q].len() ==> (#[trigger] levels[q][j]).id != id
}

proof fn lemma_first_is_taken(levels: Map<u64, Seq<OrderSpec>>, id: Id32, p: u64, i: int)
    requires
        rests_first(levels, id, p, i),
    ensures
        side_has_id(levels, id),
        side_without(levels, id) == levels.insert(p, levels[p].remove(i)),
{
    assert(crate::book::has_id(levels[p], id)) by {
        assert(levels[p][i].id == id);
    }
    assert(holds_id(levels, id, p));
    assert(is_lowest_with(levels, id, p)) by {
        assert forall|q: u64| #[trigger] holds_id(levels, id, q) implies p <= q by {
            let j = choose|j: int| 0 <= j < levels[q].len() && (#[trigger] levels[q][j]).id == id;
            if q < p {
                assert(levels[q][j].id != id);
            }
        }
    }
    assert(is_first_with(levels[p], id, i));
    let p1 = choose|p: u64| is_lowest_with(levels, id, p);
    assert(is_lowest_with(levels, id, p1));
    assert(p1 == p);
    let i1 = choose|i: int| is_first_with(levels[p1], id, i);
    assert(is_first_with(levels[p1], id, i1));
    if i1 < i {
        assert(levels[p][i1].id != id);
    }
    if i < i1 {
        assert(levels[p1][i].id != id);
    }
}

/// Which order a cancelled id takes out where several have it: one of the buying side before any of the
/// selling side, of one side that at the lowest price, and of one queue the oldest.
pub proof fn law_cancel_takes_the_first(b: BookSpec, id: Id32, p: u64, i: int)
    ensures
        rests_first(b.bids, id, p, i) ==> book_without(b, id).asks == b.asks && book_without(
            b,
            id,
        ).bids == b.bids.insert(p, b.bids[p].remove(i)),
        rests_nowhere(b.bids, id) && rests_first(b.asks, id, p, i) ==> book_without(b, id).bids
            == b.bids && book_without(b, id).asks == b.asks.insert(p, b.asks[p].remove(i)),
{
    if rests_first(b.bids, id, p, i) {
        lemma_first_is_taken(b.bids, id, p, i);
    }
    if rests_first(b.asks, id, p, i) {
        lemma_first_is_taken(b.asks, id, p, i);
    }
    if rests_nowhere(b.bids, id) && side_has_id(b.bids, id) {
        let q = choose|q: u64| #[trigger] holds_id(b.bids, id, q);
        let j = choose|j: int| 0 <= j < b.bids[q].len() && (#[trigger] b.bids[q][j]).id == id;
        assert(b.bids[q][j].id != id);
    }
}

} // verus!
