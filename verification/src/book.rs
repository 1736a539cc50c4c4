//! The order book: price-time priority matching on one symbol.

use crate::bytes::{same_id, Id32};
use crate::clock::unix_micros;
use crate::fees::{default_rates, rate_of, FeeCalculator};
use crate::types::{
    matches_view, orders_view, tier_seconds, Match, MatchSpec, Order, OrderSide, OrderSpec,
    SettlementPreference, SettlementRequester,
};
use std::collections::BTreeMap;
use vstd::prelude::*;

verus! {

broadcast use {vstd::std_specs::btree::group_btree_axioms, vstd::laws_cmp::group_laws_cmp};

/// The orders that rest at each price, oldest first.
pub type Levels = BTreeMap<u64, Vec<Order>>;

/// The orders at each price, each by its view.
pub open spec fn levels_view(m: Map<u64, Vec<Order>>) -> Map<u64, Seq<OrderSpec>> {
    m.map_values(|v: Vec<Order>| orders_view(v@))
}

/// Resting bids and asks on one symbol, and the terms on which matches are made.
pub struct OrderBook {
    pub symbol: String,
    pub bids: BTreeMap<u64, Vec<Order>>,
    pub asks: BTreeMap<u64, Vec<Order>>,
    pub node_rewards: u64,
    pub fee_calculator: FeeCalculator,
    pub active_nodes: Vec<Id32>,
    pub cursor: usize,
}

/// What an [`OrderBook`] stands for.
#[verifier::ext_equal]
pub struct BookSpec {
    pub symbol: Seq<char>,
    pub bids: Map<u64, Seq<OrderSpec>>,
    pub asks: Map<u64, Seq<OrderSpec>>,
    pub node_rewards: u64,
    pub rates: FeeCalculator,
    pub nodes: Seq<Id32>,
    pub cursor: usize,
}

impl View for OrderBook {
    type V = BookSpec;

    open spec fn view(&self) -> BookSpec {
        BookSpec {
            symbol: self.symbol@,
            bids: levels_view(self.bids@),
            asks: levels_view(self.asks@),
            node_rewards: self.node_rewards,
            rates: self.fee_calculator,
            nodes: self.active_nodes@,
            cursor: self.cursor,
        }
    }
}

/// The node that stands for "none assigned".
pub open spec fn no_node() -> Id32 {
    vstd::array::spec_array_fill_for_copy_type::<u8, 32>(0u8)
}

/// Where the round-robin cursor goes after one assignment among `n` nodes.
pub open spec fn next_cursor(c: usize, n: nat) -> usize {
    if n == 0 {
        c
    } else {
        ((c as nat % n + 1) % n) as usize
    }
}

/// The cursor after `k` assignments.
pub open spec fn cursor_at(c: usize, n: nat, k: nat) -> usize
    decreases k,
{
    if k == 0 {
        c
    } else {
        next_cursor(cursor_at(c, n, (k - 1) as nat), n)
    }
}

/// The node that the cursor points at.
pub open spec fn node_at(nodes: Seq<Id32>, c: usize) -> Id32 {
    if nodes.len() == 0 {
        no_node()
    } else {
        nodes[(c as nat % nodes.len()) as int]
    }
}

/// A price of the opposite side that an order with this limit trades at.
pub open spec fn crosses(side: OrderSide, limit: u64, price: u64) -> bool {
    match side {
        OrderSide::Buy => price <= limit,
        OrderSide::Sell => price >= limit,
    }
}

/// Whether an incoming order on `side` prefers price `a` to price `b`.
pub open spec fn better(side: OrderSide, a: u64, b: u64) -> bool {
    match side {
        OrderSide::Buy => a < b,
        OrderSide::Sell => a > b,
    }
}

/// `s` lists prices from the best to the worst, none twice.
pub open spec fn best_first(s: Seq<u64>, side: OrderSide) -> bool {
    forall|i: int, j: int| 0 <= i < j < s.len() ==> better(side, #[trigger] s[i], #[trigger] s[j])
}

/// `s` lists, best first, the prices in `dom` that the order trades at.
pub open spec fn is_crossing(s: Seq<u64>, dom: Set<u64>, side: OrderSide, limit: u64) -> bool {
    &&& best_first(s, side)
    &&& forall|p: u64| #[trigger]
        s.contains(p) <==> dom.contains(p) && crosses(side, limit, p)
}

/// The prices in `dom` that the order trades at, best first.
pub open spec fn crossing(dom: Set<u64>, side: OrderSide, limit: u64) -> Seq<u64> {
    choose|s: Seq<u64>| is_crossing(s, dom, side, limit)
}

/// One execution: so much of a resting order, at its price. `maker` is the resting order as it
/// stood before.
#[verifier::ext_equal]
pub struct Fill {
    pub price: u64,
    pub maker: OrderSpec,
    pub amount: u64,
}

/// A resting order after `a` of it has traded.
pub open spec fn less(o: OrderSpec, a: u64) -> OrderSpec {
    OrderSpec { amount: (o.amount - a) as u64, ..o }
}

/// How far matching has come: what rests, what has traded, what the incoming order has left.
#[verifier::ext_equal]
pub struct LevelState {
    pub kept: Seq<OrderSpec>,
    pub fills: Seq<Fill>,
    pub left: u64,
}

/// One resting order meets the incoming one. An order of the same trader, and every order once
/// nothing is left, stays as it is.
pub open spec fn meet(s: LevelState, price: u64, maker: OrderSpec, taker: Id32) -> LevelState {
    if s.left == 0 || maker.trader == taker {
        LevelState { kept: s.kept.push(maker), ..s }
    } else {
        let a = if s.left <= maker.amount {
            s.left
        } else {
            maker.amount
        };
        LevelState {
            kept: if maker.amount == a {
                s.kept
            } else {
                s.kept.push(less(maker, a))
            },
            fills: s.fills.push(Fill { price, maker, amount: a }),
            left: (s.left - a) as u64,
        }
    }
}

/// The first `n` orders of a level have met the incoming one.
pub open spec fn fill_prefix(
    level: Seq<OrderSpec>,
    price: u64,
    taker: Id32,
    left: u64,
    n: nat,
) -> LevelState
    decreases n,
{
    if n == 0 {
        LevelState { kept: Seq::empty(), fills: Seq::empty(), left }
    } else {
        meet(
            fill_prefix(level, price, taker, left, (n - 1) as nat),
            price,
            level[n - 1],
            taker,
        )
    }
}

/// All orders of a level, oldest first, have met the incoming one.
pub open spec fn fill_level(level: Seq<OrderSpec>, price: u64, taker: Id32, left: u64) -> LevelState {
    fill_prefix(level, price, taker, left, level.len())
}

/// A side of the book while an incoming order goes through it.
#[verifier::ext_equal]
pub struct SweepState {
    pub levels: Map<u64, Seq<OrderSpec>>,
    pub fills: Seq<Fill>,
    pub left: u64,
}

/// One price level meets the incoming order; a level that is empty afterwards goes.
pub open spec fn meet_level(s: SweepState, price: u64, taker: Id32) -> SweepState {
    if s.left == 0 {
        s
    } else {
        let r = fill_level(s.levels[price], price, taker, s.left);
        SweepState {
            levels: if r.kept.len() == 0 {
                s.levels.remove(price)
            } else {
                s.levels.insert(price, r.kept)
            },
            fills: s.fills + r.fills,
            left: r.left,
        }
    }
}

/// The first `n` of `prices` have met the incoming order.
pub open spec fn sweep_prefix(
    levels: Map<u64, Seq<OrderSpec>>,
    prices: Seq<u64>,
    taker: Id32,
    left: u64,
    n: nat,
) -> SweepState
    decreases n,
{
    if n == 0 {
        SweepState { levels, fills: Seq::empty(), left }
    } else {
        meet_level(sweep_prefix(levels, prices, taker, left, (n - 1) as nat), prices[n - 1], taker)
    }
}

/// The opposite side of the book after the incoming order has gone through it.
pub open spec fn sweep(opposite: Map<u64, Seq<OrderSpec>>, o: OrderSpec) -> SweepState {
    let prices = crossing(opposite.dom(), o.side, o.price);
    sweep_prefix(opposite, prices, o.trader, o.amount, prices.len())
}

/// The buying and the selling order of a match.
pub open spec fn buyer_of(maker: OrderSpec, taker: OrderSpec) -> OrderSpec {
    if taker.side == OrderSide::Buy {
        taker
    } else {
        maker
    }
}

pub open spec fn seller_of(maker: OrderSpec, taker: OrderSpec) -> OrderSpec {
    if taker.side == OrderSide::Buy {
        maker
    } else {
        taker
    }
}

/// The tier that a trade settles in: the selling order says whose preference counts.
pub open spec fn tier_of(maker: OrderSpec, taker: OrderSpec) -> SettlementPreference {
    let sell = seller_of(maker, taker);
    match sell.settlement_requester {
        SettlementRequester::Seller => sell.settlement_preference,
        SettlementRequester::Buyer => buyer_of(maker, taker).settlement_preference,
    }
}

/// The second by which a trade matched at `timestamp_us` must be settled.
pub open spec fn deadline_of(timestamp_us: u64, tier: SettlementPreference) -> u64 {
    (timestamp_us / 1_000_000 + tier_seconds(tier)) as u64
}

/// The match that a fill makes when the cursor stands at `c`. It trades at the resting order's
/// price, and the buyer pays the fee.
pub open spec fn match_at(
    b: BookSpec,
    taker: OrderSpec,
    timestamp_us: u64,
    f: Fill,
    c: usize,
) -> MatchSpec {
    let tier = tier_of(f.maker, taker);
    MatchSpec {
        maker_order_id: f.maker.id,
        taker_order_id: taker.id,
        maker_trader: f.maker.trader,
        taker_trader: taker.trader,
        price: f.price,
        amount: f.amount,
        timestamp_us,
        settlement_tier: tier,
        fee_basis_points: rate_of(b.rates, tier),
        seller: seller_of(f.maker, taker).trader,
        fee_payer: buyer_of(f.maker, taker).trader,
        settlement_deadline: deadline_of(timestamp_us, tier),
        symbol: b.symbol,
        assigned_node: node_at(b.nodes, c),
    }
}

/// The matches that fills make, the nodes taking turns.
pub open spec fn matches_of(
    b: BookSpec,
    taker: OrderSpec,
    timestamp_us: u64,
    fills: Seq<Fill>,
) -> Seq<MatchSpec> {
    Seq::new(
        fills.len(),
        |i: int|
            match_at(
                b,
                taker,
                timestamp_us,
                fills[i],
                cursor_at(b.cursor, b.nodes.len(), i as nat),
            ),
    )
}

/// The level at `price`, empty where there is none.
pub open spec fn level_at(levels: Map<u64, Seq<OrderSpec>>, price: u64) -> Seq<OrderSpec> {
    if levels.contains_key(price) {
        levels[price]
    } else {
        Seq::empty()
    }
}

/// An order joins the queue at its price.
pub open spec fn rest_order(levels: Map<u64, Seq<OrderSpec>>, o: OrderSpec) -> Map<
    u64,
    Seq<OrderSpec>,
> {
    levels.insert(o.price, level_at(levels, o.price).push(o))
}

/// The side that an incoming order trades against.
pub open spec fn opposite_levels(b: BookSpec, side: OrderSide) -> Map<u64, Seq<OrderSpec>> {
    match side {
        OrderSide::Buy => b.asks,
        OrderSide::Sell => b.bids,
    }
}

/// The side that an order rests on.
pub open spec fn own_levels(b: BookSpec, side: OrderSide) -> Map<u64, Seq<OrderSpec>> {
    match side {
        OrderSide::Buy => b.bids,
        OrderSide::Sell => b.asks,
    }
}

/// The book after an order has come in: it trades with what it crosses, best price first and
/// oldest first at each price, and what is left of it rests at its limit.
pub open spec fn book_after(b: BookSpec, o: OrderSpec) -> BookSpec {
    let s = sweep(opposite_levels(b, o.side), o);
    let own = if s.left > 0 {
        rest_order(own_levels(b, o.side), OrderSpec { amount: s.left, ..o })
    } else {
        own_levels(b, o.side)
    };
    BookSpec {
        bids: match o.side {
            OrderSide::Buy => own,
            OrderSide::Sell => s.levels,
        },
        asks: match o.side {
            OrderSide::Buy => s.levels,
            OrderSide::Sell => own,
        },
        cursor: cursor_at(b.cursor, b.nodes.len(), s.fills.len()),
        ..b
    }
}

/// The matches that an incoming order makes.
pub open spec fn matches_after(b: BookSpec, o: OrderSpec, timestamp_us: u64) -> Seq<MatchSpec> {
    matches_of(b, o, timestamp_us, sweep(opposite_levels(b, o.side), o).fills)
}

/// Two best-first lists of the same prices are the same list.
pub proof fn lemma_best_first_unique(s: Seq<u64>, t: Seq<u64>, side: OrderSide)
    requires
        best_first(s, side),
        best_first(t, side),
        forall|p: u64| #[trigger] s.contains(p) <==> t.contains(p),
    ensures
        s == t,
    decreases s.len(),
{
    if s.len() == 0 {
        if t.len() > 0 {
            assert(t.contains(t[0]));
            assert(s.contains(t[0]));
        }
        assert(s =~= t);
    } else {
        assert(s.contains(s[0]));
        assert(t.len() > 0);
        let a = s.last();
        let b = t.last();
        assert(s.contains(a));
        assert(t.contains(b) && s.contains(b));
        let j = choose|j: int| 0 <= j < t.len() && t[j] == a;
        let i = choose|i: int| 0 <= i < s.len() && s[i] == b;
        assert(a == b) by {
            if a != b {
                assert(better(side, t[j], t[t.len() - 1]));
                assert(better(side, s[i], s[s.len() - 1]));
            }
        }
        let s1 = s.drop_last();
        let t1 = t.drop_last();
        assert(best_first(s1, side));
        assert(best_first(t1, side));
        assert forall|p: u64| #[trigger] s1.contains(p) <==> t1.contains(p) by {
            if s1.contains(p) {
                let k = choose|k: int| 0 <= k < s1.len() && s1[k] == p;
                assert(s[k] == p && better(side, s[k], s[s.len() - 1]));
                assert(s.contains(p));
                let m = choose|m: int| 0 <= m < t.len() && t[m] == p;
                assert(m < t.len() - 1);
                assert(t1[m] == p);
            }
            if t1.contains(p) {
                let k = choose|k: int| 0 <= k < t1.len() && t1[k] == p;
                assert(t[k] == p && better(side, t[k], t[t.len() - 1]));
                assert(t.contains(p));
                assert(s.contains(p));
                let m = choose|m: int| 0 <= m < s.len() && s[m] == p;
                assert(m < s.len() - 1);
                assert(s1[m] == p);
            }
        }
        lemma_best_first_unique(s1, t1, side);
        assert(s =~= s1.push(a));
        assert(t =~= t1.push(a));
    }
}

/// A best-first list of the prices that the order trades at is the list of them.
pub proof fn lemma_crossing_is(s: Seq<u64>, dom: Set<u64>, side: OrderSide, limit: u64)
    requires
        is_crossing(s, dom, side, limit),
    ensures
        s == crossing(dom, side, limit),
{
    let t = crossing(dom, side, limit);
    assert(is_crossing(t, dom, side, limit));
    assert forall|p: u64| #[trigger] s.contains(p) <==> t.contains(p) by {}
    lemma_best_first_unique(s, t, side);
}

/// `k` assignments after `j` are `j + k` assignments.
proof fn lemma_cursor_at_adds(c: usize, n: nat, j: nat, k: nat)
    ensures
        cursor_at(cursor_at(c, n, j), n, k) == cursor_at(c, n, j + k),
    decreases k,
{
    if k > 0 {
        lemma_cursor_at_adds(c, n, j, (k - 1) as nat);
    }
}

/// The prices of a side, in increasing order.
pub fn sorted_prices<T>(levels: &BTreeMap<u64, T>) -> (r: Vec<u64>)
    ensures
        forall|i: int, j: int| 0 <= i < j < r@.len() ==> #[trigger] r@[i] < #[trigger] r@[j],
        forall|p: u64| #[trigger] r@.contains(p) <==> levels@.contains_key(p),
{
    let mut out: Vec<u64> = Vec::new();
    let ghost ks = vstd::std_specs::iter::IteratorSpec::remaining(
        &vstd::std_specs::btree::spec_keys_iter(levels),
    );
    for p in it: levels.keys()
        invariant
            it.seq() == ks,
            out@.len() == it.index(),
            forall|i: int| 0 <= i < it.index() ==> #[trigger] out@[i] == *ks[i],
    {
        out.push(*p);
    }
    proof {
        assert(out@.len() == ks.len());
        assert forall|i: int, j: int| 0 <= i < j < out@.len() implies #[trigger] out@[i]
            < #[trigger] out@[j] by {
            assert(vstd::std_specs::btree::increasing_seq(ks));
            assert(vstd::std_specs::cmp::OrdSpec::cmp_spec(&ks[i], &ks[j]) is Less);
        }
        assert forall|p: u64| #[trigger] out@.contains(p) <==> levels@.contains_key(p) by {
            assert(ks.unref().to_set() == levels@.dom());
            if out@.contains(p) {
                let i = choose|i: int| 0 <= i < out@.len() && out@[i] == p;
                assert(ks.unref()[i] == p);
                assert(ks.unref().to_set().contains(p));
            }
            if levels@.contains_key(p) {
                assert(ks.unref().to_set().contains(p));
                let i = choose|i: int| 0 <= i < ks.unref().len() && ks.unref()[i] == p;
                assert(out@[i] == p);
            }
        }
    }
    out
}

/// The prices of a side that an order with this limit trades at, best first.
fn crossing_prices(levels: &Levels, side: OrderSide, limit: u64) -> (r: Vec<u64>)
    ensures
        r@ == crossing(levels@.dom(), side, limit),
        is_crossing(r@, levels@.dom(), side, limit),
{
    let all: Vec<u64> = sorted_prices(levels);
    let mut out: Vec<u64> = Vec::new();
    let mut n: usize = 0;
    while n < all.len()
        invariant
            n <= all@.len(),
            forall|i: int, j: int|
                0 <= i < j < all@.len() ==> #[trigger] all@[i] < #[trigger] all@[j],
            best_first(out@, side),
            forall|p: u64| #[trigger]
                out@.contains(p) <==> crosses(side, limit, p) && exists|k: int|
                    if side == OrderSide::Buy {
                        0 <= k < n && #[trigger] all@[k] == p
                    } else {
                        all@.len() - n <= k < all@.len() && all@[k] == p
                    },
        decreases all@.len() - n,
    {
        let k: usize = match side {
            OrderSide::Buy => n,
            OrderSide::Sell => all.len() - 1 - n,
        };
        let p: u64 = all[k];
        let hit: bool = match side {
            OrderSide::Buy => p <= limit,
            OrderSide::Sell => p >= limit,
        };
        let ghost before = out@;
        if hit {
            proof {
                assert forall|i: int| 0 <= i < before.len() implies better(
                    side,
                    #[trigger] before[i],
                    p,
                ) by {
                    assert(before.contains(before[i]));
                }
            }
            out.push(p);
        }
        proof {
            assert forall|q: u64| #[trigger]
                out@.contains(q) <==> crosses(side, limit, q) && exists|k: int|
                    if side == OrderSide::Buy {
                        0 <= k < n + 1 && #[trigger] all@[k] == q
                    } else {
                        all@.len() - (n + 1) <= k < all@.len() && all@[k] == q
                    } by {
                if out@.contains(q) {
                    let i = choose|i: int| 0 <= i < out@.len() && out@[i] == q;
                    if i < before.len() {
                        assert(before.contains(q));
                    } else {
                        assert(all@[k as int] == q);
                    }
                }
                if crosses(side, limit, q) && exists|k: int|
                    if side == OrderSide::Buy {
                        0 <= k < n + 1 && #[trigger] all@[k] == q
                    } else {
                        all@.len() - (n + 1) <= k < all@.len() && all@[k] == q
                    } {
                    let m = choose|k: int|
                        if side == OrderSide::Buy {
                            0 <= k < n + 1 && #[trigger] all@[k] == q
                        } else {
                            all@.len() - (n + 1) <= k < all@.len() && all@[k] == q
                        };
                    if m == k {
                        assert(out@[out@.len() - 1] == q);
                    } else {
                        assert(before.contains(q));
                        let i = choose|i: int| 0 <= i < before.len() && before[i] == q;
                        assert(out@[i] == q);
                    }
                }
            }
        }
        n = n + 1;
    }
    proof {
        assert forall|p: u64| #[trigger]
            out@.contains(p) <==> levels@.dom().contains(p) && crosses(side, limit, p) by {
            assert(all@.contains(p) <==> levels@.contains_key(p));
            if levels@.contains_key(p) && crosses(side, limit, p) {
                let k = choose|k: int| 0 <= k < all@.len() && all@[k] == p;
                assert(all@[k] == p);
            }
        }
        lemma_crossing_is(out@, levels@.dom(), side, limit);
    }
    out
}

/// What stays the same while matches are made: everything but the cursor.
pub open spec fn same_but_cursor(a: OrderBook, b: OrderBook) -> bool {
    &&& a.symbol@ == b.symbol@
    &&& a.bids@ == b.bids@
    &&& a.asks@ == b.asks@
    &&& a.node_rewards == b.node_rewards
    &&& a.fee_calculator == b.fee_calculator
    &&& a.active_nodes@ == b.active_nodes@
}

/// The matches of one list of fills after those of another.
proof fn lemma_matches_of_adds(
    b: BookSpec,
    mid: BookSpec,
    taker: OrderSpec,
    timestamp_us: u64,
    fills: Seq<Fill>,
    more: Seq<Fill>,
)
    requires
        mid.symbol == b.symbol,
        mid.rates == b.rates,
        mid.nodes == b.nodes,
        mid.cursor == cursor_at(b.cursor, b.nodes.len(), fills.len()),
    ensures
        matches_of(b, taker, timestamp_us, fills + more) == matches_of(
            b,
            taker,
            timestamp_us,
            fills,
        ) + matches_of(mid, taker, timestamp_us, more),
        cursor_at(mid.cursor, b.nodes.len(), more.len()) == cursor_at(
            b.cursor,
            b.nodes.len(),
            (fills + more).len(),
        ),
{
    let l = matches_of(b, taker, timestamp_us, fills + more);
    let r = matches_of(b, taker, timestamp_us, fills) + matches_of(mid, taker, timestamp_us, more);
    lemma_cursor_at_adds(b.cursor, b.nodes.len(), fills.len(), more.len());
    assert forall|i: int| 0 <= i < l.len() implies l[i] == r[i] by {
        if i >= fills.len() {
            lemma_cursor_at_adds(
                b.cursor,
                b.nodes.len(),
                fills.len(),
                (i - fills.len()) as nat,
            );
        }
    }
    assert(l =~= r);
}

impl OrderBook {
    pub fn new(symbol: String) -> (r: Self)
        ensures
            r@ == (BookSpec {
                symbol: symbol@,
                bids: Map::empty(),
                asks: Map::empty(),
                node_rewards: 0,
                rates: default_rates(),
                nodes: Seq::empty(),
                cursor: 0,
            }),
    {
        let r = OrderBook {
            symbol,
            bids: BTreeMap::new(),
            asks: BTreeMap::new(),
            node_rewards: 0,
            fee_calculator: FeeCalculator::default(),
            active_nodes: Vec::new(),
            cursor: 0,
        };
        assert(levels_view(r.bids@) =~= Map::empty());
        assert(levels_view(r.asks@) =~= Map::empty());
        r
    }

    /// From now on matches are charged at these rates.
    pub fn set_fee_calculator(&mut self, fee_calculator: FeeCalculator)
        ensures
            final(self)@ == (BookSpec { rates: fee_calculator, ..old(self)@ }),
    {
        self.fee_calculator = fee_calculator;
    }

    /// From now on matches are assigned to these nodes in turn, starting with the first.
    pub fn set_active_nodes(&mut self, nodes: Vec<Id32>)
        ensures
            final(self)@ == (BookSpec { nodes: nodes@, cursor: 0, ..old(self)@ }),
    {
        self.active_nodes = nodes;
        self.cursor = 0;
    }

    /// Where the round-robin stands.
    pub fn active_nodes_cursor(&self) -> (r: usize)
        ensures
            r == self@.cursor,
    {
        self.cursor
    }

    /// Puts the round-robin back to where it stood.
    pub fn restore_active_nodes_cursor(&mut self, cursor: usize)
        ensures
            final(self)@ == (BookSpec { cursor, ..old(self)@ }),
    {
        self.cursor = cursor;
    }

    /// The node whose turn it is; the turn passes on.
    pub fn assign_node(&mut self) -> (r: Id32)
        ensures
            r == node_at(old(self)@.nodes, old(self)@.cursor),
            final(self)@ == (BookSpec {
                cursor: next_cursor(old(self)@.cursor, old(self)@.nodes.len()),
                ..old(self)@
            }),
            same_but_cursor(*old(self), *final(self)),
    {
        let n: usize = self.active_nodes.len();
        if n == 0 {
            return [0u8; 32];
        }
        let i: usize = self.cursor % n;
        let node: Id32 = self.active_nodes[i];
        self.cursor = (i + 1) % n;
        node
    }

    /// The match that a fill makes.
    fn make_match(
        &mut self,
        taker: &Order,
        maker: &Order,
        price: u64,
        amount: u64,
        timestamp_us: u64,
    ) -> (r: Match)
        ensures
            r@ == match_at(
                old(self)@,
                taker@,
                timestamp_us,
                (Fill { price, maker: maker@, amount }),
                old(self)@.cursor,
            ),
            final(self)@.cursor == next_cursor(old(self)@.cursor, old(self)@.nodes.len()),
            same_but_cursor(*old(self), *final(self)),
    {
        let assigned_node: Id32 = self.assign_node();
        let (buy, sell): (&Order, &Order) = match taker.side {
            OrderSide::Buy => (taker, maker),
            OrderSide::Sell => (maker, taker),
        };
        let tier: SettlementPreference = match sell.settlement_requester {
            SettlementRequester::Seller => sell.settlement_preference,
            SettlementRequester::Buyer => buy.settlement_preference,
        };
        let settlement_deadline: u64 = timestamp_us / 1_000_000 + tier.deadline_seconds();
        Match {
            maker_order_id: maker.id,
            taker_order_id: taker.id,
            maker_trader: maker.trader,
            taker_trader: taker.trader,
            price,
            amount,
            timestamp_us,
            settlement_tier: tier,
            fee_basis_points: self.fee_calculator.calculate_fee_basis_points(tier),
            seller: sell.trader,
            fee_payer: buy.trader,
            settlement_deadline,
            symbol: self.symbol.clone(),
            assigned_node,
        }
    }

    /// One price level meets the incoming order, which has `left` to trade. Returns what stays
    /// at the level and what the incoming order has left.
    fn match_level(
        &mut self,
        level: Vec<Order>,
        price: u64,
        taker: &Order,
        left: u64,
        timestamp_us: u64,
        matches: &mut Vec<Match>,
    ) -> (r: (Vec<Order>, u64))
        ensures
            ({
                let s = fill_level(orders_view(level@), price, taker.trader, left);
                &&& orders_view(r.0@) == s.kept
                &&& r.1 == s.left
                &&& matches_view(final(matches)@) == matches_view(old(matches)@) + matches_of(
                    old(self)@,
                    taker@,
                    timestamp_us,
                    s.fills,
                )
                &&& final(self)@.cursor == cursor_at(
                    old(self)@.cursor,
                    old(self)@.nodes.len(),
                    s.fills.len(),
                )
            }),
            same_but_cursor(*old(self), *final(self)),
    {
        let mut kept: Vec<Order> = Vec::new();
        let mut rest: u64 = left;
        let ghost orders = level@;
        let ghost lv = orders_view(level@);
        let ghost start = self@;
        let ghost before = matches_view(matches@);
        proof {
            assert(matches_view(matches@) =~= before + matches_of(
                start,
                taker@,
                timestamp_us,
                Seq::empty(),
            ));
        }
        for maker in it: level.into_iter()
            invariant
                it.seq() == orders,
                lv == orders_view(orders),
                start == old(self)@,
                same_but_cursor(*old(self), *self),
                before == matches_view(old(matches)@),
                ({
                    let s = fill_prefix(lv, price, taker.trader, left, it.index() as nat);
                    &&& orders_view(kept@) == s.kept
                    &&& rest == s.left
                    &&& matches_view(matches@) == before + matches_of(
                        start,
                        taker@,
                        timestamp_us,
                        s.fills,
                    )
                    &&& self@.cursor == cursor_at(start.cursor, start.nodes.len(), s.fills.len())
                }),
        {
            let ghost s = fill_prefix(lv, price, taker.trader, left, it.index() as nat);
            let ghost k0 = kept@;
            let ghost m0 = matches@;
            assert(maker@ == lv[it.index()]);
            if rest == 0 || same_id(&maker.trader, &taker.trader) {
                kept.push(maker);
                proof {
                    assert(orders_view(kept@) =~= s.kept.push(maker@));
                }
            } else {
                let amount: u64 = if rest <= maker.amount {
                    rest
                } else {
                    maker.amount
                };
                let m: Match = self.make_match(taker, &maker, price, amount, timestamp_us);
                let ghost f = Fill { price, maker: maker@, amount };
                matches.push(m);
                proof {
                    assert(matches_view(matches@) =~= matches_view(m0).push(m@));
                    assert(matches_of(start, taker@, timestamp_us, s.fills.push(f))
                        =~= matches_of(start, taker@, timestamp_us, s.fills).push(m@));
                }
                rest = rest - amount;
                if maker.amount > amount {
                    let mut partial: Order = maker;
                    partial.amount = partial.amount - amount;
                    kept.push(partial);
                    proof {
                        assert(partial@ == less(lv[it.index()], amount));
                        assert(orders_view(kept@) =~= s.kept.push(less(lv[it.index()], amount)));
                    }
                }
            }
        }
        (kept, rest)
    }

    /// The incoming order goes through the opposite side. Returns what it has left.
    fn match_side(
        &mut self,
        levels: &mut Levels,
        taker: &Order,
        timestamp_us: u64,
        matches: &mut Vec<Match>,
    ) -> (r: u64)
        ensures
            ({
                let s = sweep(levels_view(old(levels)@), taker@);
                &&& levels_view(final(levels)@) == s.levels
                &&& r == s.left
                &&& matches_view(final(matches)@) == matches_view(old(matches)@) + matches_of(
                    old(self)@,
                    taker@,
                    timestamp_us,
                    s.fills,
                )
                &&& final(self)@.cursor == cursor_at(
                    old(self)@.cursor,
                    old(self)@.nodes.len(),
                    s.fills.len(),
                )
            }),
            same_but_cursor(*old(self), *final(self)),
    {
        let prices: Vec<u64> = crossing_prices(levels, taker.side, taker.price);
        let ghost lv = levels_view(levels@);
        let ghost start = self@;
        let ghost before = matches_view(matches@);
        let mut left: u64 = taker.amount;
        let mut n: usize = 0;
        proof {
            assert(lv.dom() =~= levels@.dom());
            assert forall|i: int| 0 <= i < prices@.len() implies levels@.contains_key(
                #[trigger] prices@[i],
            ) by {
                assert(prices@.contains(prices@[i]));
            }
            assert(matches_view(matches@) =~= before + matches_of(
                start,
                taker@,
                timestamp_us,
                Seq::empty(),
            ));
        }
        while n < prices.len()
            invariant
                n <= prices@.len(),
                start == old(self)@,
                before == matches_view(old(matches)@),
                lv == levels_view(old(levels)@),
                prices@ == crossing(lv.dom(), taker.side, taker.price),
                is_crossing(prices@, lv.dom(), taker.side, taker.price),
                same_but_cursor(*old(self), *self),
                forall|i: int| n <= i < prices@.len() ==> levels@.contains_key(#[trigger] prices@[i]),
                ({
                    let s = sweep_prefix(lv, prices@, taker.trader, taker.amount, n as nat);
                    &&& levels_view(levels@) == s.levels
                    &&& left == s.left
                    &&& matches_view(matches@) == before + matches_of(
                        start,
                        taker@,
                        timestamp_us,
                        s.fills,
                    )
                    &&& self@.cursor == cursor_at(start.cursor, start.nodes.len(), s.fills.len())
                }),
            decreases prices@.len() - n,
        {
            let ghost s = sweep_prefix(lv, prices@, taker.trader, taker.amount, n as nat);
            let ghost l0 = levels@;
            let price: u64 = prices[n];
            proof {
                assert forall|i: int| n < i < prices@.len() implies #[trigger] prices@[i]
                    != price by {
                    assert(better(taker.side, prices@[n as int], prices@[i]));
                }
            }
            if left > 0 {
                let ghost mid = self@;
                let ghost m0 = matches_view(matches@);
                match levels.remove(&price) {
                    Some(level) => {
                        proof {
                            assert(levels_view(l0)[price] == orders_view(level@));
                        }
                        let ghost f = fill_level(orders_view(level@), price, taker.trader, left);
                        let (kept, rest): (Vec<Order>, u64) = self.match_level(
                            level,
                            price,
                            taker,
                            left,
                            timestamp_us,
                            matches,
                        );
                        left = rest;
                        proof {
                            lemma_matches_of_adds(
                                start,
                                mid,
                                taker@,
                                timestamp_us,
                                s.fills,
                                f.fills,
                            );
                            assert(matches_view(matches@) =~= before + matches_of(
                                start,
                                taker@,
                                timestamp_us,
                                s.fills + f.fills,
                            ));
                        }
                        if kept.len() > 0 {
                            levels.insert(price, kept);
                            proof {
                                assert(levels_view(levels@) =~= s.levels.insert(price, f.kept));
                            }
                        } else {
                            proof {
                                assert(f.kept.len() == 0);
                                assert(levels_view(levels@) =~= s.levels.remove(price));
                            }
                        }
                    },
                    None => {},
                }
            }
            n = n + 1;
        }
        left
    }

    /// An order comes in at the given time: it trades with what it crosses and what is left of
    /// it rests. Two books that agree, given the same order and the same time, agree afterwards.
    pub fn add_order_at(&mut self, order: Order, timestamp_us: u64) -> (matches: Vec<Match>)
        ensures
            final(self)@ == book_after(old(self)@, order@),
            matches_view(matches@) == matches_after(old(self)@, order@, timestamp_us),
    {
        let mut matches: Vec<Match> = Vec::new();
        let mut levels: Levels = BTreeMap::new();
        match order.side {
            OrderSide::Buy => {
                std::mem::swap(&mut levels, &mut self.asks);
            },
            OrderSide::Sell => {
                std::mem::swap(&mut levels, &mut self.bids);
            },
        }
        let ghost start = self@;
        let left: u64 = self.match_side(&mut levels, &order, timestamp_us, &mut matches);
        match order.side {
            OrderSide::Buy => {
                std::mem::swap(&mut levels, &mut self.asks);
            },
            OrderSide::Sell => {
                std::mem::swap(&mut levels, &mut self.bids);
            },
        }
        proof {
            let b = old(self)@;
            let fills = sweep(opposite_levels(b, order.side), order@).fills;
            assert(matches_of(start, order@, timestamp_us, fills) =~= matches_after(
                b,
                order@,
                timestamp_us,
            ));
            assert(matches_view(matches@) =~= matches_after(b, order@, timestamp_us));
        }
        if left > 0 {
            let mut resting: Order = order;
            resting.amount = left;
            match resting.side {
                OrderSide::Buy => rest_at_price(&mut self.bids, resting),
                OrderSide::Sell => rest_at_price(&mut self.asks, resting),
            }
        }
        matches
    }

    /// An order comes in now, by the machine's wall clock.
    pub fn add_order(&mut self, order: Order) -> (matches: Vec<Match>)
        ensures
            final(self)@ == book_after(old(self)@, order@),
            exists|timestamp_us: u64|
                matches_view(matches@) == #[trigger] matches_after(
                    old(self)@,
                    order@,
                    timestamp_us,
                ),
    {
        let timestamp_us: u64 = unix_micros();
        self.add_order_at(order, timestamp_us)
    }

    /// Withdraws the order with this id, looking at the bids first and at lower prices first.
    /// Its price level stays, even where it is empty now. Returns whether there was one.
    pub fn cancel_order(&mut self, order_id: Id32) -> (r: bool)
        ensures
            r == book_has_id(old(self)@, order_id),
            final(self)@ == book_without(old(self)@, order_id),
    {
        if cancel_in(&mut self.bids, &order_id) {
            return true;
        }
        cancel_in(&mut self.asks, &order_id)
    }
}

/// The level holds an order with this id.
pub open spec fn has_id(level: Seq<OrderSpec>, id: Id32) -> bool {
    exists|i: int| 0 <= i < level.len() && (#[trigger] level[i]).id == id
}

/// The first order of the level with this id is at `i`.
pub open spec fn is_first_with(level: Seq<OrderSpec>, id: Id32, i: int) -> bool {
    &&& 0 <= i < level.len()
    &&& level[i].id == id
    &&& forall|j: int| 0 <= j < i ==> (#[trigger] level[j]).id != id
}

/// There is an order with this id at price `p`.
pub open spec fn holds_id(levels: Map<u64, Seq<OrderSpec>>, id: Id32, p: u64) -> bool {
    levels.contains_key(p) && has_id(levels[p], id)
}

/// `p` is the lowest price at which there is an order with this id.
pub open spec fn is_lowest_with(levels: Map<u64, Seq<OrderSpec>>, id: Id32, p: u64) -> bool {
    &&& holds_id(levels, id, p)
    &&& forall|q: u64| #[trigger] holds_id(levels, id, q) ==> p <= q
}

/// Some level of the side holds an order with this id.
pub open spec fn side_has_id(levels: Map<u64, Seq<OrderSpec>>, id: Id32) -> bool {
    exists|p: u64| #[trigger] holds_id(levels, id, p)
}

/// The side without the first order with this id at the lowest price that has one.
pub open spec fn side_without(levels: Map<u64, Seq<OrderSpec>>, id: Id32) -> Map<
    u64,
    Seq<OrderSpec>,
> {
    let p = choose|p: u64| is_lowest_with(levels, id, p);
    let i = choose|i: int| is_first_with(levels[p], id, i);
    levels.insert(p, levels[p].remove(i))
}

/// Some order of the book has this id.
pub open spec fn book_has_id(b: BookSpec, id: Id32) -> bool {
    side_has_id(b.bids, id) || side_has_id(b.asks, id)
}

/// The book after the order with this id was withdrawn.
pub open spec fn book_without(b: BookSpec, id: Id32) -> BookSpec {
    if side_has_id(b.bids, id) {
        BookSpec { bids: side_without(b.bids, id), ..b }
    } else if side_has_id(b.asks, id) {
        BookSpec { asks: side_without(b.asks, id), ..b }
    } else {
        b
    }
}

/// Where in a level the first order with this id is.
fn find_in_level(level: &Vec<Order>, id: &Id32) -> (r: Option<usize>)
    ensures
        match r {
            Some(i) => is_first_with(orders_view(level@), *id, i as int),
            None => !has_id(orders_view(level@), *id),
        },
{
    let mut i: usize = 0;
    while i < level.len()
        invariant
            i <= level@.len(),
            forall|j: int| 0 <= j < i ==> (#[trigger] orders_view(level@)[j]).id != *id,
        decreases level@.len() - i,
    {
        if same_id(&level[i].id, id) {
            assert(orders_view(level@)[i as int].id == *id);
            return Some(i);
        }
        i = i + 1;
    }
    None
}

/// Withdraws an order from one side.
fn cancel_in(levels: &mut Levels, id: &Id32) -> (r: bool)
    ensures
        r == side_has_id(levels_view(old(levels)@), *id),
        r ==> levels_view(final(levels)@) == side_without(levels_view(old(levels)@), *id),
        !r ==> levels_view(final(levels)@) == levels_view(old(levels)@),
{
    let prices: Vec<u64> = sorted_prices(levels);
    let ghost lv = levels_view(levels@);
    let mut n: usize = 0;
    while n < prices.len()
        invariant
            n <= prices@.len(),
            levels@ == old(levels)@,
            lv == levels_view(levels@),
            forall|i: int, j: int|
                0 <= i < j < prices@.len() ==> #[trigger] prices@[i] < #[trigger] prices@[j],
            forall|p: u64| #[trigger] prices@.contains(p) <==> levels@.contains_key(p),
            forall|i: int| 0 <= i < n ==> !holds_id(lv, *id, #[trigger] prices@[i]),
        decreases prices@.len() - n,
    {
        let price: u64 = prices[n];
        proof {
            assert(prices@.contains(price));
        }
        let found: Option<usize> = match levels.get(&price) {
            Some(level) => find_in_level(level, id),
            None => None,
        };
        if let Some(i) = found {
            proof {
                assert(is_first_with(lv[price], *id, i as int));
                assert(has_id(lv[price], *id));
                assert(holds_id(lv, *id, price));
                assert forall|q: u64| #[trigger] holds_id(lv, *id, q) implies price <= q by {
                    assert(prices@.contains(q));
                    let k = choose|k: int| 0 <= k < prices@.len() && prices@[k] == q;
                    assert(n <= k);
                    if n < k {
                        assert(prices@[n as int] < prices@[k]);
                    }
                }
                assert(is_lowest_with(lv, *id, price));
                let p = choose|p: u64| is_lowest_with(lv, *id, p);
                assert(holds_id(lv, *id, p));
                assert(p == price);
                let j = choose|j: int| is_first_with(lv[price], *id, j);
                assert(is_first_with(lv[price], *id, j));
                assert(j == i);
            }
            if let Some(level) = levels.remove(&price) {
                let mut level: Vec<Order> = level;
                let ghost l0 = level@;
                level.remove(i);
                proof {
                    assert(orders_view(level@) =~= orders_view(l0).remove(i as int));
                }
                levels.insert(price, level);
                proof {
                    assert(levels_view(levels@) =~= lv.insert(price, lv[price].remove(i as int)));
                }
            }
            return true;
        }
        n = n + 1;
    }
    proof {
        assert forall|p: u64| !#[trigger] holds_id(lv, *id, p) by {
            if holds_id(lv, *id, p) {
                assert(prices@.contains(p));
            }
        }
    }
    false
}

/// An order joins the queue at its price.
fn rest_at_price(levels: &mut Levels, order: Order)
    ensures
        levels_view(final(levels)@) == rest_order(levels_view(old(levels)@), order@),
{
    let ghost lv = levels_view(levels@);
    let ghost o = order@;
    let price: u64 = order.price;
    let mut level: Vec<Order> = match levels.remove(&price) {
        Some(level) => level,
        None => Vec::new(),
    };
    proof {
        assert(orders_view(level@) =~= level_at(lv, price));
    }
    let ghost l0 = level@;
    level.push(order);
    proof {
        assert(orders_view(level@) =~= orders_view(l0).push(o));
    }
    levels.insert(price, level);
    proof {
        assert(levels_view(levels@) =~= rest_order(lv, o));
    }
}

} // verus!
