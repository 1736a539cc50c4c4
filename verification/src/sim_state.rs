//! A simulation on a single book.

use crate::agents::{
    agent_report, lists_agents, new_agent, reports_view, AgentConfig, AgentSpec,
    AgentStateSnapshot, AgentTracker,
};
use crate::book::{book_after, levels_view, matches_after, sorted_prices, BookSpec, Levels, OrderBook};
use crate::bytes::Id32;
use crate::queries::{level_total, match_involves, total_of, totals_fit};
use crate::sim_matches::{make_noise_order, noise_nonce, noise_order, NoiseDraw};
use crate::sim_reports::{
    comes_first, copy_prices, has_price, is_best, last_trades, ranked, DEPTH_LEVELS,
};
use crate::sim_types::{
    record_of, trades_view, BidAskLevel, BookDepth, PricePoint, Quote, TradeRecord, TradeRecordSpec,
};
use crate::types::{matches_view, Match, MatchSpec, Order, OrderSide, OrderSpec};
use vstd::prelude::*;

verus! {

broadcast use {vstd::std_specs::btree::group_btree_axioms, vstd::laws_cmp::group_laws_cmp};

/// One book and the agents that trade in it. Times are in microseconds.
pub struct SimulationState {
    pub book: OrderBook,
    pub agents: AgentTracker,
    pub virtual_time_us: u64,
    pub step_number: u64,
    pub recent_trades: Vec<TradeRecord>,
    pub price_history: Vec<PricePoint>,
    pub total_volume: u64,
    pub matches_buffer: Vec<Match>,
}

/// What a [`SimulationState`] stands for.
#[verifier::ext_equal]
pub struct StateSpec {
    pub book: BookSpec,
    pub agents: Map<Seq<char>, AgentSpec>,
    pub now_us: u64,
    pub step_number: u64,
    pub trades: Seq<TradeRecordSpec>,
    pub prices: Seq<PricePoint>,
    pub volume: u64,
    pub buffer: Seq<MatchSpec>,
}

impl View for SimulationState {
    type V = StateSpec;

    open spec fn view(&self) -> StateSpec {
        StateSpec {
            book: self.book@,
            agents: self.agents@,
            now_us: self.virtual_time_us,
            step_number: self.step_number,
            trades: trades_view(self.recent_trades@),
            prices: self.price_history@,
            volume: self.total_volume,
            buffer: matches_view(self.matches_buffer@),
        }
    }
}

/// `r` are the best levels of a side, with what rests there and in how many orders.
pub open spec fn is_book_side(
    r: Seq<BidAskLevel>,
    levels: Map<u64, Seq<OrderSpec>>,
    side: OrderSide,
) -> bool {
    is_best(
        r,
        levels.dom(),
        side,
        DEPTH_LEVELS as nat,
        |p: u64| level_total(levels[p]),
        |p: u64| levels[p].len(),
    )
}

/// `r` is the best price of a side, if there is any.
pub open spec fn is_top(r: Option<u64>, levels: Map<u64, Seq<OrderSpec>>, side: OrderSide) -> bool {
    match r {
        Some(b) => levels.contains_key(b) && forall|p: u64| #[trigger]
            levels.contains_key(p) ==> p == b || comes_first(side, b, p),
        None => forall|p: u64| !#[trigger] levels.contains_key(p),
    }
}

fn top_levels(levels: &Levels, side: OrderSide) -> (r: Vec<BidAskLevel>)
    requires
        totals_fit(levels_view(levels@)),
    ensures
        is_book_side(r@, levels_view(levels@), side),
{
    let ghost lv = levels_view(levels@);
    let prices: Vec<u64> = sorted_prices(levels);
    let n: usize = if prices.len() < DEPTH_LEVELS {
        prices.len()
    } else {
        DEPTH_LEVELS
    };
    let mut out: Vec<BidAskLevel> = Vec::new();
    let mut k: usize = 0;
    while k < n
        invariant
            k <= n <= prices@.len(),
            lv == levels_view(levels@),
            totals_fit(lv),
            forall|p: u64| #[trigger] prices@.contains(p) <==> levels@.contains_key(p),
            out@.len() == k,
            forall|j: int|
                0 <= j < k ==> (#[trigger] out@[j]).price == prices@[ranked(
                    side,
                    prices@.len(),
                    j,
                )] && out@[j].total_amount == level_total(lv[out@[j].price]) && out@[j].order_count
                    == lv[out@[j].price].len(),
        decreases n - k,
    {
        let at: usize = match side {
            OrderSide::Buy => prices.len() - 1 - k,
            OrderSide::Sell => k,
        };
        let price: u64 = prices[at];
        proof {
            assert(prices@.contains(price));
            assert(lv.contains_key(price));
        }
        let (total_amount, order_count): (u64, usize) = match levels.get(&price) {
            Some(level) => (total_of(level), level.len()),
            None => (0, 0),
        };
        out.push(BidAskLevel { price, total_amount, order_count });
        k = k + 1;
    }
    proof {
        let dom = lv.dom();
        assert forall|i: int|
            0 <= i < out@.len() implies dom.contains((#[trigger] out@[i]).price) by {
            let x = ranked(side, prices@.len(), i);
            assert(prices@[x] == out@[i].price);
            assert(prices@.contains(out@[i].price));
        }
        assert forall|p: u64| #[trigger] dom.contains(p) implies has_price(out@, p) || out@.len()
            == DEPTH_LEVELS && (forall|i: int|
            0 <= i < out@.len() ==> comes_first(side, (#[trigger] out@[i]).price, p)) by {
            assert(levels@.contains_key(p));
            assert(prices@.contains(p));
            let x = choose|x: int| 0 <= x < prices@.len() && prices@[x] == p;
            let j = ranked(side, prices@.len(), x);
            assert(ranked(side, prices@.len(), j) == x);
            if j < out@.len() {
                assert(out@[j].price == p);
            } else {
                assert forall|i: int| 0 <= i < out@.len() implies comes_first(
                    side,
                    (#[trigger] out@[i]).price,
                    p,
                ) by {
                    let y = ranked(side, prices@.len(), i);
                    assert(prices@[y] == out@[i].price);
                }
            }
        }
        assert forall|i: int, j: int| 0 <= i < j < out@.len() implies comes_first(
            side,
            (#[trigger] out@[i]).price,
            (#[trigger] out@[j]).price,
        ) by {
            let x = ranked(side, prices@.len(), i);
            let y = ranked(side, prices@.len(), j);
            assert(prices@[x] == out@[i].price);
            assert(prices@[y] == out@[j].price);
        }
    }
    out
}

fn top_price(levels: &Levels, side: OrderSide) -> (r: Option<u64>)
    ensures
        is_top(r, levels_view(levels@), side),
{
    let ghost lv = levels_view(levels@);
    let prices: Vec<u64> = sorted_prices(levels);
    proof {
        assert forall|p: u64| #[trigger] lv.contains_key(p) <==> prices@.contains(p) by {
            assert(lv.contains_key(p) <==> levels@.contains_key(p));
        }
    }
    if prices.len() == 0 {
        return None;
    }
    let at: usize = match side {
        OrderSide::Buy => prices.len() - 1,
        OrderSide::Sell => 0,
    };
    let b: u64 = prices[at];
    proof {
        assert(prices@.contains(b));
        assert forall|p: u64| #[trigger] lv.contains_key(p) implies p == b || comes_first(
            side,
            b,
            p,
        ) by {
            assert(prices@.contains(p));
            let x = choose|x: int| 0 <= x < prices@.len() && prices@[x] == p;
            if x != at {
                assert(prices@[x] == p);
            }
        }
    }
    Some(b)
}

/// The matches among the first `n` that a trader took part in, on record, and the others.
pub open spec fn drained(s: StateSpec, trader: Id32, n: nat) -> (
    Seq<TradeRecordSpec>,
    Seq<MatchSpec>,
)
    decreases n,
{
    if n == 0 {
        (Seq::empty(), Seq::empty())
    } else {
        let (mine, rest) = drained(s, trader, (n - 1) as nat);
        let m = s.buffer[n - 1];
        if m.maker_trader == trader || m.taker_trader == trader {
            (mine.push(record_of(m, s.now_us, 0)), rest)
        } else {
            (mine, rest.push(m))
        }
    }
}

/// What a simulation on a single book reports of itself.
pub struct BookReport {
    pub virtual_time_us: u64,
    pub step_number: u64,
    pub symbol: String,
    pub book: BookDepth,
    pub agents: Vec<AgentStateSnapshot>,
    pub recent_trades: Vec<TradeRecord>,
    pub price_history: Vec<PricePoint>,
    pub total_volume: u64,
}

impl SimulationState {
    /// A simulation with an empty book and no agents.
    pub fn new(symbol: String) -> (r: Self)
        ensures
            r@ == (StateSpec {
                book: crate::mesh::empty_book(symbol@),
                agents: Map::empty(),
                now_us: 0,
                step_number: 0,
                trades: Seq::empty(),
                prices: Seq::empty(),
                volume: 0,
                buffer: Seq::empty(),
            }),
    {
        let r = SimulationState {
            book: OrderBook::new(symbol),
            agents: AgentTracker::new(),
            virtual_time_us: 0,
            step_number: 0,
            recent_trades: Vec::new(),
            price_history: Vec::new(),
            total_volume: 0,
            matches_buffer: Vec::new(),
        };
        proof {
            assert(r@.trades =~= Seq::empty());
            assert(r@.buffer =~= Seq::empty());
        }
        r
    }

    /// Sets an agent up.
    pub fn register_agent(&mut self, config: AgentConfig)
        ensures
            final(self)@ == (StateSpec {
                agents: old(self)@.agents.insert(
                    config.id@,
                    new_agent(config.id@, config.initial_capital),
                ),
                ..old(self)@
            }),
    {
        self.agents.register(config);
    }

    /// The best levels of both sides. A single book belongs to no node and no region.
    pub fn get_book_depth(&self) -> (r: BookDepth)
        requires
            totals_fit(self@.book.bids),
            totals_fit(self@.book.asks),
        ensures
            r.symbol@ == self@.book.symbol,
            r.node_id == 0,
            r.region@ == Seq::<char>::empty(),
            is_book_side(r.bids@, self@.book.bids, OrderSide::Buy),
            is_book_side(r.asks@, self@.book.asks, OrderSide::Sell),
    {
        BookDepth {
            symbol: self.book.symbol.clone(),
            node_id: 0,
            region: String::new(),
            bids: top_levels(&self.book.bids, OrderSide::Buy),
            asks: top_levels(&self.book.asks, OrderSide::Sell),
        }
    }

    /// The best prices of both sides.
    pub fn quote(&self) -> (r: Quote)
        ensures
            is_top(r.bid, self@.book.bids, OrderSide::Buy),
            is_top(r.ask, self@.book.asks, OrderSide::Sell),
    {
        Quote {
            bid: top_price(&self.book.bids, OrderSide::Buy),
            ask: top_price(&self.book.asks, OrderSide::Sell),
        }
    }

    /// Notes the prices and reports.
    pub fn snapshot(&mut self) -> (r: BookReport)
        requires
            totals_fit(old(self)@.book.bids),
            totals_fit(old(self)@.book.asks),
        ensures
            final(self)@.prices.len() == old(self)@.prices.len() + 1,
            final(self)@ == (StateSpec {
                prices: old(self)@.prices.push(final(self)@.prices.last()),
                ..old(self)@
            }),
            ({
                let p = final(self)@.prices.last();
                &&& p.timestamp_us == old(self)@.now_us
                &&& is_top(p.quote.bid, old(self)@.book.bids, OrderSide::Buy)
                &&& is_top(p.quote.ask, old(self)@.book.asks, OrderSide::Sell)
                &&& p.last_trade_price == (if old(self)@.trades.len() > 0 {
                    Some(old(self)@.trades.last().price)
                } else {
                    None
                })
            }),
            r.virtual_time_us == old(self)@.now_us,
            r.step_number == old(self)@.step_number,
            r.symbol@ == old(self)@.book.symbol,
            r.book.symbol@ == old(self)@.book.symbol,
            is_book_side(r.book.bids@, old(self)@.book.bids, OrderSide::Buy),
            is_book_side(r.book.asks@, old(self)@.book.asks, OrderSide::Sell),
            lists_agents(old(self).agents.order(), old(self)@.agents),
            reports_view(r.agents@) == Seq::new(
                old(self).agents.order().len(),
                |i: int| agent_report(old(self)@.agents[old(self).agents.order()[i]]),
            ),
            trades_view(r.recent_trades@) == old(self)@.trades,
            r.price_history@ == final(self)@.prices,
            r.total_volume == old(self)@.volume,
    {
        let quote: Quote = self.quote();
        let last_trade_price: Option<u64> = if self.recent_trades.len() > 0 {
            Some(self.recent_trades[self.recent_trades.len() - 1].price)
        } else {
            None
        };
        self.price_history.push(
            PricePoint { timestamp_us: self.virtual_time_us, quote, last_trade_price },
        );
        let recent: Vec<TradeRecord> = last_trades(&self.recent_trades, self.recent_trades.len());
        BookReport {
            virtual_time_us: self.virtual_time_us,
            step_number: self.step_number,
            symbol: self.book.symbol.clone(),
            book: self.get_book_depth(),
            agents: self.agents.all_snapshots(),
            recent_trades: recent,
            price_history: copy_prices(&self.price_history),
            total_volume: self.total_volume,
        }
    }

    /// Takes out the waiting matches that a trader took part in, on record.
    pub fn drain_matches_for_trader(&mut self, trader: &Id32) -> (r: Vec<TradeRecord>)
        ensures
            trades_view(r@) == drained(old(self)@, *trader, old(self)@.buffer.len()).0,
            final(self)@ == (StateSpec {
                buffer: drained(old(self)@, *trader, old(self)@.buffer.len()).1,
                ..old(self)@
            }),
    {
        let ghost s = self@;
        let mut all: Vec<Match> = Vec::new();
        std::mem::swap(&mut all, &mut self.matches_buffer);
        let ghost av = all@;
        let mut mine: Vec<TradeRecord> = Vec::new();
        let mut rest: Vec<Match> = Vec::new();
        proof {
            assert(trades_view(mine@) =~= Seq::empty());
            assert(matches_view(rest@) =~= Seq::empty());
        }
        for m in it: all.into_iter()
            invariant
                it.seq() == av,
                s.buffer == matches_view(av),
                s.now_us == self.virtual_time_us,
                trades_view(mine@) == drained(s, *trader, it.index() as nat).0,
                matches_view(rest@) == drained(s, *trader, it.index() as nat).1,
        {
            let ghost m0 = mine@;
            let ghost r0 = rest@;
            let ghost mv = m@;
            proof {
                assert(s.buffer[it.index()] == mv);
            }
            if match_involves(&m, trader) {
                let record: TradeRecord = TradeRecord::of(&m, self.virtual_time_us, 0);
                let ghost rv = record@;
                mine.push(record);
                proof {
                    assert(trades_view(mine@) =~= trades_view(m0).push(rv));
                }
            } else {
                rest.push(m);
                proof {
                    assert(matches_view(rest@) =~= matches_view(r0).push(mv));
                }
            }
        }
        self.matches_buffer = rest;
        mine
    }

    /// An order of background noise meets the book now, by the machine's wall clock. `count` is
    /// how many such orders the step has.
    pub fn add_noise(&mut self, draw: &NoiseDraw, count: u64)
        requires
            noise_nonce(old(self)@.step_number, 100, count as nat) <= u64::MAX,
        ensures
            exists|t: u64| #[trigger]
                noise_met(
                    old(self)@,
                    noise_order(
                        old(self)@.book.symbol,
                        *draw,
                        noise_nonce(old(self)@.step_number, 100, count as nat) as u64,
                    ),
                    t,
                ) == final(self)@,
    {
        let ghost s = self@;
        let nonce: u64 = self.step_number * 100 + count;
        let order: Order = make_noise_order(self.book.symbol.as_str(), draw, nonce);
        let ghost o = order@;
        let mut ms: Vec<Match> = self.book.add_order(order);
        let ghost mv = matches_view(ms@);
        let ghost before = self.matches_buffer@;
        self.matches_buffer.append(&mut ms);
        proof {
            let t = choose|t: u64| mv == #[trigger] matches_after(s.book, o, t);
            assert(matches_view(self.matches_buffer@) =~= matches_view(before) + mv);
            assert(noise_met(s, o, t) =~= self@);
        }
    }
}

/// An order of background noise has met the book at time `t`.
pub open spec fn noise_met(s: StateSpec, o: OrderSpec, t: u64) -> StateSpec {
    StateSpec {
        book: book_after(s.book, o),
        buffer: s.buffer + matches_after(s.book, o, t),
        ..s
    }
}

/// Nothing is left for a trader once the matches that it took part in have been taken out.
pub proof fn law_drained_once(s: StateSpec, trader: Id32, n: nat, i: int)
    requires
        n <= s.buffer.len(),
        0 <= i < drained(s, trader, n).1.len(),
    ensures
        drained(s, trader, n).1[i].maker_trader != trader,
        drained(s, trader, n).1[i].taker_trader != trader,
        drained(s, trader, n).0.len() + drained(s, trader, n).1.len() == n,
    decreases n,
{
    let before = drained(s, trader, (n - 1) as nat);
    lemma_drained_len(s, trader, n);
    if i < before.1.len() {
        law_drained_once(s, trader, (n - 1) as nat, i);
    }
}

proof fn lemma_drained_len(s: StateSpec, trader: Id32, n: nat)
    ensures
        drained(s, trader, n).0.len() + drained(s, trader, n).1.len() == n,
    decreases n,
{
    if n > 0 {
        lemma_drained_len(s, trader, (n - 1) as nat);
    }
}

/// Draining splits the waiting matches: those that the trader took part in, as maker or taker, are
/// handed out on record in their order, and the others stay in theirs.
pub proof fn law_draining_splits_the_matches(s: StateSpec, trader: Id32, n: nat)
    requires
        n <= s.buffer.len(),
    ensures
        drained(s, trader, n).1 == s.buffer.take(n as int).filter(
            |m: MatchSpec| m.maker_trader != trader && m.taker_trader != trader,
        ),
        drained(s, trader, n).0 == s.buffer.take(n as int).filter(
            |m: MatchSpec| m.maker_trader == trader || m.taker_trader == trader,
        ).map_values(|m: MatchSpec| record_of(m, s.now_us, 0)),
    decreases n,
{
    let others = |m: MatchSpec| m.maker_trader != trader && m.taker_trader != trader;
    let mine = |m: MatchSpec| m.maker_trader == trader || m.taker_trader == trader;
    let record = |m: MatchSpec| record_of(m, s.now_us, 0);
    if n > 0 {
        law_draining_splits_the_matches(s, trader, (n - 1) as nat);
        let t = s.buffer.take(n - 1);
        let m = s.buffer[n - 1];
        assert(s.buffer.take(n as int) =~= t.push(m));
        t.lemma_filter_push(m, others);
        t.lemma_filter_push(m, mine);
        if mine(m) {
            assert(t.filter(mine).push(m).map_values(record) =~= t.filter(mine).map_values(
                record,
            ).push(record(m)));
        }
    } else {
        reveal(Seq::filter);
        assert(s.buffer.take(0) =~= Seq::empty());
        assert(s.buffer.take(0).filter(mine).map_values(record) =~= Seq::empty());
    }
}

/// The best price of a side is one that rests there and that no other beats: no bid is higher than the
/// best bid, no ask lower than the best ask. There is none exactly where nothing rests.
pub proof fn law_top_prices_are_not_beaten(
    r: Option<u64>,
    levels: Map<u64, Seq<OrderSpec>>,
    side: OrderSide,
    p: u64,
)
    requires
        is_top(r, levels, side),
    ensures
        r is None ==> !levels.contains_key(p),
        r matches Some(b) ==> levels.contains_key(b),
        r is Some && levels.contains_key(p) && side == OrderSide::Buy ==> p <= r->0,
        r is Some && levels.contains_key(p) && side == OrderSide::Sell ==> p >= r->0,
{
}

/// An order of background noise is matched in the book like any other, and its matches wait behind
/// those that wait already.
pub proof fn law_noise_is_matched(s: StateSpec, o: OrderSpec, t: u64)
    ensures
        ({
            let a = noise_met(s, o, t);
            &&& a.book == book_after(s.book, o)
            &&& a.buffer == s.buffer + matches_after(s.book, o, t)
            &&& a == (StateSpec { book: a.book, buffer: a.buffer, ..s })
        }),
{
}

} // verus!
