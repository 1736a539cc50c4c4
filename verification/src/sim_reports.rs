//! What a simulated mesh reports of itself.

use crate::agents::{agent_report, lists_agents, reports_view, AgentStateSnapshot};
use crate::book::{levels_view, sorted_prices, Levels, OrderBook};
use crate::mesh::{nodes_view, MeshNode, NodeSpec};
use crate::queries::{level_total, total_of};
use crate::sim_types::{
    label_region, region_label, trades_view, BidAskLevel, BookDepth, NodeSnapshot, PricePoint,
    Quote, TradeRecord,
};
use crate::simulation::{MultiNodeSimulation, SimSpec};
use crate::types::{OrderSide, OrderSpec};
use std::collections::BTreeMap;
use vstd::prelude::*;

verus! {

broadcast use {vstd::std_specs::btree::group_btree_axioms, vstd::laws_cmp::group_laws_cmp};

/// How many levels of a side are reported.
pub const DEPTH_LEVELS: usize = 50;

/// How many trades are reported.
pub const RECENT_TRADES: usize = 20;

/// The side of a node's book that orders of one side rest on.
pub open spec fn side_of(n: NodeSpec, side: OrderSide) -> Map<u64, Seq<OrderSpec>> {
    match side {
        OrderSide::Buy => n.book.bids,
        OrderSide::Sell => n.book.asks,
    }
}

/// One of the first `n` nodes is online and has a level at a price.
pub open spec fn listed(nodes: Seq<NodeSpec>, side: OrderSide, p: u64, n: nat) -> bool {
    exists|i: int|
        0 <= i < n && (#[trigger] nodes[i]).online && side_of(nodes[i], side).contains_key(p)
}

/// What rests at a price in a node's book, nothing where the node is not online.
pub open spec fn resting_at(n: NodeSpec, side: OrderSide, p: u64) -> nat {
    if n.online && side_of(n, side).contains_key(p) {
        level_total(side_of(n, side)[p])
    } else {
        0
    }
}

/// What rests at a price in the books of the first `n` nodes.
pub open spec fn resting_among(nodes: Seq<NodeSpec>, side: OrderSide, p: u64, n: nat) -> nat
    decreases n,
{
    if n == 0 {
        0
    } else {
        resting_among(nodes, side, p, (n - 1) as nat) + resting_at(nodes[n - 1], side, p)
    }
}

/// What rests at each price can be held.
pub open spec fn depth_fits(nodes: Seq<NodeSpec>) -> bool {
    forall|side: OrderSide, p: u64| #[trigger]
        resting_among(nodes, side, p, nodes.len()) <= u64::MAX
}

/// Which prices come first among the best of a side: the highest bids and the lowest asks.
pub open spec fn comes_first(side: OrderSide, a: u64, b: u64) -> bool {
    match side {
        OrderSide::Buy => a > b,
        OrderSide::Sell => a < b,
    }
}

/// The levels `r` are the best of a side: best first, at most `max` of them, and none is left out
/// but for worse ones that there was no room for. Each says what rests there, in how many orders.
pub open spec fn is_best(
    r: Seq<BidAskLevel>,
    prices: Set<u64>,
    side: OrderSide,
    max: nat,
    total: spec_fn(u64) -> nat,
    count: spec_fn(u64) -> nat,
) -> bool {
    &&& r.len() <= max
    &&& forall|i: int, j: int|
        0 <= i < j < r.len() ==> comes_first(side, (#[trigger] r[i]).price, (#[trigger] r[j]).price)
    &&& forall|i: int|
        0 <= i < r.len() ==> prices.contains((#[trigger] r[i]).price) && r[i].total_amount == total(
            r[i].price,
        ) && r[i].order_count == count(r[i].price)
    &&& forall|p: u64| #[trigger] prices.contains(p) ==> has_price(r, p) || r.len() == max && (
    forall|i: int| 0 <= i < r.len() ==> comes_first(side, (#[trigger] r[i]).price, p))
}

/// Some level is at price `p`.
pub open spec fn has_price(r: Seq<BidAskLevel>, p: u64) -> bool {
    exists|i: int| 0 <= i < r.len() && (#[trigger] r[i]).price == p
}

/// `r` is the highest bid or the lowest ask of those of the first `n` nodes that are online, if
/// there is any.
pub open spec fn best_among(r: Option<u64>, nodes: Seq<NodeSpec>, side: OrderSide, n: nat) -> bool {
    match r {
        Some(b) => listed(nodes, side, b, n) && forall|p: u64| #[trigger]
            listed(nodes, side, p, n) ==> p == b || comes_first(side, b, p),
        None => forall|p: u64| !#[trigger] listed(nodes, side, p, n),
    }
}

/// `r` is the highest bid or the lowest ask of the nodes that are online, if there is any.
pub open spec fn is_best_price(r: Option<u64>, nodes: Seq<NodeSpec>, side: OrderSide) -> bool {
    best_among(r, nodes, side, nodes.len())
}

/// A node's side of the book.
fn side_levels(book: &OrderBook, side: OrderSide) -> (r: &Levels)
    ensures
        levels_view(r@) == (match side {
            OrderSide::Buy => book@.bids,
            OrderSide::Sell => book@.asks,
        }),
{
    match side {
        OrderSide::Buy => &book.bids,
        OrderSide::Sell => &book.asks,
    }
}

proof fn lemma_resting_grows(nodes: Seq<NodeSpec>, side: OrderSide, p: u64, n: nat, m: nat)
    requires
        n <= m,
    ensures
        resting_among(nodes, side, p, n) <= resting_among(nodes, side, p, m),
    decreases m,
{
    if n < m {
        lemma_resting_grows(nodes, side, p, n, (m - 1) as nat);
    }
}

proof fn lemma_listed_step(nodes: Seq<NodeSpec>, side: OrderSide, p: u64, n: nat)
    requires
        n < nodes.len(),
    ensures
        listed(nodes, side, p, n + 1) <==> listed(nodes, side, p, n) || (nodes[n as int].online
            && side_of(nodes[n as int], side).contains_key(p)),
{
    if listed(nodes, side, p, n) {
        let i = choose|i: int|
            0 <= i < n && (#[trigger] nodes[i]).online && side_of(nodes[i], side).contains_key(p);
        assert(nodes[i].online);
    }
    if nodes[n as int].online && side_of(nodes[n as int], side).contains_key(p) {
        assert(nodes[n as int].online);
    }
    if listed(nodes, side, p, n + 1) {
        let i = choose|i: int|
            0 <= i < n + 1 && (#[trigger] nodes[i]).online && side_of(nodes[i], side).contains_key(
                p,
            );
        if i < n {
            assert(nodes[i].online);
        }
    }
}

/// Adds up what rests at each price in one node's book.
fn add_side(
    sums: &mut BTreeMap<u64, u64>,
    node: &MeshNode,
    side: OrderSide,
    nodes: Ghost<Seq<NodeSpec>>,
    i: Ghost<int>,
)
    requires
        0 <= i@ < nodes@.len(),
        nodes@[i@] == node@,
        node.online,
        depth_fits(nodes@),
        forall|p: u64| #[trigger]
            old(sums)@.contains_key(p) <==> listed(nodes@, side, p, i@ as nat),
        forall|p: u64| #[trigger]
            old(sums)@.contains_key(p) ==> old(sums)@[p] == resting_among(
                nodes@,
                side,
                p,
                i@ as nat,
            ),
    ensures
        forall|p: u64| #[trigger]
            final(sums)@.contains_key(p) <==> listed(nodes@, side, p, (i@ + 1) as nat),
        forall|p: u64| #[trigger]
            final(sums)@.contains_key(p) ==> final(sums)@[p] == resting_among(
                nodes@,
                side,
                p,
                (i@ + 1) as nat,
            ),
{
    let ghost before = sums@;
    let levels: &Levels = side_levels(&node.orderbook, side);
    let ghost lv = side_of(node@, side);
    let prices: Vec<u64> = sorted_prices(levels);
    let mut k: usize = 0;
    while k < prices.len()
        invariant
            k <= prices@.len(),
            0 <= i@ < nodes@.len(),
            nodes@[i@] == node@,
            node.online,
            depth_fits(nodes@),
            lv == side_of(node@, side),
            levels_view(levels@) == lv,
            forall|a: int, b: int|
                0 <= a < b < prices@.len() ==> #[trigger] prices@[a] < #[trigger] prices@[b],
            forall|p: u64| #[trigger] prices@.contains(p) <==> levels@.contains_key(p),
            forall|p: u64| #[trigger]
                before.contains_key(p) <==> listed(nodes@, side, p, i@ as nat),
            forall|p: u64| #[trigger]
                before.contains_key(p) ==> before[p] == resting_among(nodes@, side, p, i@ as nat),
            forall|p: u64| #[trigger]
                sums@.contains_key(p) <==> before.contains_key(p) || prices@.take(
                    k as int,
                ).contains(p),
            forall|p: u64| #[trigger]
                sums@.contains_key(p) ==> sums@[p] == resting_among(nodes@, side, p, i@ as nat) + (
                if prices@.take(k as int).contains(p) {
                    level_total(lv[p])
                } else {
                    0
                }),
        decreases prices@.len() - k,
    {
        let p: u64 = prices[k];
        let ghost a = prices@.take(k as int);
        let ghost b = prices@.take(k + 1);
        let ghost mid = sums@;
        proof {
            assert(prices@.contains(p));
            assert(lv.contains_key(p));
            assert(b =~= a.push(p));
            assert(!a.contains(p)) by {
                if a.contains(p) {
                    let x = choose|x: int| 0 <= x < a.len() && a[x] == p;
                    assert(prices@[x] < prices@[k as int]);
                }
            }
            lemma_resting_grows(nodes@, side, p, (i@ + 1) as nat, nodes@.len());
            assert(resting_among(nodes@, side, p, nodes@.len()) <= u64::MAX);
            assert(resting_among(nodes@, side, p, (i@ + 1) as nat) == resting_among(
                nodes@,
                side,
                p,
                i@ as nat,
            ) + level_total(lv[p]));
            if !before.contains_key(p) {
                lemma_unlisted(nodes@, side, p, i@ as nat);
            }
        }
        let here: u64 = match levels.get(&p) {
            Some(level) => total_of(level),
            None => 0,
        };
        let sum: u64 = match sums.get(&p) {
            Some(s) => *s,
            None => 0,
        };
        sums.insert(p, sum + here);
        proof {
            assert forall|q: u64| #[trigger]
                sums@.contains_key(q) <==> before.contains_key(q) || b.contains(q) by {
                assert(mid.contains_key(q) <==> before.contains_key(q) || a.contains(q));
                if a.contains(q) {
                    let x = choose|x: int| 0 <= x < a.len() && a[x] == q;
                    assert(b[x] == q);
                }
                if q == p {
                    assert(b[k as int] == q);
                }
            }
            assert forall|q: u64| #[trigger] sums@.contains_key(q) implies sums@[q]
                == resting_among(nodes@, side, q, i@ as nat) + if b.contains(q) {
                level_total(lv[q])
            } else {
                0
            } by {
                if q == p {
                    assert(b[k as int] == q);
                } else {
                    assert(mid.contains_key(q));
                    assert(a.contains(q) <==> b.contains(q)) by {
                        if a.contains(q) {
                            let x = choose|x: int| 0 <= x < a.len() && a[x] == q;
                            assert(b[x] == q);
                        }
                        if b.contains(q) {
                            let x = choose|x: int| 0 <= x < b.len() && b[x] == q;
                            assert(x < a.len());
                            assert(a[x] == q);
                        }
                    }
                }
            }
        }
        k = k + 1;
    }
    proof {
        assert(prices@.take(prices@.len() as int) =~= prices@);
        assert forall|p: u64| #[trigger]
            sums@.contains_key(p) <==> listed(nodes@, side, p, (i@ + 1) as nat) by {
            lemma_listed_step(nodes@, side, p, i@ as nat);
            assert(prices@.contains(p) <==> levels@.contains_key(p));
            assert(lv.contains_key(p) <==> levels@.contains_key(p));
        }
        assert forall|p: u64| #[trigger] sums@.contains_key(p) implies sums@[p] == resting_among(
            nodes@,
            side,
            p,
            (i@ + 1) as nat,
        ) by {
            assert(prices@.contains(p) <==> levels@.contains_key(p));
            assert(lv.contains_key(p) <==> levels@.contains_key(p));
        }
    }
}

proof fn lemma_unlisted(nodes: Seq<NodeSpec>, side: OrderSide, p: u64, n: nat)
    requires
        n <= nodes.len(),
        !listed(nodes, side, p, n),
    ensures
        resting_among(nodes, side, p, n) == 0,
    decreases n,
{
    if n > 0 {
        let k = (n - 1) as nat;
        lemma_listed_step(nodes, side, p, k);
        lemma_unlisted(nodes, side, p, k);
    }
}

/// The best levels of a side, the nodes' books taken together.
fn best_levels(nodes: &Vec<MeshNode>, side: OrderSide) -> (r: Vec<BidAskLevel>)
    requires
        depth_fits(nodes_view(nodes@)),
    ensures
        is_best(
            r@,
            Set::new(|p: u64| listed(nodes_view(nodes@), side, p, nodes@.len())),
            side,
            DEPTH_LEVELS as nat,
            |p: u64| resting_among(nodes_view(nodes@), side, p, nodes@.len()),
            |p: u64| 0,
        ),
{
    let ghost nv = nodes_view(nodes@);
    let mut sums: BTreeMap<u64, u64> = BTreeMap::new();
    let mut i: usize = 0;
    while i < nodes.len()
        invariant
            i <= nodes@.len(),
            nv == nodes_view(nodes@),
            depth_fits(nv),
            forall|p: u64| #[trigger] sums@.contains_key(p) <==> listed(nv, side, p, i as nat),
            forall|p: u64| #[trigger]
                sums@.contains_key(p) ==> sums@[p] == resting_among(nv, side, p, i as nat),
        decreases nodes@.len() - i,
    {
        let ghost mid = sums@;
        proof {
            assert(nv[i as int] == nodes@[i as int]@);
        }
        if nodes[i].online {
            add_side(&mut sums, &nodes[i], side, Ghost(nv), Ghost(i as int));
        } else {
            proof {
                assert forall|p: u64| #[trigger]
                    sums@.contains_key(p) <==> listed(nv, side, p, (i + 1) as nat) by {
                    lemma_listed_step(nv, side, p, i as nat);
                }
            }
        }
        i = i + 1;
    }
    let prices: Vec<u64> = sorted_prices(&sums);
    let n: usize = if prices.len() < DEPTH_LEVELS {
        prices.len()
    } else {
        DEPTH_LEVELS
    };
    let mut out: Vec<BidAskLevel> = Vec::new();
    let mut k: usize = 0;
    while k < n
        invariant
            k <= n <= prices@.len(),
            nv == nodes_view(nodes@),
            forall|p: u64| #[trigger] prices@.contains(p) <==> sums@.contains_key(p),
            forall|p: u64| #[trigger]
                sums@.contains_key(p) ==> sums@[p] == resting_among(nv, side, p, nodes@.len()),
            out@.len() == k,
            forall|j: int|
                0 <= j < k ==> (#[trigger] out@[j]).price == prices@[ranked(
                    side,
                    prices@.len(),
                    j,
                )] && out@[j].total_amount == resting_among(nv, side, out@[j].price, nodes@.len())
                    && out@[j].order_count == 0,
        decreases n - k,
    {
        let at: usize = match side {
            OrderSide::Buy => prices.len() - 1 - k,
            OrderSide::Sell => k,
        };
        let price: u64 = prices[at];
        proof {
            assert(prices@.contains(price));
        }
        let total_amount: u64 = match sums.get(&price) {
            Some(s) => *s,
            None => 0,
        };
        out.push(BidAskLevel { price, total_amount, order_count: 0 });
        k = k + 1;
    }
    proof {
        let dom = Set::new(|p: u64| listed(nv, side, p, nodes@.len()));
        assert forall|i: int|
            0 <= i < out@.len() implies dom.contains((#[trigger] out@[i]).price) by {
            let x = ranked(side, prices@.len(), i);
            assert(prices@[x] == out@[i].price);
            assert(prices@.contains(out@[i].price));
        }
        assert forall|p: u64| #[trigger] dom.contains(p) implies has_price(out@, p) || out@.len()
            == DEPTH_LEVELS && (forall|i: int|
            0 <= i < out@.len() ==> comes_first(side, (#[trigger] out@[i]).price, p)) by {
            assert(sums@.contains_key(p));
            assert(prices@.contains(p));
            let x = choose|x: int| 0 <= x < prices@.len() && prices@[x] == p;
            let j = ranked(side, prices@.len(), x);
            assert(ranked(side, prices@.len(), j) == x);
            if j < out@.len() {
                assert(out@[j].price == p);
            } else {
                assert forall|i: int| 0 <= i < out@.len() implies comes_first(
                    side,
                    (#[trigger] out@[i]).price,
                    p,
                ) by {
                    let y = ranked(side, prices@.len(), i);
                    assert(prices@[y] == out@[i].price);
                }
            }
        }
        assert forall|i: int, j: int| 0 <= i < j < out@.len() implies comes_first(
            side,
            (#[trigger] out@[i]).price,
            (#[trigger] out@[j]).price,
        ) by {
            let x = ranked(side, prices@.len(), i);
            let y = ranked(side, prices@.len(), j);
            assert(prices@[x] == out@[i].price);
            assert(prices@[y] == out@[j].price);
        }
    }
    out
}

/// Where the `i`-th best of `n` prices in increasing order stands.
pub open spec fn ranked(side: OrderSide, n: nat, i: int) -> int {
    match side {
        OrderSide::Buy => n - 1 - i,
        OrderSide::Sell => i,
    }
}

proof fn lemma_best_stays(best: Option<u64>, nodes: Seq<NodeSpec>, side: OrderSide, n: nat)
    requires
        n < nodes.len(),
        best_among(best, nodes, side, n),
        !nodes[n as int].online || forall|q: u64| !#[trigger] side_of(
            nodes[n as int],
            side,
        ).contains_key(q),
    ensures
        best_among(best, nodes, side, n + 1),
{
    assert forall|p: u64| #[trigger] listed(nodes, side, p, n + 1) <==> listed(
        nodes,
        side,
        p,
        n,
    ) by {
        lemma_listed_step(nodes, side, p, n);
    }
    if let Some(b) = best {
        assert(listed(nodes, side, b, n + 1));
        assert forall|p: u64| #[trigger] listed(nodes, side, p, n + 1) implies p == b
            || comes_first(side, b, p) by {
            assert(listed(nodes, side, p, n));
        }
    } else {
        assert forall|p: u64| !#[trigger] listed(nodes, side, p, n + 1) by {
            assert(!listed(nodes, side, p, n));
        }
    }
}

/// The best price of a side among the nodes that are online.
fn best_price(nodes: &Vec<MeshNode>, side: OrderSide) -> (r: Option<u64>)
    ensures
        is_best_price(r, nodes_view(nodes@), side),
{
    let ghost nv = nodes_view(nodes@);
    let mut best: Option<u64> = None;
    let mut i: usize = 0;
    while i < nodes.len()
        invariant
            i <= nodes@.len(),
            nv == nodes_view(nodes@),
            best_among(best, nv, side, i as nat),
        decreases nodes@.len() - i,
    {
        let ghost before = best;
        proof {
            assert(nv[i as int] == nodes@[i as int]@);
            assert forall|p: u64| #[trigger]
                listed(nv, side, p, (i + 1) as nat) <==> listed(nv, side, p, i as nat) || (
                nv[i as int].online && side_of(nv[i as int], side).contains_key(p)) by {
                lemma_listed_step(nv, side, p, i as nat);
            }
        }
        if nodes[i].online {
            let levels: &Levels = side_levels(&nodes[i].orderbook, side);
            let prices: Vec<u64> = sorted_prices(levels);
            proof {
                assert forall|p: u64| #[trigger]
                    side_of(nv[i as int], side).contains_key(p) <==> prices@.contains(p) by {
                    assert(levels_view(levels@).contains_key(p) <==> levels@.contains_key(p));
                }
            }
            if prices.len() > 0 {
                let at: usize = match side {
                    OrderSide::Buy => prices.len() - 1,
                    OrderSide::Sell => 0,
                };
                let p: u64 = prices[at];
                proof {
                    assert(prices@.contains(p));
                    assert(listed(nv, side, p, (i + 1) as nat));
                    assert forall|q: u64| #[trigger]
                        prices@.contains(q) implies q == p || comes_first(side, p, q) by {
                        let x = choose|x: int| 0 <= x < prices@.len() && prices@[x] == q;
                        if x != at {
                            assert(prices@[x] == q);
                        }
                    }
                }
                best = match best {
                    None => Some(p),
                    Some(b) => {
                        let improves: bool = match side {
                            OrderSide::Buy => p > b,
                            OrderSide::Sell => p < b,
                        };
                        if improves {
                            Some(p)
                        } else {
                            Some(b)
                        }
                    },
                };
                proof {
                    let b = best->0;
                    assert(listed(nv, side, b, (i + 1) as nat));
                    assert forall|q: u64| #[trigger]
                        listed(nv, side, q, (i + 1) as nat) implies q == b || comes_first(
                        side,
                        b,
                        q,
                    ) by {
                        if side_of(nv[i as int], side).contains_key(q) {
                            assert(prices@.contains(q));
                        }
                        if listed(nv, side, q, i as nat) {
                            assert(before is Some);
                        }
                    }
                    assert(best_among(best, nv, side, (i + 1) as nat));
                }
            } else {
                proof {
                    assert forall|q: u64| !#[trigger] side_of(
                        nv[i as int],
                        side,
                    ).contains_key(q) by {
                        if side_of(nv[i as int], side).contains_key(q) {
                            assert(prices@.contains(q));
                        }
                    }
                    lemma_best_stays(best, nv, side, i as nat);
                }
            }
        } else {
            proof {
                lemma_best_stays(best, nv, side, i as nat);
            }
        }
        i = i + 1;
    }
    best
}

/// How many orders rest at the first `n` of a list of prices.
pub open spec fn orders_at(levels: Map<u64, Seq<OrderSpec>>, prices: Seq<u64>, n: nat) -> nat
    decreases n,
{
    if n == 0 {
        0
    } else {
        orders_at(levels, prices, (n - 1) as nat) + levels[prices[n - 1]].len()
    }
}

/// A side's prices in increasing order.
pub open spec fn increasing_prices(s: Seq<u64>, levels: Map<u64, Seq<OrderSpec>>) -> bool {
    &&& forall|i: int, j: int| 0 <= i < j < s.len() ==> #[trigger] s[i] < #[trigger] s[j]
    &&& forall|p: u64| #[trigger] s.contains(p) <==> levels.contains_key(p)
}

/// How many orders rest on a side.
pub open spec fn side_count(levels: Map<u64, Seq<OrderSpec>>) -> nat {
    let s = choose|s: Seq<u64>| #[trigger] increasing_prices(s, levels);
    orders_at(levels, s, s.len())
}

/// The number of a book's orders can be held.
pub open spec fn count_fits(n: NodeSpec) -> bool {
    side_count(n.book.bids) + side_count(n.book.asks) <= usize::MAX
}

/// The prices of a side have one increasing list.
pub proof fn lemma_increasing_unique(a: Seq<u64>, b: Seq<u64>, levels: Map<u64, Seq<OrderSpec>>)
    requires
        increasing_prices(a, levels),
        increasing_prices(b, levels),
    ensures
        a == b,
{
    crate::book::lemma_best_first_unique(a, b, OrderSide::Buy);
}

proof fn lemma_orders_at_grows(levels: Map<u64, Seq<OrderSpec>>, prices: Seq<u64>, n: nat, m: nat)
    requires
        n <= m,
    ensures
        orders_at(levels, prices, n) <= orders_at(levels, prices, m),
    decreases m,
{
    if n < m {
        lemma_orders_at_grows(levels, prices, n, (m - 1) as nat);
    }
}

fn count_side(levels: &Levels) -> (r: usize)
    requires
        side_count(levels_view(levels@)) <= usize::MAX,
    ensures
        r == side_count(levels_view(levels@)),
{
    let ghost lv = levels_view(levels@);
    let prices: Vec<u64> = sorted_prices(levels);
    proof {
        assert(increasing_prices(prices@, lv));
        let s = choose|s: Seq<u64>| #[trigger] increasing_prices(s, lv);
        lemma_increasing_unique(prices@, s, lv);
    }
    let mut total: usize = 0;
    let mut i: usize = 0;
    while i < prices.len()
        invariant
            i <= prices@.len(),
            lv == levels_view(levels@),
            forall|p: u64| #[trigger] prices@.contains(p) <==> levels@.contains_key(p),
            orders_at(lv, prices@, prices@.len()) <= usize::MAX,
            total == orders_at(lv, prices@, i as nat),
        decreases prices@.len() - i,
    {
        let p: u64 = prices[i];
        proof {
            assert(prices@.contains(p));
            lemma_orders_at_grows(lv, prices@, (i + 1) as nat, prices@.len());
        }
        let here: usize = match levels.get(&p) {
            Some(level) => level.len(),
            None => 0,
        };
        total = total + here;
        i = i + 1;
    }
    total
}

/// What is reported of a node.
pub open spec fn reports_node(r: NodeSnapshot, n: NodeSpec) -> bool {
    &&& r.id == n.id.0
    &&& r.region@ == region_label(n.region)
    &&& r.online == n.online
    &&& r.order_count == side_count(n.book.bids) + side_count(n.book.asks)
    &&& r.matches_this_step == n.matches_this_step
}

fn report_nodes(nodes: &Vec<MeshNode>) -> (r: Vec<NodeSnapshot>)
    requires
        forall|i: int| 0 <= i < nodes@.len() ==> count_fits((#[trigger] nodes@[i])@),
    ensures
        r@.len() == nodes@.len(),
        forall|i: int| 0 <= i < r@.len() ==> reports_node(#[trigger] r@[i], nodes@[i]@),
{
    let mut out: Vec<NodeSnapshot> = Vec::new();
    let mut i: usize = 0;
    while i < nodes.len()
        invariant
            i <= nodes@.len(),
            forall|k: int| 0 <= k < nodes@.len() ==> count_fits((#[trigger] nodes@[k])@),
            out@.len() == i,
            forall|k: int| 0 <= k < i ==> reports_node(#[trigger] out@[k], nodes@[k]@),
        decreases nodes@.len() - i,
    {
        let n: &MeshNode = &nodes[i];
        proof {
            assert(count_fits(nodes@[i as int]@));
        }
        let order_count: usize = count_side(&n.orderbook.bids) + count_side(&n.orderbook.asks);
        out.push(
            NodeSnapshot {
                id: n.id.0,
                region: label_region(n.region),
                online: n.online,
                order_count,
                matches_this_step: n.matches_this_step,
            },
        );
        i = i + 1;
    }
    out
}

/// The last `n` of a list, or all where it is shorter.
pub open spec fn last_of<T>(s: Seq<T>, n: nat) -> Seq<T> {
    if s.len() <= n {
        s
    } else {
        s.skip(s.len() - n)
    }
}

pub(crate) fn last_trades(trades: &Vec<TradeRecord>, n: usize) -> (r: Vec<TradeRecord>)
    ensures
        trades_view(r@) == last_of(trades_view(trades@), n as nat),
{
    let start: usize = if trades.len() <= n {
        0
    } else {
        trades.len() - n
    };
    let mut out: Vec<TradeRecord> = Vec::new();
    let mut i: usize = start;
    while i < trades.len()
        invariant
            start <= i <= trades@.len(),
            out@.len() == i - start,
            forall|k: int| 0 <= k < out@.len() ==> (#[trigger] out@[k])@ == trades@[start + k]@,
        decreases trades@.len() - i,
    {
        out.push(trades[i].duplicate());
        i = i + 1;
    }
    proof {
        assert(trades_view(out@) =~= last_of(trades_view(trades@), n as nat));
    }
    out
}

pub(crate) fn copy_prices(prices: &Vec<PricePoint>) -> (r: Vec<PricePoint>)
    ensures
        r@ == prices@,
{
    let mut out: Vec<PricePoint> = Vec::new();
    let mut i: usize = 0;
    while i < prices.len()
        invariant
            i <= prices@.len(),
            out@ == prices@.take(i as int),
        decreases prices@.len() - i,
    {
        out.push(prices[i]);
        assert(out@ =~= prices@.take(i + 1));
        i = i + 1;
    }
    assert(prices@.take(prices@.len() as int) =~= prices@);
    out
}

/// What a simulation reports of itself.
pub struct SimulationStateSnapshot {
    pub virtual_time_us: u64,
    pub step_number: u64,
    pub symbol: String,
    pub nodes: Vec<NodeSnapshot>,
    pub book: BookDepth,
    pub agents: Vec<AgentStateSnapshot>,
    pub recent_trades: Vec<TradeRecord>,
    pub price_history: Vec<PricePoint>,
    pub total_volume: u64,
}

/// What is noted of the prices at this moment.
pub open spec fn notes_prices(p: PricePoint, s: SimSpec) -> bool {
    &&& p.timestamp_us == s.now_us
    &&& is_best_price(p.quote.bid, s.nodes, OrderSide::Buy)
    &&& is_best_price(p.quote.ask, s.nodes, OrderSide::Sell)
    &&& p.last_trade_price == (if s.trades.len() > 0 {
        Some(s.trades.last().price)
    } else {
        None
    })
}

/// The book is the best of all the nodes' books taken together.
pub open spec fn reports_book(b: BookDepth, s: SimSpec) -> bool {
    &&& b.symbol@ == s.symbol
    &&& b.node_id == 0
    &&& b.region@ == "aggregated"@
    &&& is_best(
        b.bids@,
        Set::new(|p: u64| listed(s.nodes, OrderSide::Buy, p, s.nodes.len())),
        OrderSide::Buy,
        DEPTH_LEVELS as nat,
        |p: u64| resting_among(s.nodes, OrderSide::Buy, p, s.nodes.len()),
        |p: u64| 0,
    )
    &&& is_best(
        b.asks@,
        Set::new(|p: u64| listed(s.nodes, OrderSide::Sell, p, s.nodes.len())),
        OrderSide::Sell,
        DEPTH_LEVELS as nat,
        |p: u64| resting_among(s.nodes, OrderSide::Sell, p, s.nodes.len()),
        |p: u64| 0,
    )
}

impl MultiNodeSimulation {
    /// The best prices of the nodes that are online.
    pub fn quote(&self) -> (r: Quote)
        ensures
            is_best_price(r.bid, self@.nodes, OrderSide::Buy),
            is_best_price(r.ask, self@.nodes, OrderSide::Sell),
    {
        Quote {
            bid: best_price(&self.nodes, OrderSide::Buy),
            ask: best_price(&self.nodes, OrderSide::Sell),
        }
    }

    /// Notes the prices and reports.
    pub fn snapshot(&mut self) -> (r: SimulationStateSnapshot)
        requires
            depth_fits(old(self)@.nodes),
            forall|i: int|
                0 <= i < old(self)@.nodes.len() ==> count_fits(#[trigger] old(self)@.nodes[i]),
        ensures
            final(self)@.prices.len() == old(self)@.prices.len() + 1,
            final(self)@ == (SimSpec {
                prices: old(self)@.prices.push(final(self)@.prices.last()),
                ..old(self)@
            }),
            notes_prices(final(self)@.prices.last(), old(self)@),
            r.virtual_time_us == old(self)@.now_us,
            r.step_number == old(self)@.step_number,
            r.symbol@ == old(self)@.symbol,
            r.nodes@.len() == old(self)@.nodes.len(),
            forall|i: int|
                0 <= i < r.nodes@.len() ==> reports_node(
                    #[trigger] r.nodes@[i],
                    old(self)@.nodes[i],
                ),
            reports_book(r.book, old(self)@),
            lists_agents(old(self).agents.order(), old(self)@.agents),
            reports_view(r.agents@) == Seq::new(
                old(self).agents.order().len(),
                |i: int| agent_report(old(self)@.agents[old(self).agents.order()[i]]),
            ),
            trades_view(r.recent_trades@) == last_of(old(self)@.trades, RECENT_TRADES as nat),
            r.price_history@ == final(self)@.prices,
            r.total_volume == old(self)@.volume,
    {
        let ghost s = self@;
        let quote: Quote = self.quote();
        let last_trade_price: Option<u64> = if self.recent_trades.len() > 0 {
            Some(self.recent_trades[self.recent_trades.len() - 1].price)
        } else {
            None
        };
        let point = PricePoint { timestamp_us: self.virtual_time_us, quote, last_trade_price };
        self.price_history.push(point);
        proof {
            assert(notes_prices(point, s));
            assert forall|i: int| 0 <= i < self.nodes@.len() implies count_fits(
                (#[trigger] self.nodes@[i])@,
            ) by {
                assert(s.nodes[i] == self.nodes@[i]@);
            }
        }
        let nodes: Vec<NodeSnapshot> = report_nodes(&self.nodes);
        let book = BookDepth {
            symbol: self.symbol.clone(),
            node_id: 0,
            region: "aggregated".to_owned(),
            bids: best_levels(&self.nodes, OrderSide::Buy),
            asks: best_levels(&self.nodes, OrderSide::Sell),
        };
        SimulationStateSnapshot {
            virtual_time_us: self.virtual_time_us,
            step_number: self.step_number,
            symbol: self.symbol.clone(),
            nodes,
            book,
            agents: self.agents.all_snapshots(),
            recent_trades: last_trades(&self.recent_trades, RECENT_TRADES),
            price_history: copy_prices(&self.price_history),
            total_volume: self.total_volume,
        }
    }
}

/// What is reported of a side: its best levels, the highest bids or the lowest asks, best first, each
/// with what rests there. A price is left out only where fifty better ones are reported.
pub proof fn law_reported_levels_are_the_best(
    r: Seq<BidAskLevel>,
    prices: Set<u64>,
    side: OrderSide,
    total: spec_fn(u64) -> nat,
    count: spec_fn(u64) -> nat,
    i: int,
    j: int,
    p: u64,
)
    requires
        is_best(r, prices, side, DEPTH_LEVELS as nat, total, count),
        0 <= i < r.len(),
    ensures
        r.len() <= 50,
        prices.contains(r[i].price),
        r[i].total_amount == total(r[i].price),
        r[i].order_count == count(r[i].price),
        i < j < r.len() && side == OrderSide::Buy ==> r[i].price > r[j].price,
        i < j < r.len() && side == OrderSide::Sell ==> r[i].price < r[j].price,
        prices.contains(p) && (forall|k: int| 0 <= k < r.len() ==> (#[trigger] r[k]).price != p)
            ==> r.len() == 50 && (if side == OrderSide::Buy {
            p < r[i].price
        } else {
            p > r[i].price
        }),
{
}

/// The best price over all nodes is one that rests at a node that is online, and no node that is online
/// has a better one.
pub proof fn law_best_price_is_not_beaten(
    r: Option<u64>,
    nodes: Seq<NodeSpec>,
    side: OrderSide,
    i: int,
    p: u64,
)
    requires
        is_best_price(r, nodes, side),
        0 <= i < nodes.len(),
        nodes[i].online,
        side == OrderSide::Buy ==> nodes[i].book.bids.contains_key(p),
        side == OrderSide::Sell ==> nodes[i].book.asks.contains_key(p),
    ensures
        r is Some,
        side == OrderSide::Buy ==> p <= r->0,
        side == OrderSide::Sell ==> p >= r->0,
        exists|k: int|
            0 <= k < nodes.len() && (#[trigger] nodes[k]).online && if side == OrderSide::Buy {
                nodes[k].book.bids.contains_key(r->0)
            } else {
                nodes[k].book.asks.contains_key(r->0)
            },
{
    assert(side_of(nodes[i], side).contains_key(p));
    assert(listed(nodes, side, p, nodes.len()));
    let k = choose|k: int|
        0 <= k < nodes.len() && (#[trigger] nodes[k]).online && side_of(
            nodes[k],
            side,
        ).contains_key(r->0);
    assert(nodes[k].online);
}

/// What rests at a price over all nodes adds up: each node that is online adds what its own book has
/// there, one that is not adds nothing.
pub proof fn law_depth_adds_up(nodes: Seq<NodeSpec>, side: OrderSide, p: u64, n: nat)
    requires
        n < nodes.len(),
    ensures
        ({
            let levels = if side == OrderSide::Buy {
                nodes[n as int].book.bids
            } else {
                nodes[n as int].book.asks
            };
            &&& resting_among(nodes, side, p, 0) == 0
            &&& resting_among(nodes, side, p, n + 1) == resting_among(nodes, side, p, n) + if nodes[
            n as int].online && levels.contains_key(p) {
                level_total(levels[p])
            } else {
                0
            }
            &&& listed(nodes, side, p, n + 1) <==> listed(nodes, side, p, n) || nodes[
            n as int].online && levels.contains_key(p)
        }),
{
    lemma_listed_step(nodes, side, p, n);
}

/// The last of a list: at most as many as asked for, all where there are no more, and in any case those
/// at the end, in their order.
pub proof fn law_last_ones_are_at_the_end<T>(s: Seq<T>, n: nat)
    ensures
        last_of(s, n).len() == if s.len() <= n {
            s.len()
        } else {
            n
        },
        forall|i: int|
            0 <= i < last_of(s, n).len() ==> #[trigger] last_of(s, n)[i] == s[s.len() - last_of(
                s,
                n,
            ).len() + i],
{
}

/// How many orders a side holds: as many as the queues at its prices together, whatever the prices are.
pub proof fn law_order_count_adds_up(levels: Map<u64, Seq<OrderSpec>>, prices: Seq<u64>)
    requires
        forall|i: int, j: int| 0 <= i < j < prices.len() ==> #[trigger] prices[i] < #[trigger] prices[j],
        forall|p: u64| #[trigger] prices.contains(p) <==> levels.contains_key(p),
    ensures
        side_count(levels) == prices.map_values(|p: u64| levels[p].len() as int).fold_left(
            0int,
            |a: int, n: int| a + n,
        ),
{
    let s = choose|s: Seq<u64>| #[trigger] increasing_prices(s, levels);
    assert(increasing_prices(prices, levels));
    lemma_increasing_unique(prices, s, levels);
    lemma_orders_folded(levels, prices, prices.len());
    assert(prices.take(prices.len() as int) =~= prices);
}

proof fn lemma_orders_folded(levels: Map<u64, Seq<OrderSpec>>, prices: Seq<u64>, n: nat)
    requires
        n <= prices.len(),
    ensures
        orders_at(levels, prices, n) == prices.take(n as int).map_values(
            |p: u64| levels[p].len() as int,
        ).fold_left(0int, |a: int, n: int| a + n),
    decreases n,
{
    let f = |p: u64| levels[p].len() as int;
    let t = prices.take(n as int).map_values(f);
    reveal(Seq::fold_left);
    if n > 0 {
        lemma_orders_folded(levels, prices, (n - 1) as nat);
        assert(t.drop_last() =~= prices.take(n - 1).map_values(f));
        assert(t.last() == levels[prices[n - 1]].len());
    }
}

/// A node is reported under its own number, as online as it is, with the matches that it has counted, and
/// without orders exactly where no order rests on either side of its book.
pub proof fn law_nodes_are_reported_as_they_are(r: NodeSnapshot, n: NodeSpec)
    requires
        reports_node(r, n),
    ensures
        r.id == n.id.0 && r.online == n.online && r.matches_this_step == n.matches_this_step,
        r.order_count == side_count(n.book.bids) + side_count(n.book.asks),
{
}

/// What is noted of prices is of now: the best of each side over the nodes that are online, and the price
/// of the last trade, if there was one.
pub proof fn law_noted_prices_are_current(p: PricePoint, s: SimSpec, i: int, price: u64)
    requires
        notes_prices(p, s),
        0 <= i < s.nodes.len(),
        s.nodes[i].online,
    ensures
        p.timestamp_us == s.now_us,
        s.nodes[i].book.bids.contains_key(price) ==> p.quote.bid is Some && p.quote.bid->0 >= price,
        s.nodes[i].book.asks.contains_key(price) ==> p.quote.ask is Some && p.quote.ask->0 <= price,
        s.trades.len() == 0 ==> p.last_trade_price is None,
        s.trades.len() > 0 ==> p.last_trade_price == Some(s.trades[s.trades.len() - 1].price),
{
    if s.nodes[i].book.bids.contains_key(price) {
        assert(listed(s.nodes, OrderSide::Buy, price, s.nodes.len()));
    }
    if s.nodes[i].book.asks.contains_key(price) {
        assert(listed(s.nodes, OrderSide::Sell, price, s.nodes.len()));
    }
}

} // verus!
