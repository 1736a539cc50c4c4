//! A step of the simulated mesh: messages arrive, orders meet, and agents are told.

use crate::agents::{AgentConfig, AgentSpec, AgentTracker};
use crate::assoc::AssocMap;
use crate::book::{book_after, matches_after};
use crate::bytes::Id32;
use crate::flood::{flood_after, forwards, sends_view, takes_in, FloodSpec};
use crate::mesh::{
    build_nodes, hand_to, handed_to, latency_between, new_nodes, nodes_view, pending_view,
    regions_of, LatencyModel, MeshNode, NodeSpec,
};
use crate::random::random_below;
use crate::sim_types::{trades_view, PricePoint, TradeRecord, TradeRecordSpec};
use crate::types::{
    matches_view, orders_view, originated, FloodMessage, FloodMessageSpec, Match, MatchSpec, NodeId,
    Order, OrderSpec, Region,
};
use vstd::prelude::*;

verus! {

/// A mesh of nodes and the agents that trade through it. Times are in microseconds. An agent with
/// an account on the chain is listed in `onchain_agents` with the key by which it trades.
pub struct MultiNodeSimulation {
    pub nodes: Vec<MeshNode>,
    pub latency_model: LatencyModel,
    pub agents: AgentTracker,
    pub virtual_time_us: u64,
    pub step_number: u64,
    pub symbol: String,
    pub recent_trades: Vec<TradeRecord>,
    pub price_history: Vec<PricePoint>,
    pub total_volume: u64,
    pub step_matches: Vec<Match>,
    pub onchain_agents: AssocMap<String, Id32>,
}

/// What a [`MultiNodeSimulation`] stands for.
#[verifier::ext_equal]
pub struct SimSpec {
    pub nodes: Seq<NodeSpec>,
    pub local: bool,
    pub agents: Map<Seq<char>, AgentSpec>,
    pub now_us: u64,
    pub step_number: u64,
    pub symbol: Seq<char>,
    pub trades: Seq<TradeRecordSpec>,
    pub prices: Seq<PricePoint>,
    pub volume: u64,
    pub step_matches: Seq<MatchSpec>,
    pub onchain: Map<Seq<char>, Id32>,
}

impl View for MultiNodeSimulation {
    type V = SimSpec;

    open spec fn view(&self) -> SimSpec {
        SimSpec {
            nodes: nodes_view(self.nodes@),
            local: self.latency_model.is_local(),
            agents: self.agents@,
            now_us: self.virtual_time_us,
            step_number: self.step_number,
            symbol: self.symbol@,
            trades: trades_view(self.recent_trades@),
            prices: self.price_history@,
            volume: self.total_volume,
            step_matches: matches_view(self.step_matches@),
            onchain: self.onchain_agents@,
        }
    }
}

/// What a node has come to, the matches that it made and what it sends.
#[verifier::ext_equal]
pub struct Delivery {
    pub node: NodeSpec,
    pub matches: Seq<MatchSpec>,
    pub sends: Seq<(NodeId, FloodMessageSpec)>,
}

/// A message reaches a node: an order that it takes in and passes on is matched in its book, at
/// time `t` of the machine's clock.
pub open spec fn received(d: Delivery, m: FloodMessageSpec, t: u64) -> Delivery {
    let flood = flood_after(d.node.flood, m);
    if takes_in(d.node.flood, m) && m.hop_count < d.node.max_hops {
        let ms = matches_after(d.node.book, m.order, t);
        Delivery {
            node: NodeSpec {
                flood,
                book: book_after(d.node.book, m.order),
                ..d.node
            },
            matches: d.matches + ms,
            sends: d.sends + forwards(m, d.node.id, d.node.downstream, d.node.downstream.len()),
        }
    } else {
        Delivery { node: NodeSpec { flood, ..d.node }, ..d }
    }
}

/// The first `n` of the waiting messages have been looked at: those that have arrived by now have
/// reached the node, and the others are lost.
pub open spec fn received_all(
    d: Delivery,
    pending: Seq<(u64, FloodMessageSpec)>,
    now_us: u64,
    times: Seq<u64>,
    n: nat,
) -> Delivery
    decreases n,
{
    if n == 0 {
        d
    } else {
        let before = received_all(d, pending, now_us, times, (n - 1) as nat);
        if pending[n - 1].0 <= now_us {
            received(before, pending[n - 1].1, times[n - 1])
        } else {
            before
        }
    }
}

/// What a node's waiting messages come to. Their matches are counted. A node that is not online
/// loses them.
pub open spec fn node_delivery(node: NodeSpec, now_us: u64, times: Seq<u64>) -> Delivery {
    let start = Delivery {
        node: NodeSpec { pending: Seq::empty(), ..node },
        matches: Seq::empty(),
        sends: Seq::empty(),
    };
    if node.online {
        let d = received_all(start, node.pending, now_us, times, node.pending.len());
        Delivery {
            node: NodeSpec {
                matches_this_step: (node.matches_this_step + d.matches.len()) as usize,
                ..d.node
            },
            ..d
        }
    } else {
        start
    }
}

proof fn lemma_received_times(
    d: Delivery,
    pending: Seq<(u64, FloodMessageSpec)>,
    now_us: u64,
    a: Seq<u64>,
    b: Seq<u64>,
    n: nat,
)
    requires
        forall|i: int| 0 <= i < n ==> a[i] == b[i],
    ensures
        received_all(d, pending, now_us, a, n) == received_all(d, pending, now_us, b, n),
    decreases n,
{
    if n > 0 {
        lemma_received_times(d, pending, now_us, a, b, (n - 1) as nat);
    }
}

/// A node's messages come to `d` for some readings of the machine's clock.
pub open spec fn delivers(node: NodeSpec, now_us: u64, d: Delivery) -> bool {
    exists|times: Seq<u64>|
        times.len() == node.pending.len() && #[trigger] node_delivery(node, now_us, times) == d
}

/// The matches that a node makes can be counted: nothing has been counted yet, or what will be can
/// be held.
pub open spec fn count_has_room(node: NodeSpec, now_us: u64) -> bool {
    node.matches_this_step == 0 || forall|d: Delivery| #[trigger]
        delivers(node, now_us, d) ==> node.matches_this_step + d.matches.len() <= usize::MAX
}

fn deliver_node(node: &mut MeshNode, now_us: u64) -> (r: (
    Vec<Match>,
    Vec<(NodeId, FloodMessage)>,
))
    requires
        count_has_room(old(node)@, now_us),
    ensures
        delivers(
            old(node)@,
            now_us,
            Delivery {
                node: final(node)@,
                matches: matches_view(r.0@),
                sends: sends_view(r.1@),
            },
        ),
{
    let ghost n0 = node@;
    let mut pending: Vec<(u64, FloodMessage)> = Vec::new();
    std::mem::swap(&mut pending, &mut node.pending_messages);
    let mut matches: Vec<Match> = Vec::new();
    let mut sends: Vec<(NodeId, FloodMessage)> = Vec::new();
    let ghost pv = pending@;
    let ghost ps = pending_view(pending@);
    let ghost start = Delivery {
        node: NodeSpec { pending: Seq::empty(), ..n0 },
        matches: Seq::empty(),
        sends: Seq::empty(),
    };
    proof {
        assert(node@.pending =~= Seq::empty());
        assert(matches_view(matches@) =~= Seq::empty());
        assert(sends_view(sends@) =~= Seq::empty());
        assert(node@ =~= start.node);
    }
    if !node.online {
        proof {
            let times = Seq::new(n0.pending.len(), |i: int| 0u64);
            assert(node_delivery(n0, now_us, times) == start);
        }
        return (matches, sends);
    }
    let ghost mut times: Seq<u64> = Seq::empty();
    for entry in it: pending.into_iter()
        invariant
            it.seq() == pv,
            ps == pending_view(pv),
            times.len() == it.index(),
            node.matches_this_step == n0.matches_this_step,
            (Delivery {
                node: node@,
                matches: matches_view(matches@),
                sends: sends_view(sends@),
            }) == received_all(start, ps, now_us, times, it.index() as nat),
    {
        let (at, msg): (u64, FloodMessage) = entry;
        let ghost i = it.index();
        let ghost before = received_all(start, ps, now_us, times, i as nat);
        let ghost m = msg@;
        let ghost mut t: u64 = 0;
        proof {
            assert(ps[i] == (at, m));
        }
        if at <= now_us {
            let order: Order = msg.order.duplicate();
            let ghost ms0 = matches@;
            let ghost ss0 = sends@;
            let node_id: NodeId = node.id;
            match node.flood.on_receive(msg, node_id, &node.routing, &node.schedule) {
                Ok(mut out) => {
                    let mut ms: Vec<Match> = node.orderbook.add_order(order);
                    let ghost mv = matches_view(ms@);
                    let ghost ov = sends_view(out@);
                    proof {
                        t = choose|t: u64|
                            mv == #[trigger] matches_after(before.node.book, m.order, t);
                    }
                    matches.append(&mut ms);
                    sends.append(&mut out);
                    proof {
                        assert(matches_view(matches@) =~= matches_view(ms0) + mv);
                        assert(sends_view(sends@) =~= sends_view(ss0) + ov);
                    }
                },
                Err(_) => {},
            }
            proof {
                assert((Delivery {
                    node: node@,
                    matches: matches_view(matches@),
                    sends: sends_view(sends@),
                }) =~= received(before, m, t));
            }
        }
        proof {
            let t1 = times.push(t);
            lemma_received_times(start, ps, now_us, times, t1, i as nat);
            times = t1;
        }
    }
    let ghost d = node_delivery(n0, now_us, times);
    proof {
        assert(delivers(n0, now_us, d));
        assert(d.matches.len() == matches@.len());
    }
    node.matches_this_step = node.matches_this_step + matches.len();
    proof {
        assert(d =~= (Delivery {
            node: node@,
            matches: matches_view(matches@),
            sends: sends_view(sends@),
        }));
    }
    (matches, sends)
}

/// A message that is on its way to a node.
pub struct Outbound {
    pub target: usize,
    pub latency_us: u64,
    pub msg: FloodMessage,
}

/// What an [`Outbound`] stands for.
#[verifier::ext_equal]
pub struct OutboundSpec {
    pub target: usize,
    pub latency_us: u64,
    pub msg: FloodMessageSpec,
}

impl View for Outbound {
    type V = OutboundSpec;

    open spec fn view(&self) -> OutboundSpec {
        OutboundSpec { target: self.target, latency_us: self.latency_us, msg: self.msg@ }
    }
}

/// Messages on their way, each by its view.
pub open spec fn outbound_view(s: Seq<Outbound>) -> Seq<OutboundSpec> {
    Seq::new(s.len(), |i: int| s[i]@)
}

/// What the first `n` sends of a node put on the way. A send to a node that is not there is
/// dropped.
pub open spec fn addressed(
    local: bool,
    nodes: Seq<NodeSpec>,
    from: Region,
    sends: Seq<(NodeId, FloodMessageSpec)>,
    n: nat,
) -> Seq<OutboundSpec>
    decreases n,
{
    if n == 0 {
        Seq::empty()
    } else {
        let before = addressed(local, nodes, from, sends, (n - 1) as nat);
        let (to, msg) = sends[n - 1];
        if to.0 < nodes.len() {
            before.push(
                OutboundSpec {
                    target: to.0 as usize,
                    latency_us: latency_between(local, from, nodes[to.0 as int].region),
                    msg,
                },
            )
        } else {
            before
        }
    }
}

/// Matches with the node that made them.
pub open spec fn tagged(ms: Seq<MatchSpec>, node: u32) -> Seq<(MatchSpec, u32)> {
    Seq::new(ms.len(), |i: int| (ms[i], node))
}

/// Matches and nodes, each match by its view.
pub open spec fn tagged_view(s: Seq<(Match, u32)>) -> Seq<(MatchSpec, u32)> {
    Seq::new(s.len(), |i: int| (s[i].0@, s[i].1))
}

/// The matches of the first `n` nodes.
pub open spec fn matches_among(ds: Seq<Delivery>, n: nat) -> Seq<(MatchSpec, u32)>
    decreases n,
{
    if n == 0 {
        Seq::empty()
    } else {
        matches_among(ds, (n - 1) as nat) + tagged(ds[n - 1].matches, ds[n - 1].node.id.0)
    }
}

/// What the first `n` nodes put on the way.
pub open spec fn outbound_among(
    local: bool,
    nodes: Seq<NodeSpec>,
    ds: Seq<Delivery>,
    n: nat,
) -> Seq<OutboundSpec>
    decreases n,
{
    if n == 0 {
        Seq::empty()
    } else {
        outbound_among(local, nodes, ds, (n - 1) as nat) + addressed(
            local,
            nodes,
            nodes[n - 1].region,
            ds[n - 1].sends,
            ds[n - 1].sends.len(),
        )
    }
}

/// `ds` is what each node's messages come to.
pub open spec fn all_deliver(nodes: Seq<NodeSpec>, now_us: u64, ds: Seq<Delivery>) -> bool {
    ds.len() == nodes.len() && forall|i: int|
        0 <= i < nodes.len() ==> delivers(nodes[i], now_us, #[trigger] ds[i])
}

/// The nodes that deliveries leave.
pub open spec fn delivered_nodes(ds: Seq<Delivery>) -> Seq<NodeSpec> {
    Seq::new(ds.len(), |i: int| ds[i].node)
}

proof fn lemma_among_prefix(
    local: bool,
    nodes: Seq<NodeSpec>,
    a: Seq<Delivery>,
    d: Delivery,
    n: nat,
)
    requires
        n <= a.len(),
    ensures
        matches_among(a.push(d), n) == matches_among(a, n),
        outbound_among(local, nodes, a.push(d), n) == outbound_among(local, nodes, a, n),
    decreases n,
{
    if n > 0 {
        lemma_among_prefix(local, nodes, a, d, (n - 1) as nat);
        assert(a.push(d)[n - 1] == a[n - 1]);
    }
}

proof fn lemma_latency_bound(local: bool, from: Region, to: Region)
    ensures
        latency_between(local, from, to) <= 220_000,
{
}

/// Every message on its way is for a node that is there, and takes no longer than the longest
/// latency.
pub open spec fn outbound_ok(out: Seq<OutboundSpec>, n: nat) -> bool {
    forall|i: int|
        0 <= i < out.len() ==> (#[trigger] out[i]).target < n && out[i].latency_us <= 220_000
}

/// Appends what a node's sends put on the way.
fn address(
    model: &LatencyModel,
    regions: &Vec<Region>,
    from: Region,
    sends: Vec<(NodeId, FloodMessage)>,
    nodes: Ghost<Seq<NodeSpec>>,
    out: &mut Vec<Outbound>,
)
    requires
        regions@.len() == nodes@.len(),
        forall|i: int| 0 <= i < nodes@.len() ==> #[trigger] regions@[i] == nodes@[i].region,
        outbound_ok(outbound_view(old(out)@), nodes@.len()),
    ensures
        outbound_view(final(out)@) == outbound_view(old(out)@) + addressed(
            model.is_local(),
            nodes@,
            from,
            sends_view(sends@),
            sends@.len(),
        ),
        outbound_ok(outbound_view(final(out)@), nodes@.len()),
{
    let ghost before = outbound_view(out@);
    let ghost sv = sends@;
    let ghost ss = sends_view(sends@);
    proof {
        assert(outbound_view(out@) =~= before + addressed(model.is_local(), nodes@, from, ss, 0));
    }
    for entry in it: sends.into_iter()
        invariant
            it.seq() == sv,
            ss == sends_view(sv),
            regions@.len() == nodes@.len(),
            forall|i: int| 0 <= i < nodes@.len() ==> #[trigger] regions@[i] == nodes@[i].region,
            outbound_view(out@) == before + addressed(
                model.is_local(),
                nodes@,
                from,
                ss,
                it.index() as nat,
            ),
            outbound_ok(outbound_view(out@), nodes@.len()),
    {
        let (to, msg): (NodeId, FloodMessage) = entry;
        let ghost i = it.index();
        let ghost mv = msg@;
        let ghost prior = addressed(model.is_local(), nodes@, from, ss, i as nat);
        proof {
            assert(ss[i] == (to, mv));
        }
        let target: usize = to.0 as usize;
        if target < regions.len() {
            let ghost o0 = outbound_view(out@);
            let latency_us: u64 = model.get_latency(from, regions[target]);
            proof {
                lemma_latency_bound(model.is_local(), from, nodes@[target as int].region);
            }
            out.push(Outbound { target, latency_us, msg });
            proof {
                let e = OutboundSpec { target, latency_us, msg: mv };
                assert(outbound_view(out@) =~= o0.push(e));
                assert(before + prior.push(e) =~= o0.push(e));
            }
        }
    }
}

/// The messages on their way join the queues of the nodes that they are for, the `i`-th arriving
/// after its latency and `jitter[i]`.
pub open spec fn posted(
    nodes: Seq<NodeSpec>,
    out: Seq<OutboundSpec>,
    now_us: u64,
    jitter: Seq<u64>,
    n: nat,
) -> Seq<NodeSpec>
    decreases n,
{
    if n == 0 {
        nodes
    } else {
        handed_to(
            posted(nodes, out, now_us, jitter, (n - 1) as nat),
            out[n - 1].msg,
            (now_us + out[n - 1].latency_us + jitter[n - 1]) as u64,
            out[n - 1].target as int,
        )
    }
}

/// The nodes have handed the orders that they took in on to their books.
pub open spec fn flushed_floods(nodes: Seq<NodeSpec>) -> Seq<NodeSpec> {
    Seq::new(
        nodes.len(),
        |i: int|
            NodeSpec {
                flood: FloodSpec { orders: Seq::empty(), ..nodes[i].flood },
                ..nodes[i]
            },
    )
}

/// What a round of the mesh comes to, given what each node's messages come to and how much longer
/// than its latency each message that is sent takes.
pub open spec fn propagated(s: SimSpec, ds: Seq<Delivery>, jitter: Seq<u64>) -> SimSpec {
    let out = outbound_among(s.local, s.nodes, ds, ds.len());
    SimSpec {
        nodes: flushed_floods(posted(delivered_nodes(ds), out, s.now_us, jitter, out.len())),
        ..s
    }
}

/// A round of the mesh leaves `after` and makes these matches.
pub open spec fn round_comes_to(
    s: SimSpec,
    after: SimSpec,
    matches: Seq<(MatchSpec, u32)>,
) -> bool {
    exists|ds: Seq<Delivery>, jitter: Seq<u64>|
        #![trigger propagated(s, ds, jitter)]
        all_deliver(s.nodes, s.now_us, ds) && jitter.len() == outbound_among(
            s.local,
            s.nodes,
            ds,
            ds.len(),
        ).len() && (forall|i: int| 0 <= i < jitter.len() ==> #[trigger] jitter[i] < 1_000) && after
            == propagated(s, ds, jitter) && matches == matches_among(ds, ds.len())
}

proof fn lemma_posted_len(
    nodes: Seq<NodeSpec>,
    out: Seq<OutboundSpec>,
    now_us: u64,
    jitter: Seq<u64>,
    n: nat,
)
    requires
        outbound_ok(out, nodes.len()),
        n <= out.len(),
    ensures
        posted(nodes, out, now_us, jitter, n).len() == nodes.len(),
    decreases n,
{
    if n > 0 {
        assert(out[n - 1].target < nodes.len());
        lemma_posted_len(nodes, out, now_us, jitter, (n - 1) as nat);
    }
}

proof fn lemma_posted_jitter(
    nodes: Seq<NodeSpec>,
    out: Seq<OutboundSpec>,
    now_us: u64,
    a: Seq<u64>,
    b: Seq<u64>,
    n: nat,
)
    requires
        forall|i: int| 0 <= i < n ==> a[i] == b[i],
    ensures
        posted(nodes, out, now_us, a, n) == posted(nodes, out, now_us, b, n),
    decreases n,
{
    if n > 0 {
        lemma_posted_jitter(nodes, out, now_us, a, b, (n - 1) as nat);
    }
}

impl MultiNodeSimulation {
    /// A mesh with `node_config` saying how many nodes there are in which region, and no agents
    /// yet. Messages go `max_hops` far.
    pub fn new(
        symbol: String,
        node_config: &[(Region, u32)],
        use_local_profile: bool,
        max_hops: u8,
    ) -> (r: Self)
        requires
            regions_of(node_config@).len() <= u32::MAX,
        ensures
            r@ == (SimSpec {
                nodes: new_nodes(use_local_profile, regions_of(node_config@), symbol@, max_hops),
                local: use_local_profile,
                agents: Map::empty(),
                now_us: 0,
                step_number: 0,
                symbol: symbol@,
                trades: Seq::empty(),
                prices: Seq::empty(),
                volume: 0,
                step_matches: Seq::empty(),
                onchain: Map::empty(),
            }),
    {
        let latency_model: LatencyModel = if use_local_profile {
            LatencyModel::local()
        } else {
            LatencyModel::new()
        };
        let nodes: Vec<MeshNode> = build_nodes(
            &latency_model,
            symbol.as_str(),
            node_config,
            max_hops,
        );
        let r = MultiNodeSimulation {
            nodes,
            latency_model,
            agents: AgentTracker::new(),
            virtual_time_us: 0,
            step_number: 0,
            symbol,
            recent_trades: Vec::new(),
            price_history: Vec::new(),
            total_volume: 0,
            step_matches: Vec::new(),
            onchain_agents: AssocMap::new(),
        };
        proof {
            assert(r@.trades =~= Seq::empty());
            assert(r@.step_matches =~= Seq::empty());
        }
        r
    }

    /// Sets an agent up.
    pub fn register_agent(&mut self, config: AgentConfig)
        ensures
            final(self)@ == (SimSpec {
                agents: old(self)@.agents.insert(
                    config.id@,
                    crate::agents::new_agent(config.id@, config.initial_capital),
                ),
                ..old(self)@
            }),
    {
        self.agents.register(config);
    }

    /// An order is handed to a node, which sends it out. A node that is not there or not online
    /// does not take it.
    pub fn queue_order(&mut self, order: Order, source_node_id: u32)
        ensures
            final(self)@ == queued_at(old(self)@, order@, source_node_id),
    {
        let target: usize = source_node_id as usize;
        if target >= self.nodes.len() || !self.nodes[target].online {
            return;
        }
        let msg: FloodMessage = FloodMessage::originate(
            order,
            self.nodes[target].id,
            self.nodes[target].region,
            self.virtual_time_us,
        );
        hand_to(&mut self.nodes, msg, self.virtual_time_us, target);
    }

    /// One round of the mesh: every node takes in the messages that have arrived, matches their
    /// orders and sends them on. Returns the matches with the nodes that made them; they take
    /// effect on the agents only once they are settled.
    pub fn propagate(&mut self) -> (r: Vec<(Match, u32)>)
        requires
            old(self)@.nodes.len() > 0,
            old(self)@.now_us <= u64::MAX - 221_000,
            forall|i: int|
                0 <= i < old(self)@.nodes.len() ==> count_has_room(
                    #[trigger] old(self)@.nodes[i],
                    old(self)@.now_us,
                ),
        ensures
            round_comes_to(old(self)@, final(self)@, tagged_view(r@)),
    {
        let ghost s = self@;
        let now_us: u64 = self.virtual_time_us;
        let count: usize = self.nodes.len();
        let mut regions: Vec<Region> = Vec::new();
        let mut k: usize = 0;
        while k < count
            invariant
                k <= count,
                count == self.nodes@.len(),
                s == self@,
                regions@.len() == k,
                forall|i: int| 0 <= i < k ==> #[trigger] regions@[i] == s.nodes[i].region,
            decreases count - k,
        {
            regions.push(self.nodes[k].region);
            k = k + 1;
        }
        let mut out: Vec<Outbound> = Vec::new();
        let mut all: Vec<(Match, u32)> = Vec::new();
        let ghost mut ds: Seq<Delivery> = Seq::empty();
        let mut i: usize = 0;
        proof {
            assert(tagged_view(all@) =~= Seq::empty());
            assert(outbound_view(out@) =~= Seq::empty());
        }
        while i < count
            invariant
                i <= count,
                count == self.nodes@.len(),
                count == s.nodes.len(),
                now_us == s.now_us,
                s.local == self.latency_model.is_local(),
                regions@.len() == count,
                forall|j: int| 0 <= j < count ==> #[trigger] regions@[j] == s.nodes[j].region,
                forall|j: int|
                    0 <= j < count ==> count_has_room(#[trigger] s.nodes[j], now_us),
                ds.len() == i,
                forall|j: int| 0 <= j < i ==> delivers(s.nodes[j], now_us, #[trigger] ds[j]),
                forall|j: int| 0 <= j < i ==> (#[trigger] self.nodes@[j])@ == ds[j].node,
                forall|j: int| i <= j < count ==> (#[trigger] self.nodes@[j])@ == s.nodes[j],
                self@ == (SimSpec { nodes: nodes_view(self.nodes@), ..s }),
                tagged_view(all@) == matches_among(ds, i as nat),
                outbound_view(out@) == outbound_among(s.local, s.nodes, ds, i as nat),
                outbound_ok(outbound_view(out@), s.nodes.len()),
            decreases count - i,
        {
            let ghost nodes0 = self.nodes@;
            let ghost all0 = all@;
            let ghost ds0 = ds;
            proof {
                assert(nodes0[i as int]@ == s.nodes[i as int]);
            }
            let from: Region = regions[i];
            let id: u32 = self.nodes[i].id.0;
            let (ms, sends): (Vec<Match>, Vec<(NodeId, FloodMessage)>) = deliver_node(
                &mut self.nodes[i],
                now_us,
            );
            let ghost d = Delivery {
                node: self.nodes@[i as int]@,
                matches: matches_view(ms@),
                sends: sends_view(sends@),
            };
            proof {
                lemma_delivery_keeps_id(s.nodes[i as int], now_us, d);
                ds = ds0.push(d);
                lemma_among_prefix(s.local, s.nodes, ds0, d, i as nat);
                assert(ds[i as int] == d);
            }
            let ghost mv = matches_view(ms@);
            let ghost mseq = ms@;
            for m in it: ms.into_iter()
                invariant
                    it.seq() == mseq,
                    mv == matches_view(mseq),
                    tagged_view(all@) == tagged_view(all0) + tagged(mv, id).take(it.index()),
            {
                let ghost before = tagged_view(all@);
                let ghost x = m@;
                proof {
                    assert(mv[it.index()] == x);
                }
                all.push((m, id));
                proof {
                    assert(tagged_view(all@) =~= before.push((x, id)));
                    assert(tagged_view(all0) + tagged(mv, id).take(it.index() + 1)
                        =~= before.push((x, id)));
                }
            }
            proof {
                assert(tagged(mv, id).take(mv.len() as int) =~= tagged(mv, id));
            }
            address(&self.latency_model, &regions, from, sends, Ghost(s.nodes), &mut out);
            i = i + 1;
        }
        proof {
            assert(nodes_view(self.nodes@) =~= delivered_nodes(ds));
        }
        let ghost start = nodes_view(self.nodes@);
        let ghost ov = outbound_view(out@);
        let ghost outs = out@;
        let ghost mut jitter: Seq<u64> = Seq::empty();
        for o in it: out.into_iter()
            invariant
                it.seq() == outs,
                ov == outbound_view(outs),
                outbound_ok(ov, s.nodes.len()),
                start.len() == s.nodes.len(),
                now_us == s.now_us,
                now_us <= u64::MAX - 221_000,
                jitter.len() == it.index(),
                forall|j: int| 0 <= j < jitter.len() ==> #[trigger] jitter[j] < 1_000,
                nodes_view(self.nodes@) == posted(start, ov, now_us, jitter, it.index() as nat),
                self@ == (SimSpec { nodes: nodes_view(self.nodes@), ..s }),
        {
            let ghost x = it.index();
            proof {
                assert(ov[x] == o@);
                lemma_posted_len(start, ov, now_us, jitter, x as nat);
            }
            let extra: u64 = random_below(1_000);
            let at: u64 = now_us + o.latency_us + extra;
            hand_to(&mut self.nodes, o.msg, at, o.target);
            proof {
                let j1 = jitter.push(extra);
                lemma_posted_jitter(start, ov, now_us, jitter, j1, x as nat);
                jitter = j1;
            }
        }
        let ghost sent = nodes_view(self.nodes@);
        proof {
            lemma_posted_len(start, ov, now_us, jitter, ov.len());
        }
        let mut c: usize = 0;
        while c < count
            invariant
                c <= count,
                count == self.nodes@.len(),
                count == sent.len(),
                self@ == (SimSpec { nodes: nodes_view(self.nodes@), ..s }),
                forall|j: int| 0 <= j < c ==> (#[trigger] self.nodes@[j])@ == flushed_floods(sent)[j],
                forall|j: int| c <= j < count ==> (#[trigger] self.nodes@[j])@ == sent[j],
            decreases count - c,
        {
            let ghost nodes0 = self.nodes@;
            self.nodes[c].flood.order_book_orders = Vec::new();
            proof {
                assert(orders_view(self.nodes@[c as int].flood.order_book_orders@) =~= Seq::empty());
                assert(self.nodes@[c as int]@ =~= flushed_floods(sent)[c as int]);
                assert(self.nodes@ =~= nodes0.update(c as int, self.nodes@[c as int]));
            }
            c = c + 1;
        }
        proof {
            assert(nodes_view(self.nodes@) =~= flushed_floods(sent));
            assert(all_deliver(s.nodes, s.now_us, ds));
            assert(self@ =~= propagated(s, ds, jitter));
        }
        all
    }
}

proof fn lemma_received_keeps_id(
    d: Delivery,
    pending: Seq<(u64, FloodMessageSpec)>,
    now_us: u64,
    times: Seq<u64>,
    n: nat,
)
    ensures
        received_all(d, pending, now_us, times, n).node.id == d.node.id,
    decreases n,
{
    if n > 0 {
        lemma_received_keeps_id(d, pending, now_us, times, (n - 1) as nat);
    }
}

proof fn lemma_delivery_keeps_id(node: NodeSpec, now_us: u64, d: Delivery)
    requires
        delivers(node, now_us, d),
    ensures
        d.node.id == node.id,
{
    let times = choose|times: Seq<u64>|
        times.len() == node.pending.len() && #[trigger] node_delivery(node, now_us, times) == d;
    let start = Delivery {
        node: NodeSpec { pending: Seq::empty(), ..node },
        matches: Seq::empty(),
        sends: Seq::empty(),
    };
    lemma_received_keeps_id(start, node.pending, now_us, times, node.pending.len());
}

/// An order was handed to a node, if it is there and online.
pub open spec fn queued_at(s: SimSpec, order: OrderSpec, source: u32) -> SimSpec {
    if source < s.nodes.len() && s.nodes[source as int].online {
        let node = s.nodes[source as int];
        SimSpec {
            nodes: handed_to(
                s.nodes,
                originated(order, node.id, node.region, s.now_us),
                s.now_us,
                source as int,
            ),
            ..s
        }
    } else {
        s
    }
}

/// What a message does to a node that it reaches. An order that the node has not seen, that trades
/// something at a price in range and that has not gone too far is matched in the node's book, and goes
/// on to the node's neighbours. Any other leaves the book alone, makes no match and goes no further;
/// one that was seen or is out of range changes nothing at all.
pub proof fn law_messages_are_matched_once(d: Delivery, m: FloodMessageSpec, t: u64)
    ensures
        ({
            let a = received(d, m, t);
            let o = m.order;
            let fresh = !d.node.flood.seen.contains(o.id) && o.amount > 0 && 0 < o.price
                <= 1_000_000_000_000;
            &&& fresh && m.hop_count < d.node.max_hops ==> {
                &&& a.node.book == book_after(d.node.book, o)
                &&& a.matches == d.matches + matches_after(d.node.book, o, t)
                &&& a.sends == d.sends + forwards(
                    m,
                    d.node.id,
                    d.node.downstream,
                    d.node.downstream.len(),
                )
                &&& a.node.flood.seen.contains(o.id)
            }
            &&& fresh && m.hop_count >= d.node.max_hops ==> a.node.book == d.node.book && a.matches
                == d.matches && a.sends == d.sends && a.node.flood.seen.contains(o.id)
            &&& !fresh ==> a == d
            &&& a.node == (NodeSpec { book: a.node.book, flood: a.node.flood, ..d.node })
        }),
{
    let a = received(d, m, t);
    if takes_in(d.node.flood, m) {
        assert(a.node.flood.seen[0] == m.order.id);
    }
}

proof fn lemma_received_rest(
    d: Delivery,
    pending: Seq<(u64, FloodMessageSpec)>,
    now_us: u64,
    times: Seq<u64>,
    n: nat,
)
    ensures
        ({
            let a = received_all(d, pending, now_us, times, n);
            a.node == (NodeSpec { book: a.node.book, flood: a.node.flood, ..d.node })
        }),
    decreases n,
{
    if n > 0 {
        lemma_received_rest(d, pending, now_us, times, (n - 1) as nat);
    }
}

/// A node takes in, one after the other, the waiting messages that have arrived by now, and no others;
/// afterwards nothing waits any more. A node that is not online takes in none. Its count of matches
/// grows by the matches that it has made.
pub proof fn law_arrived_messages_are_taken_in(
    d: Delivery,
    pending: Seq<(u64, FloodMessageSpec)>,
    now_us: u64,
    times: Seq<u64>,
    n: nat,
    node: NodeSpec,
)
    requires
        n < pending.len(),
        node.matches_this_step + node_delivery(node, now_us, times).matches.len() <= usize::MAX,
    ensures
        received_all(d, pending, now_us, times, 0) == d,
        pending[n as int].0 <= now_us ==> received_all(d, pending, now_us, times, n + 1)
            == received(
            received_all(d, pending, now_us, times, n),
            pending[n as int].1,
            times[n as int],
        ),
        pending[n as int].0 > now_us ==> received_all(d, pending, now_us, times, n + 1)
            == received_all(d, pending, now_us, times, n),
        ({
            let a = node_delivery(node, now_us, times);
            &&& a.node.pending.len() == 0
            &&& a.node.id == node.id && a.node.region == node.region && a.node.online == node.online
            &&& a.node.matches_this_step == node.matches_this_step + a.matches.len()
            &&& !node.online ==> a.matches.len() == 0 && a.sends.len() == 0 && a.node.book
                == node.book && a.node.flood == node.flood
            &&& node.online && node.pending.len() == 0 ==> a.matches.len() == 0 && a.sends.len() == 0
                && a.node.book == node.book
        }),
{
    let start = Delivery {
        node: NodeSpec { pending: Seq::empty(), ..node },
        matches: Seq::empty(),
        sends: Seq::empty(),
    };
    lemma_received_rest(start, node.pending, now_us, times, node.pending.len());
}

proof fn lemma_posted_at(
    nodes: Seq<NodeSpec>,
    out: Seq<OutboundSpec>,
    now_us: u64,
    jitter: Seq<u64>,
    n: nat,
    i: int,
)
    requires
        n <= out.len(),
        0 <= i < nodes.len(),
        forall|k: int| 0 <= k < out.len() ==> (#[trigger] out[k]).target < nodes.len(),
    ensures
        ({
            let a = posted(nodes, out, now_us, jitter, n);
            &&& a.len() == nodes.len()
            &&& a[i] == (NodeSpec { pending: a[i].pending, ..nodes[i] })
            &&& a[i].pending.len() >= nodes[i].pending.len()
            &&& a[i].pending.take(nodes[i].pending.len() as int) == nodes[i].pending
        }),
    decreases n,
{
    if n > 0 {
        lemma_posted_at(nodes, out, now_us, jitter, (n - 1) as nat, i);
        let b = posted(nodes, out, now_us, jitter, (n - 1) as nat);
        let a = posted(nodes, out, now_us, jitter, n);
        assert(out[n - 1].target < nodes.len());
        let k = nodes[i].pending.len() as int;
        assert(a[i].pending.take(k) =~= b[i].pending.take(k));
    } else {
        assert(nodes[i].pending.take(nodes[i].pending.len() as int) =~= nodes[i].pending);
    }
}

/// Every message that is sent waits afterwards at the node that it is for, behind what waits there
/// already, and arrives when its latency and its jitter have gone by. Nothing else of the nodes changes.
pub proof fn law_sent_messages_wait_at_their_targets(
    nodes: Seq<NodeSpec>,
    out: Seq<OutboundSpec>,
    now_us: u64,
    jitter: Seq<u64>,
    n: nat,
    k: int,
    i: int,
)
    requires
        n <= out.len(),
        0 <= k < n,
        0 <= i < nodes.len(),
        forall|j: int| 0 <= j < out.len() ==> (#[trigger] out[j]).target < nodes.len(),
        now_us + out[k].latency_us + jitter[k] <= u64::MAX,
    ensures
        ({
            let a = posted(nodes, out, now_us, jitter, n);
            let at = (now_us + out[k].latency_us + jitter[k]) as u64;
            &&& a.len() == nodes.len()
            &&& a[out[k].target as int].pending.contains((at, out[k].msg))
            &&& a[i].pending.take(nodes[i].pending.len() as int) == nodes[i].pending
            &&& a[i] == (NodeSpec { pending: a[i].pending, ..nodes[i] })
        }),
    decreases n,
{
    lemma_posted_at(nodes, out, now_us, jitter, n, i);
    lemma_posted_at(nodes, out, now_us, jitter, n, out[k].target as int);
    lemma_posted_at(nodes, out, now_us, jitter, (n - 1) as nat, out[k].target as int);
    let m = (n - 1) as nat;
    let a = posted(nodes, out, now_us, jitter, n);
    let b = posted(nodes, out, now_us, jitter, m);
    let at = (now_us + out[k].latency_us + jitter[k]) as u64;
    let t = out[k].target as int;
    assert(out[k].target < nodes.len());
    assert(out[n - 1].target < nodes.len());
    if k < m {
        law_sent_messages_wait_at_their_targets(nodes, out, now_us, jitter, m, k, i);
        let x = choose|x: int| 0 <= x < b[t].pending.len() && b[t].pending[x] == (at, out[k].msg);
        assert(a[t].pending[x] == (at, out[k].msg));
    } else {
        assert(a[t].pending[b[t].pending.len() as int] == (at, out[k].msg));
    }
}

/// Every send to a node that is there is put on its way, for that node, with the latency between the
/// two regions; one to a node that is not there is dropped.
pub proof fn law_sends_are_put_on_their_way(
    local: bool,
    nodes: Seq<NodeSpec>,
    from: Region,
    sends: Seq<(NodeId, FloodMessageSpec)>,
    n: nat,
    k: int,
)
    requires
        n <= sends.len(),
        0 <= k < n,
    ensures
        ({
            let out = addressed(local, nodes, from, sends, n);
            let to = sends[k].0.0;
            &&& to < nodes.len() ==> exists|i: int|
                0 <= i < out.len() && (#[trigger] out[i]).target == to && out[i].msg == sends[k].1
                    && out[i].latency_us == latency_between(local, from, nodes[to as int].region)
            &&& forall|i: int|
                0 <= i < out.len() ==> exists|j: int|
                    0 <= j < n && (#[trigger] out[i]).target == (#[trigger] sends[j]).0.0
                        && out[i].msg == sends[j].1
            &&& out.len() <= n
        }),
    decreases n,
{
    let m = (n - 1) as nat;
    let b = addressed(local, nodes, from, sends, m);
    let out = addressed(local, nodes, from, sends, n);
    if m > 0 {
        law_sends_are_put_on_their_way(
            local,
            nodes,
            from,
            sends,
            m,
            if k < m {
                k
            } else {
                0
            },
        );
    }
    let to = sends[k].0.0;
    if to < nodes.len() {
        if k < m {
            let i = choose|i: int|
                0 <= i < b.len() && (#[trigger] b[i]).target == to && b[i].msg == sends[k].1
                    && b[i].latency_us == latency_between(local, from, nodes[to as int].region);
            assert(out[i].target == to);
        } else {
            assert(out[b.len() as int].target == to);
        }
    }
    assert forall|i: int| 0 <= i < out.len() implies exists|j: int|
        0 <= j < n && (#[trigger] out[i]).target == (#[trigger] sends[j]).0.0 && out[i].msg
            == sends[j].1 by {
        if i < b.len() {
            let j = choose|j: int|
                0 <= j < m && (#[trigger] b[i]).target == (#[trigger] sends[j]).0.0 && b[i].msg
                    == sends[j].1;
            assert(out[i].target == sends[j].0.0);
        } else {
            assert(out[i].target == sends[n - 1].0.0);
        }
    }
}

/// Every match that a node has made in a round is handed out with that node's number, and nothing else
/// is.
pub proof fn law_matches_are_handed_out(ds: Seq<Delivery>, n: nat, i: int, k: int, x: (MatchSpec, u32))
    requires
        n <= ds.len(),
        0 <= i < n,
        0 <= k < ds[i].matches.len(),
    ensures
        matches_among(ds, n).contains((ds[i].matches[k], ds[i].node.id.0)),
        matches_among(ds, n).contains(x) ==> exists|j: int|
            0 <= j < n && (#[trigger] ds[j]).matches.contains(x.0) && ds[j].node.id.0 == x.1,
    decreases n,
{
    let m = (n - 1) as nat;
    let a = matches_among(ds, n);
    let b = matches_among(ds, m);
    let y = (ds[i].matches[k], ds[i].node.id.0);
    if a.contains(x) {
        lemma_matches_from(ds, n, x);
    }
    if i < m {
        law_matches_are_handed_out(ds, m, i, k, x);
        let j = choose|j: int| 0 <= j < b.len() && b[j] == y;
        assert(a[j] == y);
    } else {
        assert(a[b.len() + k] == y);
    }
}

proof fn lemma_matches_from(ds: Seq<Delivery>, n: nat, x: (MatchSpec, u32))
    requires
        n <= ds.len(),
        matches_among(ds, n).contains(x),
    ensures
        exists|j: int|
            0 <= j < n && (#[trigger] ds[j]).matches.contains(x.0) && ds[j].node.id.0 == x.1,
    decreases n,
{
    let a = matches_among(ds, n);
    if n > 0 {
        let b = matches_among(ds, (n - 1) as nat);
        let j = choose|j: int| 0 <= j < a.len() && a[j] == x;
        if j < b.len() {
            assert(b[j] == x);
            lemma_matches_from(ds, (n - 1) as nat, x);
        } else {
            assert(ds[n - 1].matches[j - b.len()] == x.0);
        }
    }
}

/// What a round leaves alone: the number and kind of the nodes, the clock, the agents and their trades;
/// and of a node that is not online, or that nothing waited for, also the book and what it has seen. No
/// node keeps the orders that it took in longer than the round.
pub proof fn law_rounds_move_messages_alone(
    s: SimSpec,
    after: SimSpec,
    matches: Seq<(MatchSpec, u32)>,
    i: int,
)
    requires
        round_comes_to(s, after, matches),
        0 <= i < s.nodes.len(),
    ensures
        ({
            let n = s.nodes[i];
            let a = after.nodes[i];
            &&& after == (SimSpec { nodes: after.nodes, ..s })
            &&& after.nodes.len() == s.nodes.len()
            &&& a.id == n.id && a.region == n.region && a.online == n.online && a.max_hops
                == n.max_hops
            &&& a.upstream == n.upstream && a.downstream == n.downstream && a.zone == n.zone
            &&& a.flood.orders.len() == 0 && a.flood.limit == n.flood.limit
            &&& !n.online || n.pending.len() == 0 ==> a.book == n.book && a.flood.seen
                == n.flood.seen
        }),
{
    let (ds, jitter) = choose|ds: Seq<Delivery>, jitter: Seq<u64>|
        #![trigger propagated(s, ds, jitter)]
        all_deliver(s.nodes, s.now_us, ds) && jitter.len() == outbound_among(
            s.local,
            s.nodes,
            ds,
            ds.len(),
        ).len() && (forall|i: int| 0 <= i < jitter.len() ==> #[trigger] jitter[i] < 1_000) && after
            == propagated(s, ds, jitter) && matches == matches_among(ds, ds.len());
    let out = outbound_among(s.local, s.nodes, ds, ds.len());
    assert(delivers(s.nodes[i], s.now_us, ds[i]));
    let times = choose|times: Seq<u64>|
        times.len() == s.nodes[i].pending.len() && #[trigger] node_delivery(
            s.nodes[i],
            s.now_us,
            times,
        ) == ds[i];
    let node = s.nodes[i];
    let start = Delivery {
        node: NodeSpec { pending: Seq::empty(), ..node },
        matches: Seq::empty(),
        sends: Seq::empty(),
    };
    lemma_received_rest(start, node.pending, s.now_us, times, node.pending.len());
    lemma_received_limit(start, node.pending, s.now_us, times, node.pending.len());
    lemma_outbound_targets(s.local, s.nodes, ds, ds.len());
    lemma_posted_at(delivered_nodes(ds), out, s.now_us, jitter, out.len(), i);
}

proof fn lemma_received_limit(
    d: Delivery,
    pending: Seq<(u64, FloodMessageSpec)>,
    now_us: u64,
    times: Seq<u64>,
    n: nat,
)
    ensures
        received_all(d, pending, now_us, times, n).node.flood.limit == d.node.flood.limit,
    decreases n,
{
    if n > 0 {
        lemma_received_limit(d, pending, now_us, times, (n - 1) as nat);
    }
}

proof fn lemma_outbound_targets(local: bool, nodes: Seq<NodeSpec>, ds: Seq<Delivery>, n: nat)
    requires
        n <= ds.len(),
        ds.len() == nodes.len(),
    ensures
        forall|k: int|
            0 <= k < outbound_among(local, nodes, ds, n).len() ==> (#[trigger] outbound_among(
                local,
                nodes,
                ds,
                n,
            )[k]).target < nodes.len(),
    decreases n,
{
    if n > 0 {
        let m = (n - 1) as nat;
        lemma_outbound_targets(local, nodes, ds, m);
        let sends = ds[m as int].sends;
        lemma_addressed_targets(local, nodes, nodes[m as int].region, sends, sends.len());
        let b = outbound_among(local, nodes, ds, m);
        let a = outbound_among(local, nodes, ds, n);
        let c = addressed(local, nodes, nodes[m as int].region, sends, sends.len());
        assert forall|k: int| 0 <= k < a.len() implies (#[trigger] a[k]).target < nodes.len() by {
            if k < b.len() {
                assert(a[k] == b[k]);
            } else {
                assert(a[k] == c[k - b.len()]);
            }
        }
    }
}

proof fn lemma_addressed_targets(
    local: bool,
    nodes: Seq<NodeSpec>,
    from: Region,
    sends: Seq<(NodeId, FloodMessageSpec)>,
    n: nat,
)
    ensures
        forall|k: int|
            0 <= k < addressed(local, nodes, from, sends, n).len() ==> (#[trigger] addressed(
                local,
                nodes,
                from,
                sends,
                n,
            )[k]).target < nodes.len(),
    decreases n,
{
    if n > 0 {
        lemma_addressed_targets(local, nodes, from, sends, (n - 1) as nat);
    }
}

} // verus!
