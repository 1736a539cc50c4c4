//! A simulated mesh: nodes, who they send to, and how long it takes.

use crate::book::{BookSpec, OrderBook};
use crate::fees::default_rates;
use crate::flood::{FloodSchedule, FloodSpec, Peer, RoutingTable, SimpleFlood};
use crate::types::{FloodMessage, FloodMessageSpec, NodeId, Region};
use vstd::prelude::*;

verus! {

/// How long messages take between regions.
#[derive(Clone, Copy, Debug, PartialEq, Eq, Structural)]
pub struct LatencyModel {
    local: bool,
}

/// How long a message takes, in microseconds.
pub open spec fn latency_between(local: bool, from: Region, to: Region) -> u64 {
    match (from, to) {
        (Region::UsEast1, Region::EuWest1) | (Region::EuWest1, Region::UsEast1) => if local {
            25_000
        } else {
            75_000
        },
        (Region::UsEast1, Region::ApSoutheast1) | (Region::ApSoutheast1, Region::UsEast1) => {
            if local {
                15_000
            } else {
                150_000
            }
        },
        (Region::EuWest1, Region::ApSoutheast1) | (Region::ApSoutheast1, Region::EuWest1) => {
            if local {
                35_000
            } else {
                220_000
            }
        },
        _ => if local {
            2_000
        } else {
            5_000
        },
    }
}

impl LatencyModel {
    pub closed spec fn is_local(&self) -> bool {
        self.local
    }

    /// Nodes around the world.
    pub fn new() -> (r: Self)
        ensures
            !r.is_local(),
    {
        LatencyModel { local: false }
    }

    /// Nodes near each other.
    pub fn local() -> (r: Self)
        ensures
            r.is_local(),
    {
        LatencyModel { local: true }
    }

    /// How long a message takes, in microseconds.
    pub fn get_latency(&self, from: Region, to: Region) -> (r: u64)
        ensures
            r == latency_between(self.is_local(), from, to),
    {
        match (from, to) {
            (Region::UsEast1, Region::EuWest1) | (Region::EuWest1, Region::UsEast1) => {
                if self.local {
                    25_000
                } else {
                    75_000
                }
            },
            (Region::UsEast1, Region::ApSoutheast1) | (Region::ApSoutheast1, Region::UsEast1) => {
                if self.local {
                    15_000
                } else {
                    150_000
                }
            },
            (Region::EuWest1, Region::ApSoutheast1) | (Region::ApSoutheast1, Region::EuWest1) => {
                if self.local {
                    35_000
                } else {
                    220_000
                }
            },
            _ => {
                if self.local {
                    2_000
                } else {
                    5_000
                }
            },
        }
    }
}

/// A message takes as long one way as the other, and least within a region.
pub proof fn law_latency_is_symmetric(local: bool, a: Region, b: Region)
    ensures
        latency_between(local, a, b) == latency_between(local, b, a),
        latency_between(local, a, a) <= latency_between(local, a, b),
{
}

/// A node of the simulated mesh. A message waits with the time at which it arrives until the next
/// round; one that has not arrived by then is lost.
pub struct MeshNode {
    pub id: NodeId,
    pub region: Region,
    pub online: bool,
    pub flood: SimpleFlood,
    pub routing: RoutingTable,
    pub schedule: FloodSchedule,
    pub orderbook: OrderBook,
    pub pending_messages: Vec<(u64, FloodMessage)>,
    pub matches_this_step: usize,
}

/// What a [`MeshNode`] stands for.
#[verifier::ext_equal]
pub struct NodeSpec {
    pub id: NodeId,
    pub region: Region,
    pub online: bool,
    pub flood: FloodSpec,
    pub upstream: Seq<Peer>,
    pub downstream: Seq<Peer>,
    pub zone: Seq<Peer>,
    pub max_hops: u8,
    pub book: BookSpec,
    pub pending: Seq<(u64, FloodMessageSpec)>,
    pub matches_this_step: usize,
}

/// Messages and their times, each message by its view.
pub open spec fn pending_view(s: Seq<(u64, FloodMessage)>) -> Seq<(u64, FloodMessageSpec)> {
    Seq::new(s.len(), |i: int| (s[i].0, s[i].1@))
}

impl View for MeshNode {
    type V = NodeSpec;

    open spec fn view(&self) -> NodeSpec {
        NodeSpec {
            id: self.id,
            region: self.region,
            online: self.online,
            flood: self.flood@,
            upstream: self.routing.upstream_peers@,
            downstream: self.routing.downstream_peers@,
            zone: self.routing.zone_peers@,
            max_hops: self.schedule.max_hops,
            book: self.orderbook@,
            pending: pending_view(self.pending_messages@),
            matches_this_step: self.matches_this_step,
        }
    }
}

/// Nodes, each by its view.
pub open spec fn nodes_view(s: Seq<MeshNode>) -> Seq<NodeSpec> {
    Seq::new(s.len(), |i: int| s[i]@)
}

/// The region of each node, given how many there are in which.
pub open spec fn regions_of(config: Seq<(Region, u32)>) -> Seq<Region>
    decreases config.len(),
{
    if config.len() == 0 {
        Seq::empty()
    } else {
        regions_of(config.drop_last()) + Seq::new(config.last().1 as nat, |i: int| config.last().0)
    }
}

/// Where the first node of a region stands, and the start where there is none.
pub open spec fn first_of(regions: Seq<Region>, region: Region) -> int
    decreases regions.len(),
{
    if regions.len() == 0 {
        0
    } else if regions.drop_last().contains(region) {
        first_of(regions.drop_last(), region)
    } else if regions.last() == region {
        regions.len() - 1
    } else {
        0
    }
}

/// A node bridges its region to others: the very first node for the first region, and the first
/// node of its region for the others.
pub open spec fn is_bridge(regions: Seq<Region>, i: int) -> bool {
    match regions[i] {
        Region::UsEast1 => i == 0,
        Region::EuWest1 => i == first_of(regions, Region::EuWest1),
        Region::ApSoutheast1 => i == first_of(regions, Region::ApSoutheast1),
    }
}

/// Node `i` as its neighbours see it.
pub open spec fn peer_of(local: bool, regions: Seq<Region>, i: int, j: int) -> Peer {
    Peer { id: NodeId(j as u32), latency_us: latency_between(local, regions[i], regions[j]) }
}

/// Who, among the first `n` nodes, is in node `i`'s region.
pub open spec fn zone_of(local: bool, regions: Seq<Region>, i: int, n: nat) -> Seq<Peer>
    decreases n,
{
    if n == 0 {
        Seq::empty()
    } else {
        let before = zone_of(local, regions, i, (n - 1) as nat);
        if n - 1 != i && regions[n - 1] == regions[i] {
            before.push(peer_of(local, regions, i, n - 1))
        } else {
            before
        }
    }
}

/// Who, among the first `n` nodes, node `i` sends to: those of its region, and as a bridge the
/// bridges of the others.
pub open spec fn downstream_of(local: bool, regions: Seq<Region>, i: int, n: nat) -> Seq<Peer>
    decreases n,
{
    if n == 0 {
        Seq::empty()
    } else {
        let before = downstream_of(local, regions, i, (n - 1) as nat);
        let j = n - 1;
        if j != i && (regions[j] == regions[i] || is_bridge(regions, i) && is_bridge(regions, j)) {
            before.push(peer_of(local, regions, i, j))
        } else {
            before
        }
    }
}

/// A book with nothing in it.
pub open spec fn empty_book(symbol: Seq<char>) -> BookSpec {
    BookSpec {
        symbol,
        bids: Map::empty(),
        asks: Map::empty(),
        node_rewards: 0,
        rates: default_rates(),
        nodes: Seq::empty(),
        cursor: 0,
    }
}

/// Node `i` at the start.
pub open spec fn new_node(
    local: bool,
    regions: Seq<Region>,
    symbol: Seq<char>,
    max_hops: u8,
    i: int,
) -> NodeSpec {
    NodeSpec {
        id: NodeId(i as u32),
        region: regions[i],
        online: true,
        flood: FloodSpec { seen: Seq::empty(), limit: 100_000, orders: Seq::empty() },
        upstream: zone_of(local, regions, i, regions.len()),
        downstream: downstream_of(local, regions, i, regions.len()),
        zone: zone_of(local, regions, i, regions.len()),
        max_hops,
        book: empty_book(symbol),
        pending: Seq::empty(),
        matches_this_step: 0,
    }
}

/// The nodes at the start.
pub open spec fn new_nodes(
    local: bool,
    regions: Seq<Region>,
    symbol: Seq<char>,
    max_hops: u8,
) -> Seq<NodeSpec> {
    Seq::new(regions.len(), |i: int| new_node(local, regions, symbol, max_hops, i))
}

fn expand_regions(config: &[(Region, u32)]) -> (r: Vec<Region>)
    ensures
        r@ == regions_of(config@),
{
    let mut out: Vec<Region> = Vec::new();
    let mut i: usize = 0;
    proof {
        assert(config@.take(0) =~= Seq::empty());
    }
    while i < config.len()
        invariant
            i <= config@.len(),
            out@ == regions_of(config@.take(i as int)),
        decreases config@.len() - i,
    {
        let (region, count): (Region, u32) = config[i];
        let ghost before = out@;
        let mut k: u32 = 0;
        proof {
            assert(before + Seq::new(0nat, |x: int| region) =~= before);
        }
        while k < count
            invariant
                k <= count,
                out@ == before + Seq::new(k as nat, |x: int| region),
            decreases count - k,
        {
            out.push(region);
            proof {
                assert(out@ =~= before + Seq::new((k + 1) as nat, |x: int| region));
            }
            k = k + 1;
        }
        proof {
            assert(config@.take(i + 1).drop_last() =~= config@.take(i as int));
            assert(config@.take(i + 1).last() == (region, count));
            assert(Seq::new(count as nat, |x: int| region) =~= Seq::new(
                config@.take(i + 1).last().1 as nat,
                |x: int| config@.take(i + 1).last().0,
            ));
        }
        i = i + 1;
    }
    proof {
        assert(config@.take(config@.len() as int) =~= config@);
    }
    out
}

proof fn lemma_first_of(regions: Seq<Region>, region: Region, k: int)
    requires
        0 <= k < regions.len(),
        regions[k] == region,
        forall|j: int| 0 <= j < k ==> regions[j] != region,
    ensures
        first_of(regions, region) == k,
    decreases regions.len(),
{
    let t = regions.drop_last();
    if k < t.len() {
        assert(t[k] == region);
        assert(t.contains(region));
        lemma_first_of(t, region, k);
    } else {
        assert(!t.contains(region)) by {
            if t.contains(region) {
                let j = choose|j: int| 0 <= j < t.len() && t[j] == region;
                assert(regions[j] == region);
            }
        }
    }
}

proof fn lemma_first_of_none(regions: Seq<Region>, region: Region)
    requires
        forall|j: int| 0 <= j < regions.len() ==> regions[j] != region,
    ensures
        first_of(regions, region) == 0,
{
    if regions.len() > 0 {
        let t = regions.drop_last();
        assert(!t.contains(region)) by {
            if t.contains(region) {
                let j = choose|j: int| 0 <= j < t.len() && t[j] == region;
                assert(regions[j] == region);
            }
        }
        assert(regions[regions.len() - 1] != region);
    }
}

fn find_first(regions: &Vec<Region>, region: Region) -> (r: usize)
    ensures
        r == first_of(regions@, region),
{
    let mut i: usize = 0;
    while i < regions.len()
        invariant
            i <= regions@.len(),
            forall|j: int| 0 <= j < i ==> regions@[j] != region,
        decreases regions@.len() - i,
    {
        if regions[i] == region {
            proof {
                lemma_first_of(regions@, region, i as int);
            }
            return i;
        }
        i = i + 1;
    }
    proof {
        lemma_first_of_none(regions@, region);
    }
    0
}

fn bridges(regions: &Vec<Region>, i: usize) -> (r: bool)
    requires
        i < regions@.len(),
    ensures
        r == is_bridge(regions@, i as int),
{
    match regions[i] {
        Region::UsEast1 => i == 0,
        Region::EuWest1 => i == find_first(regions, Region::EuWest1),
        Region::ApSoutheast1 => i == find_first(regions, Region::ApSoutheast1),
    }
}

fn routes(model: &LatencyModel, regions: &Vec<Region>, i: usize) -> (r: RoutingTable)
    requires
        i < regions@.len() <= u32::MAX,
    ensures
        r.upstream_peers@ == zone_of(model.is_local(), regions@, i as int, regions@.len()),
        r.downstream_peers@ == downstream_of(model.is_local(), regions@, i as int, regions@.len()),
        r.zone_peers@ == zone_of(model.is_local(), regions@, i as int, regions@.len()),
{
    let mut upstream_peers: Vec<Peer> = Vec::new();
    let mut downstream_peers: Vec<Peer> = Vec::new();
    let mut zone_peers: Vec<Peer> = Vec::new();
    let mut j: usize = 0;
    while j < regions.len()
        invariant
            j <= regions@.len(),
            i < regions@.len() <= u32::MAX,
            upstream_peers@ == zone_of(model.is_local(), regions@, i as int, j as nat),
            downstream_peers@ == downstream_of(model.is_local(), regions@, i as int, j as nat),
            zone_peers@ == zone_of(model.is_local(), regions@, i as int, j as nat),
        decreases regions@.len() - j,
    {
        if j != i {
            let peer = Peer {
                id: NodeId(j as u32),
                latency_us: model.get_latency(regions[i], regions[j]),
            };
            if regions[i] == regions[j] {
                zone_peers.push(peer);
                downstream_peers.push(peer);
                upstream_peers.push(peer);
            } else if bridges(regions, i) && bridges(regions, j) {
                downstream_peers.push(peer);
            }
        }
        j = j + 1;
    }
    RoutingTable { upstream_peers, downstream_peers, zone_peers }
}

/// The nodes of a mesh, with `config` saying how many there are in which region. Messages go
/// `max_hops` far.
pub fn build_nodes(
    model: &LatencyModel,
    symbol: &str,
    config: &[(Region, u32)],
    max_hops: u8,
) -> (r: Vec<MeshNode>)
    requires
        regions_of(config@).len() <= u32::MAX,
    ensures
        nodes_view(r@) == new_nodes(model.is_local(), regions_of(config@), symbol@, max_hops),
{
    let regions: Vec<Region> = expand_regions(config);
    let mut nodes: Vec<MeshNode> = Vec::new();
    let mut i: usize = 0;
    while i < regions.len()
        invariant
            i <= regions@.len(),
            regions@ == regions_of(config@),
            regions@.len() <= u32::MAX,
            nodes@.len() == i,
            forall|k: int|
                0 <= k < i ==> (#[trigger] nodes@[k])@ == new_node(
                    model.is_local(),
                    regions@,
                    symbol@,
                    max_hops,
                    k,
                ),
        decreases regions@.len() - i,
    {
        let node = MeshNode {
            id: NodeId(i as u32),
            region: regions[i],
            online: true,
            flood: SimpleFlood::new(),
            routing: routes(model, &regions, i),
            schedule: FloodSchedule { max_hops },
            orderbook: OrderBook::new(symbol.to_owned()),
            pending_messages: Vec::new(),
            matches_this_step: 0,
        };
        proof {
            assert(node@.pending =~= Seq::empty());
            assert(node@ =~= new_node(model.is_local(), regions@, symbol@, max_hops, i as int));
        }
        nodes.push(node);
        i = i + 1;
    }
    proof {
        assert(nodes_view(nodes@) =~= new_nodes(
            model.is_local(),
            regions_of(config@),
            symbol@,
            max_hops,
        ));
    }
    nodes
}

/// The nodes after an order has been handed to one of them. One that is not there or not online
/// does not take it.
pub open spec fn handed_to(
    nodes: Seq<NodeSpec>,
    m: FloodMessageSpec,
    at: u64,
    target: int,
) -> Seq<NodeSpec> {
    nodes.update(
        target,
        NodeSpec { pending: nodes[target].pending.push((at, m)), ..nodes[target] },
    )
}

/// Puts a message in a node's queue.
pub fn hand_to(nodes: &mut Vec<MeshNode>, m: FloodMessage, at: u64, target: usize)
    requires
        target < old(nodes)@.len(),
    ensures
        nodes_view(final(nodes)@) == handed_to(nodes_view(old(nodes)@), m@, at, target as int),
{
    let ghost before = nodes@;
    let ghost mv = m@;
    nodes[target].pending_messages.push((at, m));
    proof {
        assert(nodes@.len() == before.len());
        assert(pending_view(nodes@[target as int].pending_messages@) =~= pending_view(
            before[target as int].pending_messages@,
        ).push((at, mv)));
        assert(nodes_view(nodes@) =~= handed_to(nodes_view(before), mv, at, target as int));
    }
}

/// Node `i` sends to node `j`.
pub open spec fn sends_to(local: bool, regions: Seq<Region>, i: int, j: int) -> bool {
    i != j && (regions[i] == regions[j] || is_bridge(regions, i) && is_bridge(regions, j))
}

proof fn lemma_downstream_has(local: bool, regions: Seq<Region>, i: int, j: int, n: nat)
    requires
        n <= regions.len(),
        0 <= j < n,
        sends_to(local, regions, i, j),
    ensures
        downstream_of(local, regions, i, n).contains(peer_of(local, regions, i, j)),
    decreases n,
{
    let s = downstream_of(local, regions, i, n);
    if j == n - 1 {
        assert(s[s.len() - 1] == peer_of(local, regions, i, j));
    } else {
        lemma_downstream_has(local, regions, i, j, (n - 1) as nat);
        let before = downstream_of(local, regions, i, (n - 1) as nat);
        let k = choose|k: int| 0 <= k < before.len() && before[k] == peer_of(local, regions, i, j);
        assert(s[k] == before[k]);
    }
}

/// Links go both ways: a node sends to every node that sends to it.
pub proof fn law_links_are_mutual(local: bool, regions: Seq<Region>, i: int, j: int)
    requires
        0 <= i < regions.len(),
        0 <= j < regions.len(),
        sends_to(local, regions, i, j),
    ensures
        downstream_of(local, regions, i, regions.len()).contains(peer_of(local, regions, i, j)),
        downstream_of(local, regions, j, regions.len()).contains(peer_of(local, regions, j, i)),
{
    lemma_downstream_has(local, regions, i, j, regions.len());
    lemma_downstream_has(local, regions, j, i, regions.len());
}

/// Node `j` is in a list of peers.
pub open spec fn has_peer(peers: Seq<Peer>, j: int) -> bool {
    exists|k: int| 0 <= k < peers.len() && (#[trigger] peers[k]).id.0 == j
}

/// Node `i` links its region to the others: it is the very first node, or the first node of a region
/// other than the first one.
pub open spec fn links_regions(regions: Seq<Region>, i: int) -> bool {
    if regions[i] == Region::UsEast1 {
        i == 0
    } else {
        forall|k: int| 0 <= k < i ==> #[trigger] regions[k] != regions[i]
    }
}

proof fn lemma_earliest(regions: Seq<Region>, i: int) -> (f: int)
    requires
        0 <= i < regions.len(),
    ensures
        0 <= f <= i,
        regions[f] == regions[i],
        forall|k: int| 0 <= k < f ==> #[trigger] regions[k] != regions[i],
    decreases i,
{
    if exists|k: int| 0 <= k < i && #[trigger] regions[k] == regions[i] {
        let k = choose|k: int| 0 <= k < i && #[trigger] regions[k] == regions[i];
        lemma_earliest(regions, k)
    } else {
        i
    }
}

proof fn lemma_bridge_is(regions: Seq<Region>, i: int)
    requires
        0 <= i < regions.len(),
    ensures
        is_bridge(regions, i) <==> links_regions(regions, i),
{
    let f = lemma_earliest(regions, i);
    lemma_first_of(regions, regions[i], f);
    if f < i {
        assert(regions[f] == regions[i]);
    }
}

proof fn lemma_downstream_is(local: bool, regions: Seq<Region>, i: int, n: nat, j: int)
    requires
        n <= regions.len() <= u32::MAX,
        0 <= i < regions.len(),
        0 <= j,
    ensures
        has_peer(downstream_of(local, regions, i, n), j) <==> j < n && j != i && (regions[j]
            == regions[i] || is_bridge(regions, i) && is_bridge(regions, j)),
        has_peer(zone_of(local, regions, i, n), j) <==> j < n && j != i && regions[j] == regions[i],
        forall|k: int|
            0 <= k < downstream_of(local, regions, i, n).len() ==> ({
                let p = #[trigger] downstream_of(local, regions, i, n)[k];
                p.id.0 < n && p.latency_us == latency_between(
                    local,
                    regions[i],
                    regions[p.id.0 as int],
                )
            }),
    decreases n,
{
    if n > 0 {
        let m = (n - 1) as nat;
        lemma_downstream_is(local, regions, i, m, j);
        let d = downstream_of(local, regions, i, m);
        let e = downstream_of(local, regions, i, n);
        let z = zone_of(local, regions, i, m);
        let y = zone_of(local, regions, i, n);
        if has_peer(d, j) {
            let k = choose|k: int| 0 <= k < d.len() && (#[trigger] d[k]).id.0 == j;
            assert(e[k].id.0 == j);
        }
        if has_peer(z, j) {
            let k = choose|k: int| 0 <= k < z.len() && (#[trigger] z[k]).id.0 == j;
            assert(y[k].id.0 == j);
        }
        if j == m {
            if e.len() > d.len() {
                assert(e[d.len() as int].id.0 == j);
            }
            if y.len() > z.len() {
                assert(y[z.len() as int].id.0 == j);
            }
        }
        if has_peer(e, j) && !has_peer(d, j) {
            let k = choose|k: int| 0 <= k < e.len() && (#[trigger] e[k]).id.0 == j;
            if k < d.len() {
                assert(d[k].id.0 == j);
            }
        }
        if has_peer(y, j) && !has_peer(z, j) {
            let k = choose|k: int| 0 <= k < y.len() && (#[trigger] y[k]).id.0 == j;
            if k < z.len() {
                assert(z[k].id.0 == j);
            }
        }
        assert forall|k: int| 0 <= k < e.len() implies ({
            let p = #[trigger] e[k];
            p.id.0 < n && p.latency_us == latency_between(local, regions[i], regions[p.id.0 as int])
        }) by {
            if k < d.len() {
                assert(e[k] == d[k]);
                assert(d[k].id.0 < m);
            }
        }
    }
}

/// Who a node sends to: every other node of its region, and, where it links its region to the others,
/// every other node that does. Each message takes as long as one between the two regions does. Its
/// neighbours in its own region are the other nodes there, and it hears from these.
pub proof fn law_nodes_are_linked_by_region(
    local: bool,
    regions: Seq<Region>,
    symbol: Seq<char>,
    max_hops: u8,
    i: int,
    j: int,
    k: int,
)
    requires
        regions.len() <= u32::MAX,
        0 <= i < regions.len(),
        0 <= j < regions.len(),
    ensures
        ({
            let node = new_node(local, regions, symbol, max_hops, i);
            &&& has_peer(node.downstream, j) <==> j != i && (regions[j] == regions[i]
                || links_regions(regions, i) && links_regions(regions, j))
            &&& has_peer(node.zone, j) <==> j != i && regions[j] == regions[i]
            &&& node.upstream == node.zone
            &&& 0 <= k < node.downstream.len() && node.downstream[k].id.0 == j
                ==> node.downstream[k].latency_us == latency_between(local, regions[i], regions[j])
            &&& node.id.0 == i && node.region == regions[i] && node.online && node.max_hops
                == max_hops
            &&& node.pending.len() == 0 && node.matches_this_step == 0
            &&& node.book.symbol == symbol
        }),
{
    let n = regions.len();
    lemma_downstream_is(local, regions, i, n, j);
    lemma_bridge_is(regions, i);
    lemma_bridge_is(regions, j);
}

/// Where the first region has the very first node, or no node at all, an order gets from every node to
/// every other in at most three hops: to the node that links its region, over to the one that links
/// the other region, and on.
pub proof fn law_mesh_is_connected(local: bool, regions: Seq<Region>, i: int, j: int)
    requires
        regions.len() <= u32::MAX,
        0 <= i < regions.len(),
        0 <= j < regions.len(),
        regions[0] == Region::UsEast1 || forall|k: int|
            0 <= k < regions.len() ==> #[trigger] regions[k] != Region::UsEast1,
    ensures
        exists|a: int, b: int|
            #![trigger regions[a], regions[b]]
            {
                &&& 0 <= a < regions.len() && 0 <= b < regions.len()
                &&& i == a || has_peer(downstream_of(local, regions, i, regions.len()), a)
                &&& a == b || has_peer(downstream_of(local, regions, a, regions.len()), b)
                &&& b == j || has_peer(downstream_of(local, regions, b, regions.len()), j)
            },
{
    let n = regions.len();
    let a = lemma_earliest(regions, i);
    let b = lemma_earliest(regions, j);
    assert(links_regions(regions, a)) by {
        if regions[a] == Region::UsEast1 && a != 0 {
            assert(regions[0] != regions[i]);
        }
    }
    assert(links_regions(regions, b)) by {
        if regions[b] == Region::UsEast1 && b != 0 {
            assert(regions[0] != regions[j]);
        }
    }
    lemma_bridge_is(regions, a);
    lemma_bridge_is(regions, b);
    lemma_downstream_is(local, regions, i, n, a);
    lemma_downstream_is(local, regions, a, n, b);
    lemma_downstream_is(local, regions, b, n, j);
    let x = regions[a];
    let y = regions[b];
}

/// The nodes of each region stand together, as many of each as asked for, in the order asked for.
pub proof fn law_regions_are_as_asked(config: Seq<(Region, u32)>, region: Region, count: u32)
    ensures
        regions_of(Seq::<(Region, u32)>::empty()).len() == 0,
        regions_of(config.push((region, count))).len() == regions_of(config).len() + count,
        regions_of(config.push((region, count))).take(regions_of(config).len() as int)
            == regions_of(config),
        forall|i: int|
            regions_of(config).len() <= i < regions_of(config).len() + count
                ==> #[trigger] regions_of(config.push((region, count)))[i] == region,
{
    let c = config.push((region, count));
    assert(c.drop_last() =~= config);
    assert(c.last() == (region, count));
    assert(regions_of(c).take(regions_of(config).len() as int) =~= regions_of(config));
}

/// A message that is handed to a node waits there last, with its time; no other node is touched.
pub proof fn law_handed_messages_wait_last(
    nodes: Seq<NodeSpec>,
    m: FloodMessageSpec,
    at: u64,
    target: int,
    i: int,
)
    requires
        0 <= target < nodes.len(),
        0 <= i < nodes.len(),
    ensures
        ({
            let a = handed_to(nodes, m, at, target);
            &&& a.len() == nodes.len()
            &&& i != target ==> a[i] == nodes[i]
            &&& a[target].pending == nodes[target].pending.push((at, m))
            &&& a[target] == (NodeSpec { pending: a[target].pending, ..nodes[target] })
        }),
{
}

} // verus!
