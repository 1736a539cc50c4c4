//! Flooding orders through the mesh, each passed on once.

use crate::bytes::Id32;
use crate::types::{orders_view, FloodMessage, FloodMessageSpec, NodeId, Order, OrderSpec};
use lru::LruCache;
use vstd::prelude::*;

verus! {

/// The cache of the `lru` crate.
#[verifier::external_type_specification]
#[verifier::external_body]
#[verifier::reject_recursive_types(A)]
#[verifier::reject_recursive_types(B)]
#[verifier::reject_recursive_types(H)]
pub struct ExLruCache<A, B, H>(lru::LruCache<A, B, H>);

/// The hasher of such a cache.
#[verifier::external_type_specification]
#[verifier::external_body]
pub struct ExDefaultHasher(lru::DefaultHasher);

/// The keys of a cache, the one that was put in last first.
pub uninterp spec fn cached_ids(c: LruCache<Id32, ()>) -> Seq<Id32>;

/// How many keys a cache holds at most.
pub uninterp spec fn cache_limit(c: LruCache<Id32, ()>) -> nat;

/// The keys after another was put in: it comes first, and where there were as many as the limit
/// allows the last one is gone.
pub open spec fn put_id(s: Seq<Id32>, limit: nat, id: Id32) -> Seq<Id32> {
    if s.contains(id) {
        seq![id] + s.remove(s.index_of(id))
    } else if s.len() == limit {
        seq![id] + s.drop_last()
    } else {
        seq![id] + s
    }
}

/// `LruCache::new`: a cache with nothing in it and this limit. It sets aside room for as many
/// keys, and panics where that many cannot be set aside.
#[verifier::external_body]
fn new_cache(limit: usize) -> (r: LruCache<Id32, ()>)
    requires
        0 < limit <= 100_000,
    ensures
        cached_ids(r) == Seq::<Id32>::empty(),
        cache_limit(r) == limit,
{
    LruCache::new(std::num::NonZeroUsize::new(limit).unwrap())
}

/// `LruCache::contains`: whether the key is held.
#[verifier::external_body]
fn cache_contains(c: &LruCache<Id32, ()>, id: &Id32) -> (r: bool)
    ensures
        r == cached_ids(*c).contains(*id),
{
    c.contains(id)
}

/// `LruCache::put`: the key comes first, and the last one leaves a cache that was full.
#[verifier::external_body]
fn cache_put(c: &mut LruCache<Id32, ()>, id: Id32)
    ensures
        cached_ids(*final(c)) == put_id(cached_ids(*old(c)), cache_limit(*old(c)), id),
        cache_limit(*final(c)) == cache_limit(*old(c)),
{
    c.put(id, ());
}

/// A neighbour, and how long a message takes to it, in microseconds.
#[derive(Clone, Copy, Debug, PartialEq, Eq, Structural)]
pub struct Peer {
    pub id: NodeId,
    pub latency_us: u64,
}

/// Who a node hears from, who it sends to, and who is in its own region.
#[derive(Clone, Debug)]
pub struct RoutingTable {
    pub upstream_peers: Vec<Peer>,
    pub downstream_peers: Vec<Peer>,
    pub zone_peers: Vec<Peer>,
}

/// How far a message goes.
#[derive(Clone, Copy, Debug, PartialEq, Eq, Structural)]
pub struct FloodSchedule {
    pub max_hops: u8,
}

/// What a node has seen and taken in.
pub struct SimpleFlood {
    pub received_cache: LruCache<Id32, ()>,
    pub order_book_orders: Vec<Order>,
}

/// What a [`SimpleFlood`] stands for.
#[verifier::ext_equal]
pub struct FloodSpec {
    pub seen: Seq<Id32>,
    pub limit: nat,
    pub orders: Seq<OrderSpec>,
}

impl View for SimpleFlood {
    type V = FloodSpec;

    open spec fn view(&self) -> FloodSpec {
        FloodSpec {
            seen: cached_ids(self.received_cache),
            limit: cache_limit(self.received_cache),
            orders: orders_view(self.order_book_orders@),
        }
    }
}

/// An order that a node takes in: it trades something, at a price that is neither zero nor beyond
/// what a price may be.
pub open spec fn sane_order(o: OrderSpec) -> bool {
    o.amount > 0 && 0 < o.price <= 1_000_000_000_000
}

/// A node takes in a message: the order is new and sane.
pub open spec fn takes_in(f: FloodSpec, m: FloodMessageSpec) -> bool {
    !f.seen.contains(m.order.id) && sane_order(m.order)
}

/// What a node has seen after a message came.
pub open spec fn flood_after(f: FloodSpec, m: FloodMessageSpec) -> FloodSpec {
    if takes_in(f, m) {
        FloodSpec {
            seen: put_id(f.seen, f.limit, m.order.id),
            limit: f.limit,
            orders: f.orders.push(m.order),
        }
    } else {
        f
    }
}

/// The message as a node passes it on.
pub open spec fn passed_on(m: FloodMessageSpec, node: NodeId) -> FloodMessageSpec {
    FloodMessageSpec { hop_count: (m.hop_count + 1) as u8, path: m.path.push(node), ..m }
}

/// A peer gets the message: it is not the node itself, and not one that the message has been to.
pub open spec fn forwards_to(m: FloodMessageSpec, node: NodeId, peer: NodeId) -> bool {
    !m.path.contains(peer) && peer != node
}

/// What a node sends to the first `n` of its peers.
pub open spec fn forwards(
    m: FloodMessageSpec,
    node: NodeId,
    peers: Seq<Peer>,
    n: nat,
) -> Seq<(NodeId, FloodMessageSpec)>
    decreases n,
{
    if n == 0 {
        Seq::empty()
    } else {
        let before = forwards(m, node, peers, (n - 1) as nat);
        if forwards_to(m, node, peers[n - 1].id) {
            before.push((peers[n - 1].id, passed_on(m, node)))
        } else {
            before
        }
    }
}

/// Messages and where they go, each message by its view.
pub open spec fn sends_view(s: Seq<(NodeId, FloodMessage)>) -> Seq<(NodeId, FloodMessageSpec)> {
    Seq::new(s.len(), |i: int| (s[i].0, s[i].1@))
}

fn on_path(path: &Vec<NodeId>, id: NodeId) -> (r: bool)
    ensures
        r == path@.contains(id),
{
    let mut i: usize = 0;
    while i < path.len()
        invariant
            i <= path@.len(),
            forall|k: int| 0 <= k < i ==> path@[k] != id,
        decreases path@.len() - i,
    {
        if path[i] == id {
            assert(path@[i as int] == id);
            return true;
        }
        i = i + 1;
    }
    false
}

fn copy_path(path: &Vec<NodeId>, last: NodeId) -> (r: Vec<NodeId>)
    ensures
        r@ == path@.push(last),
{
    let mut out: Vec<NodeId> = Vec::new();
    let mut i: usize = 0;
    while i < path.len()
        invariant
            i <= path@.len(),
            out@ == path@.take(i as int),
        decreases path@.len() - i,
    {
        out.push(path[i]);
        assert(out@ =~= path@.take(i + 1));
        i = i + 1;
    }
    out.push(last);
    assert(out@ =~= path@.push(last));
    out
}

impl SimpleFlood {
    /// A node that has seen nothing. It remembers the last hundred thousand orders.
    pub fn new() -> (r: Self)
        ensures
            r@ == (FloodSpec { seen: Seq::empty(), limit: 100_000, orders: Seq::empty() }),
    {
        let r = SimpleFlood { received_cache: new_cache(100_000), order_book_orders: Vec::new() };
        assert(r@.orders =~= Seq::empty());
        r
    }

    /// Receives a message. A new, sane order is taken in and, as long as it has not gone far
    /// enough, passed on to the peers that it has not been to.
    pub fn on_receive(
        &mut self,
        msg: FloodMessage,
        node_id: NodeId,
        routing: &RoutingTable,
        schedule: &FloodSchedule,
    ) -> (r: Result<Vec<(NodeId, FloodMessage)>, ()>)
        ensures
            final(self)@ == flood_after(old(self)@, msg@),
            match r {
                Ok(sends) => takes_in(old(self)@, msg@) && msg.hop_count < schedule.max_hops
                    && sends_view(sends@) == forwards(
                    msg@,
                    node_id,
                    routing.downstream_peers@,
                    routing.downstream_peers@.len(),
                ),
                Err(_) => !takes_in(old(self)@, msg@) || msg.hop_count >= schedule.max_hops,
            },
    {
        let ghost before = self@;
        let ghost m = msg@;
        if cache_contains(&self.received_cache, &msg.order.id) {
            return Err(());
        }
        if msg.order.amount == 0 || msg.order.price == 0 || msg.order.price > 1_000_000_000_000 {
            return Err(());
        }
        if msg.hop_count >= schedule.max_hops {
            let ghost orders = self.order_book_orders@;
            cache_put(&mut self.received_cache, msg.order.id);
            self.order_book_orders.push(msg.order);
            proof {
                assert(orders_view(self.order_book_orders@) =~= orders_view(orders).push(m.order));
                assert(self@ =~= flood_after(before, m));
            }
            return Err(());
        }
        let ghost orders = self.order_book_orders@;
        cache_put(&mut self.received_cache, msg.order.id);
        self.order_book_orders.push(msg.order.duplicate());
        proof {
            assert(orders_view(self.order_book_orders@) =~= orders_view(orders).push(m.order));
            assert(self@ =~= flood_after(before, m));
        }
        let mut sends: Vec<(NodeId, FloodMessage)> = Vec::new();
        let mut i: usize = 0;
        proof {
            assert(sends_view(sends@) =~= Seq::empty());
        }
        while i < routing.downstream_peers.len()
            invariant
                i <= routing.downstream_peers@.len(),
                m == msg@,
                msg.hop_count < schedule.max_hops,
                sends_view(sends@) == forwards(
                    m,
                    node_id,
                    routing.downstream_peers@,
                    i as nat,
                ),
            decreases routing.downstream_peers@.len() - i,
        {
            let peer: NodeId = routing.downstream_peers[i].id;
            if !(on_path(&msg.path, peer) || peer == node_id) {
                let ghost sent = sends@;
                let fwd = FloodMessage {
                    order: msg.order.duplicate(),
                    hop_count: msg.hop_count + 1,
                    path: copy_path(&msg.path, node_id),
                    timestamp_us: msg.timestamp_us,
                    source_region: msg.source_region,
                };
                let ghost fv = fwd@;
                proof {
                    assert(fv =~= passed_on(m, node_id));
                }
                sends.push((peer, fwd));
                proof {
                    assert(sends_view(sends@) =~= sends_view(sent).push((peer, fv)));
                }
            }
            i = i + 1;
        }
        Ok(sends)
    }
}

/// What a cache can hold: no more than its limit, nothing twice.
pub open spec fn cache_ok(f: FloodSpec) -> bool {
    f.limit > 0 && f.seen.len() <= f.limit && f.seen.no_duplicates()
}

/// A node remembers each order once, and no more orders than its limit.
pub proof fn law_memory_is_bounded(f: FloodSpec, m: FloodMessageSpec)
    requires
        cache_ok(f),
    ensures
        cache_ok(flood_after(f, m)),
{
    if takes_in(f, m) {
        let g = flood_after(f, m).seen;
        let rest = if f.seen.len() == f.limit {
            f.seen.drop_last()
        } else {
            f.seen
        };
        assert(g =~= seq![m.order.id] + rest);
        assert forall|i: int, j: int| 0 <= i < g.len() && 0 <= j < g.len() && i != j implies g[i]
            != g[j] by {
            if i == 0 {
                assert(g[j] == f.seen[j - 1]);
            } else if j == 0 {
                assert(g[i] == f.seen[i - 1]);
            } else {
                assert(g[i] == f.seen[i - 1] && g[j] == f.seen[j - 1]);
            }
        }
    }
}

/// An order that a node has just taken in is not taken in again, by whichever path it comes.
pub proof fn law_orders_flood_once(f: FloodSpec, m: FloodMessageSpec, again: FloodMessageSpec)
    requires
        takes_in(f, m),
        again.order.id == m.order.id,
    ensures
        !takes_in(flood_after(f, m), again),
        flood_after(flood_after(f, m), again) == flood_after(f, m),
{
    let g = flood_after(f, m).seen;
    assert(g[0] == m.order.id);
    assert(g.contains(again.order.id));
}

/// An order that a node remembers stays remembered as long as there is room for the orders that
/// come after it: of those that were put in later, fewer than the limit.
pub proof fn law_recent_orders_are_remembered(s: Seq<Id32>, limit: nat, id: Id32, next: Id32, i: int)
    requires
        limit > 0,
        s.len() <= limit,
        0 <= i < s.len(),
        s[i] == id,
        i + 1 < limit,
        !s.contains(next),
    ensures
        put_id(s, limit, next).contains(id),
        put_id(s, limit, next)[i + 1] == id,
{
    assert(put_id(s, limit, next)[i + 1] == id);
}

/// A message never goes back to a node that it has been to, nor to its sender, and each send
/// counts one hop more.
pub proof fn law_messages_do_not_go_back(
    m: FloodMessageSpec,
    node: NodeId,
    peers: Seq<Peer>,
    n: nat,
    i: int,
)
    requires
        n <= peers.len(),
        m.hop_count < 255,
        0 <= i < forwards(m, node, peers, n).len(),
    ensures
        ({
            let (to, sent) = forwards(m, node, peers, n)[i];
            &&& to != node
            &&& !m.path.contains(to)
            &&& !sent.path.contains(to)
            &&& sent.path == m.path.push(node)
            &&& sent.hop_count == m.hop_count + 1
            &&& sent.order == m.order
        }),
    decreases n,
{
    let before = forwards(m, node, peers, (n - 1) as nat);
    if i < before.len() {
        law_messages_do_not_go_back(m, node, peers, (n - 1) as nat, i);
    } else {
        let to = peers[n - 1].id;
        let path = m.path.push(node);
        assert forall|k: int| 0 <= k < path.len() implies path[k] != to by {
            if k < m.path.len() {
                assert(m.path.contains(m.path[k]));
            }
        }
    }
}

/// What a node takes in. An order is new where its id is not remembered, and sane where it trades
/// something at a price from 1 to a million millions. A new and sane order is kept behind the others
/// and remembered first; any other message changes nothing.
pub proof fn law_new_sane_orders_are_taken_in(f: FloodSpec, m: FloodMessageSpec)
    ensures
        ({
            let a = flood_after(f, m);
            let o = m.order;
            let fine = !f.seen.contains(o.id) && o.amount >= 1 && 1 <= o.price
                <= 1_000_000_000_000;
            &&& takes_in(f, m) == fine
            &&& fine ==> a.orders == f.orders.push(o) && a.seen.len() > 0 && a.seen[0] == o.id
                && a.limit == f.limit
            &&& fine && f.seen.len() < f.limit ==> a.seen == seq![o.id] + f.seen
            &&& !fine ==> a == f
        }),
{
}

/// A message goes on to every neighbour that it has not been to and that is not the node itself, in
/// their order, each time with one hop more and the node added to its path, and to nobody else.
pub proof fn law_messages_go_to_every_new_peer(
    m: FloodMessageSpec,
    node: NodeId,
    peers: Seq<Peer>,
    n: nat,
)
    requires
        n <= peers.len(),
        m.hop_count < 255,
    ensures
        forwards(m, node, peers, n) == peers.take(n as int).filter(
            |p: Peer| p.id != node && !m.path.contains(p.id),
        ).map_values(
            |p: Peer|
                (
                    p.id,
                    FloodMessageSpec {
                        hop_count: (m.hop_count + 1) as u8,
                        path: m.path.push(node),
                        ..m
                    },
                ),
        ),
    decreases n,
{
    let fresh = |p: Peer| p.id != node && !m.path.contains(p.id);
    let sent = |p: Peer|
        (
            p.id,
            FloodMessageSpec {
                hop_count: (m.hop_count + 1) as u8,
                path: m.path.push(node),
                ..m
            },
        );
    if n > 0 {
        law_messages_go_to_every_new_peer(m, node, peers, (n - 1) as nat);
        let t = peers.take(n - 1);
        assert(peers.take(n as int) =~= t.push(peers[n - 1]));
        t.lemma_filter_push(peers[n - 1], fresh);
        if fresh(peers[n - 1]) {
            assert(t.filter(fresh).push(peers[n - 1]).map_values(sent) =~= t.filter(
                fresh,
            ).map_values(sent).push(sent(peers[n - 1])));
        }
    } else {
        reveal(Seq::filter);
        assert(peers.take(0) =~= Seq::empty());
        assert(peers.take(0).filter(fresh).map_values(sent) =~= Seq::empty());
    }
}

} // verus!
