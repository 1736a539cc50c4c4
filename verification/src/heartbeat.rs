//! Heartbeats against a schedule that is known beforehand.

use crate::assoc::{entry_keys, AssocMap, Key};
use crate::types::NodeId;
use vstd::prelude::*;

verus! {

impl Key for NodeId {
    type V = NodeId;

    open spec fn key(&self) -> NodeId {
        *self
    }

    fn same(&self, other: &Self) -> (r: bool) {
        self.0 == other.0
    }
}

impl Key for (u32, u32) {
    type V = (u32, u32);

    open spec fn key(&self) -> (u32, u32) {
        *self
    }

    fn same(&self, other: &Self) -> (r: bool) {
        self.0 == other.0 && self.1 == other.1
    }
}

/// A set of nodes.
#[derive(Debug)]
pub struct NodeSet {
    members: AssocMap<NodeId, ()>,
}

impl View for NodeSet {
    type V = Set<NodeId>;

    closed spec fn view(&self) -> Set<NodeId> {
        self.members@.dom()
    }
}

impl NodeSet {
    pub fn new() -> (r: Self)
        ensures
            r@ == Set::<NodeId>::empty(),
    {
        let r = NodeSet { members: AssocMap::new() };
        assert(r@ =~= Set::empty());
        r
    }

    pub fn contains(&self, node: &NodeId) -> (r: bool)
        ensures
            r == self@.contains(*node),
    {
        self.members.contains_key(node)
    }

    pub fn insert(&mut self, node: NodeId)
        ensures
            final(self)@ == old(self)@.insert(node),
    {
        self.members.insert(node, ());
        assert(self@ =~= old(self)@.insert(node));
    }
}

/// How many cycles are scheduled.
pub const CYCLES: usize = 100;

/// The latency of a zone that none is given for, in milliseconds.
pub const DEFAULT_LATENCY_MS: u64 = 5;

/// How far a heartbeat may be off its time, in milliseconds.
pub const TOLERANCE_MS: u64 = 5;

/// When a peer's heartbeats are due.
pub open spec fn schedule(base: u64, interval: u64, latency: u64) -> Seq<u64> {
    Seq::new(CYCLES as nat, |i: int| (base + i * interval + latency) as u64)
}

/// The latency to a peer: that between the zones, the peer's being the local one unless it is
/// given.
pub open spec fn latency_to(
    zones: Map<NodeId, u32>,
    latencies: Map<(u32, u32), u64>,
    local: u32,
    peer: NodeId,
) -> u64 {
    let zone = if zones.contains_key(peer) {
        zones[peer]
    } else {
        local
    };
    if latencies.contains_key((local, zone)) {
        latencies[(local, zone)]
    } else {
        DEFAULT_LATENCY_MS
    }
}

/// A number read as a signed one of the same width.
pub open spec fn signed(v: u64) -> int {
    if v < 0x8000_0000_0000_0000 {
        v as int
    } else {
        v - 0x1_0000_0000_0000_0000
    }
}

/// A tracker of peers' heartbeats.
#[derive(Debug)]
pub struct DeterministicHeartbeat {
    pub heartbeat_interval_ms: u64,
    pub max_missed: u8,
    pub last_heartbeats: AssocMap<NodeId, u64>,
    pub missed_count: AssocMap<NodeId, u8>,
    pub expected_schedule: AssocMap<NodeId, Vec<u64>>,
    pub unhealthy_nodes: NodeSet,
}

/// What a [`DeterministicHeartbeat`] stands for.
pub struct HeartbeatSpec {
    pub interval: u64,
    pub max_missed: u8,
    pub last: Map<NodeId, u64>,
    pub missed: Map<NodeId, u8>,
    pub expected: Map<NodeId, Seq<u64>>,
    pub order: Seq<NodeId>,
    pub unhealthy: Set<NodeId>,
}

impl View for DeterministicHeartbeat {
    type V = HeartbeatSpec;

    open spec fn view(&self) -> HeartbeatSpec {
        HeartbeatSpec {
            interval: self.heartbeat_interval_ms,
            max_missed: self.max_missed,
            last: self.last_heartbeats@,
            missed: self.missed_count@,
            expected: self.expected_schedule@.map_values(|v: Vec<u64>| v@),
            order: entry_keys(self.expected_schedule.list()),
            unhealthy: self.unhealthy_nodes@,
        }
    }
}

/// Every peer that is tracked has a schedule.
pub open spec fn scheduled(h: HeartbeatSpec) -> bool {
    forall|p: NodeId| #[trigger] h.expected.contains_key(p) ==> h.expected[p].len() > 0
}

/// When heartbeat `seq` of a peer is due.
pub open spec fn due_at(h: HeartbeatSpec, peer: NodeId, seq: usize) -> u64 {
    h.expected[peer][(seq as nat % h.expected[peer].len()) as int]
}

/// The tracker after a heartbeat: one that is off its time makes the peer unhealthy, one in time is
/// noted, and one from a stranger is nothing.
pub open spec fn after_heartbeat(h: HeartbeatSpec, from: NodeId, at: u64, seq: usize) -> HeartbeatSpec {
    if !h.expected.contains_key(from) {
        h
    } else {
        let diff = signed(at) - signed(due_at(h, from, seq));
        if diff > TOLERANCE_MS || diff < -(TOLERANCE_MS as int) {
            HeartbeatSpec { unhealthy: h.unhealthy.insert(from), ..h }
        } else {
            HeartbeatSpec {
                last: h.last.insert(from, at),
                missed: h.missed.insert(from, 0),
                ..h
            }
        }
    }
}

/// A heartbeat that should have come by `now` has not.
pub open spec fn overdue(h: HeartbeatSpec, peer: NodeId, now: u64, seq: usize) -> bool {
    let seen = if h.last.contains_key(peer) {
        h.last[peer]
    } else {
        0
    };
    now > due_at(h, peer, seq) && seen < due_at(h, peer, seq)
}

/// How many intervals have gone by since a heartbeat was due. The count is kept in eight bits.
pub open spec fn missed_by(h: HeartbeatSpec, peer: NodeId, now: u64, seq: usize) -> u8 {
    (((now - due_at(h, peer, seq)) / (h.interval as int)) % 256) as u8
}

/// A peer counts as dead at `now`.
pub open spec fn dead(h: HeartbeatSpec, peer: NodeId, now: u64, seq: usize) -> bool {
    overdue(h, peer, now, seq) && missed_by(h, peer, now, seq) >= h.max_missed
}

/// The dead among the first `n` peers.
pub open spec fn dead_among(h: HeartbeatSpec, now: u64, seq: usize, n: nat) -> Seq<NodeId>
    decreases n,
{
    if n == 0 {
        Seq::empty()
    } else if dead(h, h.order[n - 1], now, seq) {
        dead_among(h, now, seq, (n - 1) as nat).push(h.order[n - 1])
    } else {
        dead_among(h, now, seq, (n - 1) as nat)
    }
}

/// The tracker after the first `n` peers have been looked at.
pub open spec fn checked(h: HeartbeatSpec, now: u64, seq: usize, n: nat) -> HeartbeatSpec
    decreases n,
{
    if n == 0 {
        h
    } else {
        let p = h.order[n - 1];
        let g = checked(h, now, seq, (n - 1) as nat);
        HeartbeatSpec {
            missed: if overdue(h, p, now, seq) {
                g.missed.insert(p, missed_by(h, p, now, seq))
            } else {
                g.missed
            },
            unhealthy: if dead(h, p, now, seq) {
                g.unhealthy.insert(p)
            } else {
                g.unhealthy
            },
            ..g
        }
    }
}

/// A number as a signed one of twice the width.
fn as_signed(v: u64) -> (r: i128)
    ensures
        r == signed(v),
{
    if v < 0x8000_0000_0000_0000 {
        v as i128
    } else {
        v as i128 - 0x1_0000_0000_0000_0000i128
    }
}

impl DeterministicHeartbeat {
    /// Schedules the heartbeats of peers. Latencies are in whole milliseconds.
    pub fn new(
        peers: &Vec<NodeId>,
        base_time: u64,
        heartbeat_interval_ms: u64,
        max_missed: u8,
        zone_connectivity: &AssocMap<(u32, u32), u64>,
        local_zone_id: u32,
        peer_zones: &AssocMap<NodeId, u32>,
    ) -> (r: Self)
        requires
            forall|i: int|
                0 <= i < peers@.len() ==> base_time + (CYCLES - 1) * heartbeat_interval_ms
                    + latency_to(
                    peer_zones@,
                    zone_connectivity@,
                    local_zone_id,
                    #[trigger] peers@[i],
                ) <= u64::MAX,
        ensures
            r@.interval == heartbeat_interval_ms,
            r@.max_missed == max_missed,
            r@.last == Map::<NodeId, u64>::empty(),
            r@.missed == Map::<NodeId, u8>::empty(),
            r@.unhealthy == Set::<NodeId>::empty(),
            forall|p: NodeId| #[trigger] r@.expected.contains_key(p) <==> peers@.contains(p),
            forall|p: NodeId| #[trigger]
                r@.expected.contains_key(p) ==> r@.expected[p] == schedule(
                    base_time,
                    heartbeat_interval_ms,
                    latency_to(peer_zones@, zone_connectivity@, local_zone_id, p),
                ),
            scheduled(r@),
    {
        let mut expected_schedule: AssocMap<NodeId, Vec<u64>> = AssocMap::new();
        let mut i: usize = 0;
        while i < peers.len()
            invariant
                i <= peers@.len(),
                forall|i: int|
                    0 <= i < peers@.len() ==> base_time + (CYCLES - 1) * heartbeat_interval_ms
                        + latency_to(
                        peer_zones@,
                        zone_connectivity@,
                        local_zone_id,
                        #[trigger] peers@[i],
                    ) <= u64::MAX,
                forall|p: NodeId| #[trigger]
                    expected_schedule@.contains_key(p) <==> exists|k: int|
                        0 <= k < i && #[trigger] peers@[k] == p,
                forall|p: NodeId| #[trigger]
                    expected_schedule@.contains_key(p) ==> expected_schedule@[p]@ == schedule(
                        base_time,
                        heartbeat_interval_ms,
                        latency_to(peer_zones@, zone_connectivity@, local_zone_id, p),
                    ),
            decreases peers@.len() - i,
        {
            let peer: NodeId = peers[i];
            let peer_zone: u32 = match peer_zones.get(&peer) {
                Some(z) => *z,
                None => local_zone_id,
            };
            let latency_ms: u64 = match zone_connectivity.get(&(local_zone_id, peer_zone)) {
                Some(l) => *l,
                None => DEFAULT_LATENCY_MS,
            };
            let ghost want = schedule(base_time, heartbeat_interval_ms, latency_ms);
            let mut times: Vec<u64> = Vec::new();
            let mut k: usize = 0;
            while k < CYCLES
                invariant
                    k <= CYCLES,
                    want == schedule(base_time, heartbeat_interval_ms, latency_ms),
                    base_time + (CYCLES - 1) * heartbeat_interval_ms + latency_ms <= u64::MAX,
                    times@ == want.take(k as int),
                decreases CYCLES - k,
            {
                proof {
                    assert(0 <= k * heartbeat_interval_ms <= (CYCLES - 1) * heartbeat_interval_ms)
                        by (nonlinear_arith)
                        requires
                            0 <= k <= CYCLES - 1,
                            0 <= heartbeat_interval_ms,
                    ;
                }
                let t: u64 = base_time + k as u64 * heartbeat_interval_ms + latency_ms;
                times.push(t);
                proof {
                    assert(want[k as int] == t);
                    assert(want.take(k + 1) =~= want.take(k as int).push(t));
                }
                k = k + 1;
            }
            proof {
                assert(want.take(CYCLES as int) =~= want);
            }
            let ghost m0 = expected_schedule@;
            expected_schedule.insert(peer, times);
            proof {
                assert forall|p: NodeId| #[trigger]
                    expected_schedule@.contains_key(p) <==> exists|k: int|
                        0 <= k < i + 1 && #[trigger] peers@[k] == p by {
                    if expected_schedule@.contains_key(p) {
                        if p == peer {
                            assert(peers@[i as int] == p);
                        } else {
                            assert(m0.contains_key(p));
                        }
                    }
                    if exists|k: int| 0 <= k < i + 1 && #[trigger] peers@[k] == p {
                        let k = choose|k: int| 0 <= k < i + 1 && #[trigger] peers@[k] == p;
                        if k < i {
                            assert(m0.contains_key(p));
                        }
                    }
                }
            }
            i = i + 1;
        }
        let r = DeterministicHeartbeat {
            heartbeat_interval_ms,
            max_missed,
            last_heartbeats: AssocMap::new(),
            missed_count: AssocMap::new(),
            expected_schedule,
            unhealthy_nodes: NodeSet::new(),
        };
        proof {
            assert forall|p: NodeId| #[trigger] r@.expected.contains_key(p) <==> peers@.contains(
                p,
            ) by {
                assert(r@.expected.contains_key(p) <==> r.expected_schedule@.contains_key(p));
            }
        }
        r
    }

    /// A heartbeat has come in.
    pub fn on_heartbeat(&mut self, from: NodeId, received_at: u64, seq: usize)
        requires
            scheduled(old(self)@),
            old(self)@.expected.contains_key(from) ==> i64::MIN < signed(received_at) - signed(
                due_at(old(self)@, from, seq),
            ) <= i64::MAX,
        ensures
            final(self)@ == after_heartbeat(old(self)@, from, received_at, seq),
    {
        let expected: u64 = match self.expected_schedule.get(&from) {
            Some(times) => {
                proof {
                    assert(self@.expected.contains_key(from));
                    assert(self@.expected[from] == times@);
                }
                times[seq % times.len()]
            },
            None => {
                proof {
                    assert(!self@.expected.contains_key(from));
                }
                return;
            },
        };
        let diff: i128 = as_signed(received_at) - as_signed(expected);
        if diff > TOLERANCE_MS as i128 || diff < -(TOLERANCE_MS as i128) {
            self.unhealthy_nodes.insert(from);
            return;
        }
        self.last_heartbeats.insert(from, received_at);
        self.missed_count.insert(from, 0);
    }

    /// The peers whose heartbeats have been missing for too long.
    pub fn check_health(&mut self, current_time: u64, current_seq: usize) -> (r: Vec<NodeId>)
        requires
            scheduled(old(self)@),
            old(self)@.interval > 0 || forall|p: NodeId| #[trigger]
                old(self)@.expected.contains_key(p) ==> !overdue(
                    old(self)@,
                    p,
                    current_time,
                    current_seq,
                ),
        ensures
            r@ == dead_among(old(self)@, current_time, current_seq, old(self)@.order.len()),
            final(self)@ == checked(
                old(self)@,
                current_time,
                current_seq,
                old(self)@.order.len(),
            ),
    {
        let ghost h = self@;
        let mut dead_nodes: Vec<NodeId> = Vec::new();
        let n: usize = self.expected_schedule.len();
        let mut i: usize = 0;
        while i < n
            invariant
                i <= n,
                h == old(self)@,
                n == h.order.len(),
                n == self.expected_schedule.list().len(),
                self.expected_schedule@ == old(self).expected_schedule@,
                self.expected_schedule.list() == old(self).expected_schedule.list(),
                self.last_heartbeats@ == h.last,
                self.heartbeat_interval_ms == h.interval,
                self.max_missed == h.max_missed,
                scheduled(h),
                h.interval > 0 || forall|p: NodeId| #[trigger]
                    h.expected.contains_key(p) ==> !overdue(h, p, current_time, current_seq),
                dead_nodes@ == dead_among(h, current_time, current_seq, i as nat),
                self@ == checked(h, current_time, current_seq, i as nat),
            decreases n - i,
        {
            let peer: NodeId = *self.expected_schedule.key_at(i);
            let times: &Vec<u64> = self.expected_schedule.value_at(i);
            proof {
                assert(h.order[i as int] == peer);
                assert(h.expected.contains_key(peer));
                assert(h.expected[peer] == times@);
            }
            let expected_next: u64 = times[current_seq % times.len()];
            let last_seen: u64 = match self.last_heartbeats.get(&peer) {
                Some(t) => *t,
                None => 0,
            };
            if current_time > expected_next && last_seen < expected_next {
                proof {
                    assert(overdue(h, peer, current_time, current_seq));
                }
                let intervals: u64 = (current_time - expected_next) / self.heartbeat_interval_ms;
                let missed: u8 = (intervals % 256) as u8;
                self.missed_count.insert(peer, missed);
                if missed >= self.max_missed {
                    dead_nodes.push(peer);
                    self.unhealthy_nodes.insert(peer);
                }
            }
            i = i + 1;
        }
        dead_nodes
    }
}

/// A peer that keeps to its schedule stays healthy: a heartbeat that comes when it is due changes
/// nothing about who is unhealthy, and the peer is not dead at that time.
pub proof fn law_punctual_peers_stay_healthy(h: HeartbeatSpec, p: NodeId, seq: usize)
    requires
        h.expected.contains_key(p),
    ensures
        ({
            let at = due_at(h, p, seq);
            let after = after_heartbeat(h, p, at, seq);
            &&& after.unhealthy == h.unhealthy
            &&& after.missed[p] == 0
            &&& !overdue(after, p, at, seq)
            &&& forall|now: u64| !overdue(after, p, now, seq)
        }),
{
}

proof fn lemma_dead_among(h: HeartbeatSpec, now: u64, seq: usize, n: nat, p: NodeId)
    requires
        n <= h.order.len(),
    ensures
        dead_among(h, now, seq, n).contains(p) <==> h.order.take(n as int).contains(p) && dead(
            h,
            p,
            now,
            seq,
        ),
    decreases n,
{
    if n > 0 {
        let k = (n - 1) as nat;
        lemma_dead_among(h, now, seq, k, p);
        let before = dead_among(h, now, seq, k);
        let after = dead_among(h, now, seq, n);
        let t = h.order.take(n as int);
        assert(t.drop_last() =~= h.order.take(k as int));
        assert(t == t.drop_last().push(h.order[k as int]));
        if before.contains(p) {
            let i = choose|i: int| 0 <= i < before.len() && before[i] == p;
            assert(after[i] == p);
            let j = choose|j: int| 0 <= j < k && h.order.take(k as int)[j] == p;
            assert(t[j] == p);
        }
        if after.contains(p) && !before.contains(p) {
            let i = choose|i: int| 0 <= i < after.len() && after[i] == p;
            if i < before.len() {
                assert(before[i] == p);
            }
            assert(t[k as int] == p);
        }
        if t.contains(p) && dead(h, p, now, seq) {
            let j = choose|j: int| 0 <= j < t.len() && t[j] == p;
            if j < k {
                assert(h.order.take(k as int)[j] == p);
            } else {
                assert(after[before.len() as int] == p);
            }
        }
    }
}

proof fn lemma_checked(h: HeartbeatSpec, now: u64, seq: usize, n: nat, p: NodeId)
    requires
        n <= h.order.len(),
    ensures
        ({
            let g = checked(h, now, seq, n);
            let looked = h.order.take(n as int).contains(p);
            &&& g == (HeartbeatSpec { missed: g.missed, unhealthy: g.unhealthy, ..h })
            &&& g.unhealthy.contains(p) <==> h.unhealthy.contains(p) || looked && dead(
                h,
                p,
                now,
                seq,
            )
            &&& looked && overdue(h, p, now, seq) ==> g.missed.contains_key(p) && g.missed[p]
                == missed_by(h, p, now, seq)
            &&& !(looked && overdue(h, p, now, seq)) ==> g.missed.contains_key(p)
                == h.missed.contains_key(p) && g.missed[p] == h.missed[p]
        }),
    decreases n,
{
    if n > 0 {
        let k = (n - 1) as nat;
        lemma_checked(h, now, seq, k, p);
        let t = h.order.take(n as int);
        assert(t.drop_last() =~= h.order.take(k as int));
        if h.order.take(k as int).contains(p) {
            let j = choose|j: int| 0 <= j < k && h.order.take(k as int)[j] == p;
            assert(t[j] == p);
        }
        if h.order[k as int] == p {
            assert(t[k as int] == p);
        }
        if t.contains(p) && h.order[k as int] != p {
            let j = choose|j: int| 0 <= j < t.len() && t[j] == p;
            assert(h.order.take(k as int)[j] == p);
        }
    }
}

/// When peers are named dead. Let a peer's heartbeat have been due at `due`. It is named, and only
/// named, where the heartbeat has not been seen and has been outstanding for `max_missed` whole
/// intervals. A peer whose heartbeat was seen, is not due yet, or was due less than `max_missed`
/// intervals ago is not named and does not become unhealthy. How long it has been outstanding is
/// counted in whole intervals up to 255; beyond that the count starts over.
pub proof fn law_dead_peers_have_missed_enough(
    h: HeartbeatSpec,
    now: u64,
    seq: usize,
    p: NodeId,
    due: u64,
)
    requires
        h.interval > 0,
        h.order.contains(p),
        h.expected.contains_key(p),
        h.expected[p].len() > 0,
        due == h.expected[p][seq as int % h.expected[p].len() as int],
    ensures
        ({
            let named = dead_among(h, now, seq, h.order.len()).contains(p);
            let after = checked(h, now, seq, h.order.len());
            let seen = h.last.contains_key(p) && h.last[p] >= due || due == 0;
            &&& named ==> now > due && !seen && now - due >= h.max_missed * h.interval
            &&& now > due && !seen && h.max_missed * h.interval <= now - due < 256 * h.interval
                ==> named
            &&& after.unhealthy.contains(p) <==> h.unhealthy.contains(p) || named
            &&& seen || now <= due || now - due < h.max_missed * h.interval ==> !named && (
            after.unhealthy.contains(p) <==> h.unhealthy.contains(p))
            &&& now > due && !seen && now - due < 256 * h.interval ==> after.missed.contains_key(p)
                && after.missed[p] * h.interval <= now - due < (after.missed[p] + 1) * h.interval
            &&& seen || now <= due ==> after.missed.contains_key(p) == h.missed.contains_key(p)
                && after.missed[p] == h.missed[p]
        }),
{
    let n = h.order.len();
    lemma_dead_among(h, now, seq, n, p);
    lemma_checked(h, now, seq, n, p);
    assert(h.order.take(n as int) =~= h.order);
    assert(due == due_at(h, p, seq));
    if now > due {
        let e = now - due;
        let i = h.interval as int;
        let q = e / i;
        assert(q * i <= e < (q + 1) * i && 0 <= q) by (nonlinear_arith)
            requires
                q == e / i,
                i > 0,
                e >= 0,
        ;
        if e < 256 * i {
            assert(q < 256) by (nonlinear_arith)
                requires
                    q * i <= e,
                    e < 256 * i,
                    i > 0,
            ;
            assert(missed_by(h, p, now, seq) == q);
        }
        let m = h.max_missed as int;
        let w = q % 256;
        assert(w <= q);
        if w >= m {
            assert(m * i <= e) by (nonlinear_arith)
                requires
                    m <= w,
                    w <= q,
                    q * i <= e,
                    i > 0,
            ;
        }
        if m * i <= e {
            assert(m <= q) by (nonlinear_arith)
                requires
                    m * i <= e,
                    e < (q + 1) * i,
                    i > 0,
            ;
        }
    }
}

/// Looking at the peers changes nothing of a peer that is not tracked, nor when anything was seen or
/// is due.
pub proof fn law_checking_keeps_the_rest(h: HeartbeatSpec, now: u64, seq: usize, p: NodeId)
    ensures
        ({
            let named = dead_among(h, now, seq, h.order.len());
            let after = checked(h, now, seq, h.order.len());
            &&& after.interval == h.interval
            &&& after.max_missed == h.max_missed
            &&& after.last == h.last
            &&& after.expected == h.expected
            &&& after.order == h.order
            &&& !h.order.contains(p) ==> !named.contains(p) && (after.unhealthy.contains(p)
                <==> h.unhealthy.contains(p))
        }),
{
    let n = h.order.len();
    lemma_dead_among(h, now, seq, n, p);
    lemma_checked(h, now, seq, n, p);
    assert(h.order.take(n as int) =~= h.order);
}

/// What a heartbeat does. One that comes within five milliseconds of its time, early or late, is
/// noted and clears the count of missed ones; one that is further off makes its sender unhealthy and
/// is not noted. Neither touches another peer, and one from a stranger does nothing.
pub proof fn law_heartbeats_count_within_tolerance(
    h: HeartbeatSpec,
    from: NodeId,
    at: u64,
    seq: usize,
    due: u64,
    other: NodeId,
)
    requires
        h.expected.contains_key(from) ==> h.expected[from].len() > 0 && due
            == h.expected[from][seq as int % h.expected[from].len() as int],
        at <= i64::MAX,
        due <= i64::MAX,
        other != from,
    ensures
        ({
            let after = after_heartbeat(h, from, at, seq);
            let known = h.expected.contains_key(from);
            let close = due - 5 <= at <= due + 5;
            &&& !known ==> after == h
            &&& known && close ==> after.last == h.last.insert(from, at) && after.missed
                == h.missed.insert(from, 0) && after.unhealthy == h.unhealthy
            &&& known && !close ==> after.last == h.last && after.missed == h.missed
                && after.unhealthy == h.unhealthy.insert(from)
            &&& after.unhealthy.contains(other) == h.unhealthy.contains(other)
            &&& after.last.contains_key(other) == h.last.contains_key(other)
            &&& after.last[other] == h.last[other]
            &&& after.expected == h.expected && after.order == h.order
            &&& after.interval == h.interval && after.max_missed == h.max_missed
        }),
{
    if h.expected.contains_key(from) {
        assert(due == due_at(h, from, seq));
    }
}

/// A peer's heartbeats are due at even distances of one interval, a hundred of them, the first when
/// the latency has gone by after the start.
pub proof fn law_schedule_is_even(base: u64, interval: u64, latency: u64, i: int)
    requires
        0 <= i < 99,
        base + 99 * interval + latency <= u64::MAX,
    ensures
        schedule(base, interval, latency).len() == 100,
        schedule(base, interval, latency)[0] == base + latency,
        schedule(base, interval, latency)[i + 1] == schedule(base, interval, latency)[i] + interval,
{
    let v = interval as int;
    assert(0 <= i * v <= 99 * v && 0 <= (i + 1) * v <= 99 * v && (i + 1) * v == i * v + v)
        by (nonlinear_arith)
        requires
            0 <= i < 99,
            0 <= v,
    ;
}

/// The latency to a peer is the one that is given from the local zone to the peer's zone, a peer
/// without a zone being in the local one, and five milliseconds where none is given.
pub proof fn law_latency_is_the_given_one(
    zones: Map<NodeId, u32>,
    latencies: Map<(u32, u32), u64>,
    local: u32,
    peer: NodeId,
    zone: u32,
    latency: u64,
)
    ensures
        latency_to(zones.insert(peer, zone), latencies.insert((local, zone), latency), local, peer)
            == latency,
        latency_to(zones.remove(peer), latencies.insert((local, local), latency), local, peer)
            == latency,
        latency_to(zones.insert(peer, zone), latencies.remove((local, zone)), local, peer) == 5,
        latency_to(zones.remove(peer), latencies.remove((local, local)), local, peer) == 5,
{
}

} // verus!
