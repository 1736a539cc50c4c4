//! Whole copies of the state, and coming back from one.

use crate::assoc::{entries_map, entry_is, AssocMap, Key};
use crate::batcher::{duplicate_matches, enqueued, queues_after, BatcherSpec};
use crate::book::{levels_view, sorted_prices, BookSpec, Levels};
use crate::bytes::Id32;
use crate::receipts::{receipts_view, OrderReceipt, ReceiptSpec};
use crate::recovery::{
    candidates, candidates_view, recovered, replay_fits, replay_persistence_log, ReplaySummary,
};
use crate::server::{wal_view, AppSpec, AppState, IdSet, WalEntry};
use crate::types::{
    matches_view, orders_view, Match, MatchSpec, Order, OrderSpec, SettlementPreference,
};
use std::collections::BTreeMap;
use vstd::prelude::*;

verus! {

broadcast use {vstd::std_specs::btree::group_btree_axioms, vstd::laws_cmp::group_laws_cmp};

/// A copy of what accepted orders, matches and confirmations have made of the state. Balances and
/// queued orders are not part of it.
pub struct Snapshot {
    pub order_book_bids: BTreeMap<u64, Vec<Order>>,
    pub order_book_asks: BTreeMap<u64, Vec<Order>>,
    pub active_nodes_cursor: usize,
    pub order_log: Vec<OrderReceipt>,
    pub match_log: Vec<Match>,
    pub pending_commits: Vec<((Id32, Id32), Match)>,
    pub confirmed_trade_hashes: Vec<((Id32, Id32), Id32)>,
    pub applied_order_ids: Vec<Id32>,
    pub queued_trades: Vec<Match>,
}

/// What a [`Snapshot`] stands for.
#[verifier::ext_equal]
pub struct SnapshotSpec {
    pub bids: Map<u64, Seq<OrderSpec>>,
    pub asks: Map<u64, Seq<OrderSpec>>,
    pub cursor: usize,
    pub order_log: Seq<ReceiptSpec>,
    pub match_log: Seq<MatchSpec>,
    pub pending: Seq<((Id32, Id32), MatchSpec)>,
    pub confirmed: Seq<((Id32, Id32), Id32)>,
    pub applied: Seq<Id32>,
    pub queued: Seq<MatchSpec>,
}

/// Keys and matches, each match by its view.
pub open spec fn keyed_view(s: Seq<((Id32, Id32), Match)>) -> Seq<((Id32, Id32), MatchSpec)> {
    Seq::new(s.len(), |i: int| (s[i].0, s[i].1@))
}

impl View for Snapshot {
    type V = SnapshotSpec;

    open spec fn view(&self) -> SnapshotSpec {
        SnapshotSpec {
            bids: levels_view(self.order_book_bids@),
            asks: levels_view(self.order_book_asks@),
            cursor: self.active_nodes_cursor,
            order_log: receipts_view(self.order_log@),
            match_log: matches_view(self.match_log@),
            pending: keyed_view(self.pending_commits@),
            confirmed: self.confirmed_trade_hashes@,
            applied: self.applied_order_ids@,
            queued: matches_view(self.queued_trades@),
        }
    }
}

/// The map that the first `n` pairs make, a later pair counting over an earlier one.
pub open spec fn pairs_map<V>(s: Seq<((Id32, Id32), V)>, n: nat) -> Map<(Id32, Id32), V>
    decreases n,
{
    if n == 0 {
        Map::empty()
    } else {
        pairs_map(s, (n - 1) as nat).insert(s[n - 1].0, s[n - 1].1)
    }
}

/// The first `n` matches have joined the queues of their tiers.
pub open spec fn all_enqueued(b: BatcherSpec, ms: Seq<MatchSpec>, n: nat) -> BatcherSpec
    decreases n,
{
    if n == 0 {
        b
    } else {
        enqueued(all_enqueued(b, ms, (n - 1) as nat), ms[n - 1])
    }
}

/// A snapshot holds what a state holds.
pub open spec fn is_snapshot_of(x: SnapshotSpec, s: AppSpec) -> bool {
    &&& x.bids == s.book.bids
    &&& x.asks == s.book.asks
    &&& x.cursor == s.book.cursor
    &&& x.order_log == s.order_log
    &&& x.match_log == s.match_log
    &&& pairs_map(x.pending, x.pending.len()) == s.pending
    &&& pairs_map(x.confirmed, x.confirmed.len()) == s.confirmed
    &&& x.applied.to_set() == s.applied
    &&& x.queued == s.batcher.instant + s.batcher.express + s.batcher.standard
}

/// A state takes over what a snapshot holds; its trades join the settlement queues.
pub open spec fn snapshot_applied(s: AppSpec, x: SnapshotSpec) -> AppSpec {
    AppSpec {
        book: BookSpec { bids: x.bids, asks: x.asks, cursor: x.cursor, ..s.book },
        order_log: x.order_log,
        match_log: x.match_log,
        pending: pairs_map(x.pending, x.pending.len()),
        confirmed: pairs_map(x.confirmed, x.confirmed.len()),
        applied: x.applied.to_set(),
        batcher: all_enqueued(s.batcher, x.queued, x.queued.len()),
        ..s
    }
}

fn duplicate_orders(v: &Vec<Order>) -> (r: Vec<Order>)
    ensures
        orders_view(r@) == orders_view(v@),
{
    let mut out: Vec<Order> = Vec::new();
    let mut i: usize = 0;
    while i < v.len()
        invariant
            i <= v@.len(),
            out@.len() == i,
            forall|k: int| 0 <= k < i ==> (#[trigger] out@[k])@ == v@[k]@,
        decreases v@.len() - i,
    {
        out.push(v[i].duplicate());
        i = i + 1;
    }
    assert(orders_view(out@) =~= orders_view(v@));
    out
}

fn duplicate_receipts(v: &Vec<OrderReceipt>) -> (r: Vec<OrderReceipt>)
    ensures
        receipts_view(r@) == receipts_view(v@),
{
    let mut out: Vec<OrderReceipt> = Vec::new();
    let mut i: usize = 0;
    while i < v.len()
        invariant
            i <= v@.len(),
            out@.len() == i,
            forall|k: int| 0 <= k < i ==> (#[trigger] out@[k])@ == v@[k]@,
        decreases v@.len() - i,
    {
        out.push(v[i].duplicate());
        i = i + 1;
    }
    assert(receipts_view(out@) =~= receipts_view(v@));
    out
}

fn duplicate_levels(levels: &Levels) -> (r: Levels)
    ensures
        levels_view(r@) == levels_view(levels@),
{
    let prices: Vec<u64> = sorted_prices(levels);
    let mut out: Levels = BTreeMap::new();
    let mut i: usize = 0;
    while i < prices.len()
        invariant
            i <= prices@.len(),
            forall|p: u64| #[trigger] prices@.contains(p) <==> levels@.contains_key(p),
            forall|p: u64| #[trigger]
                out@.contains_key(p) <==> prices@.take(i as int).contains(p),
            forall|p: u64| #[trigger]
                out@.contains_key(p) ==> levels@.contains_key(p) && orders_view(out@[p]@)
                    == orders_view(levels@[p]@),
        decreases prices@.len() - i,
    {
        let p: u64 = prices[i];
        let ghost before = out@;
        proof {
            assert(prices@.contains(p));
            assert(prices@.take(i + 1) =~= prices@.take(i as int).push(p));
        }
        match levels.get(&p) {
            Some(level) => {
                let copy: Vec<Order> = duplicate_orders(level);
                out.insert(p, copy);
            },
            None => {},
        }
        proof {
            assert forall|q: u64| #[trigger]
                out@.contains_key(q) <==> prices@.take(i + 1).contains(q) by {
                let a = prices@.take(i as int);
                let b = prices@.take(i + 1);
                assert(before.contains_key(q) <==> a.contains(q));
                if a.contains(q) {
                    let x = choose|x: int| 0 <= x < a.len() && a[x] == q;
                    assert(b[x] == q);
                }
                if q == p {
                    assert(b[i as int] == q);
                }
            }
        }
        i = i + 1;
    }
    proof {
        assert(prices@.take(prices@.len() as int) =~= prices@);
        assert(levels_view(out@) =~= levels_view(levels@));
    }
    out
}

/// Inserting the entries of a map one by one makes the map.
proof fn lemma_pairs_are_entries<V, W>(
    list: Seq<((Id32, Id32), V)>,
    pairs: Seq<((Id32, Id32), W)>,
    f: spec_fn(V) -> W,
    n: nat,
)
    requires
        crate::assoc::distinct_keys(list),
        n <= list.len(),
        pairs.len() == list.len(),
        forall|i: int| 0 <= i < list.len() ==> #[trigger] pairs[i] == (list[i].0, f(list[i].1)),
    ensures
        forall|k: (Id32, Id32)| #[trigger]
            pairs_map(pairs, n).contains_key(k) <==> exists|i: int|
                i < n && #[trigger] entry_is(list, k, i),
        forall|i: int|
            0 <= i < n ==> pairs_map(pairs, n)[(#[trigger] list[i]).0] == f(list[i].1),
    decreases n,
{
    if n > 0 {
        lemma_pairs_are_entries(list, pairs, f, (n - 1) as nat);
        let before = pairs_map(pairs, (n - 1) as nat);
        let after = pairs_map(pairs, n);
        assert(pairs[n - 1] == (list[n - 1].0, f(list[n - 1].1)));
        assert forall|k: (Id32, Id32)| #[trigger]
            after.contains_key(k) <==> exists|i: int| i < n && #[trigger] entry_is(list, k, i) by {
            assert(before.contains_key(k) <==> exists|i: int|
                i < n - 1 && #[trigger] entry_is(list, k, i));
            if k == list[n - 1].0 {
                assert(entry_is(list, k, n - 1));
            }
        }
        assert forall|i: int| 0 <= i < n implies after[(#[trigger] list[i]).0] == f(
            list[i].1,
        ) by {
            if i < n - 1 {
                assert(list[i].0.key() != list[n - 1].0.key());
            }
        }
    }
}

fn pending_pairs(m: &AssocMap<(Id32, Id32), Match>) -> (r: Vec<((Id32, Id32), Match)>)
    ensures
        pairs_map(keyed_view(r@), r@.len()) == m@.map_values(|x: Match| x@),
{
    let mut out: Vec<((Id32, Id32), Match)> = Vec::new();
    let n: usize = m.len();
    let ghost list = m.list();
    let mut i: usize = 0;
    while i < n
        invariant
            i <= n,
            n == list.len(),
            list == m.list(),
            out@.len() == i,
            forall|k: int|
                0 <= k < i ==> (#[trigger] out@[k]).0 == list[k].0 && out@[k].1@ == list[k].1@,
        decreases n - i,
    {
        let k: (Id32, Id32) = *m.key_at(i);
        let v: Match = m.value_at(i).duplicate();
        out.push((k, v));
        i = i + 1;
    }
    proof {
        let pairs = keyed_view(out@);
        let f = |x: Match| x@;
        assert forall|i: int| 0 <= i < list.len() implies #[trigger] pairs[i] == (
            list[i].0,
            f(list[i].1),
        ) by {
            assert(out@[i].0 == list[i].0);
        }
        lemma_pairs_are_entries(list, pairs, f, list.len());
        lemma_entries(list, pairs, f);
        assert(pairs_map(pairs, list.len()) =~= m@.map_values(f));
    }
    out
}

proof fn lemma_entries<V, W>(
    list: Seq<((Id32, Id32), V)>,
    pairs: Seq<((Id32, Id32), W)>,
    f: spec_fn(V) -> W,
)
    requires
        crate::assoc::distinct_keys(list),
        pairs.len() == list.len(),
        forall|i: int| 0 <= i < list.len() ==> #[trigger] pairs[i] == (list[i].0, f(list[i].1)),
    ensures
        pairs_map(pairs, list.len()) == entries_map(list).map_values(f),
{
    lemma_pairs_are_entries(list, pairs, f, list.len());
    let a = pairs_map(pairs, list.len());
    let b = entries_map(list).map_values(f);
    assert forall|k: (Id32, Id32)| #[trigger] a.contains_key(k) <==> b.contains_key(k) by {
        if b.contains_key(k) {
            let i = choose|i: int| #[trigger] entry_is(list, k, i);
            assert(i < list.len() && entry_is(list, k, i));
        }
    }
    assert forall|k: (Id32, Id32)| a.contains_key(k) implies #[trigger] a[k] == b[k] by {
        let i = choose|i: int| #[trigger] entry_is(list, k, i);
        assert(entry_is(list, k, i));
        assert(list[i].0 == k);
    }
    assert(a =~= b);
}

fn hash_pairs(m: &AssocMap<(Id32, Id32), Id32>) -> (r: Vec<((Id32, Id32), Id32)>)
    ensures
        pairs_map(r@, r@.len()) == m@,
{
    let mut out: Vec<((Id32, Id32), Id32)> = Vec::new();
    let n: usize = m.len();
    let ghost list = m.list();
    let mut i: usize = 0;
    while i < n
        invariant
            i <= n,
            n == list.len(),
            list == m.list(),
            out@.len() == i,
            forall|k: int| 0 <= k < i ==> #[trigger] out@[k] == list[k],
        decreases n - i,
    {
        out.push((*m.key_at(i), *m.value_at(i)));
        i = i + 1;
    }
    proof {
        let f = |x: Id32| x;
        assert(out@ =~= list);
        lemma_entries(list, list, f);
        assert(entries_map(list).map_values(f) =~= m@);
    }
    out
}

/// A copy of the state.
pub fn build_snapshot(guard: &AppState) -> (r: Snapshot)
    ensures
        is_snapshot_of(r@, guard@),
{
    Snapshot {
        order_book_bids: duplicate_levels(&guard.order_book.bids),
        order_book_asks: duplicate_levels(&guard.order_book.asks),
        active_nodes_cursor: guard.order_book.active_nodes_cursor(),
        order_log: duplicate_receipts(&guard.order_log),
        match_log: duplicate_matches(&guard.match_log),
        pending_commits: pending_pairs(&guard.pending_commits),
        confirmed_trade_hashes: hash_pairs(&guard.confirmed_trade_hashes),
        applied_order_ids: guard.applied_order_ids.ids(),
        queued_trades: guard.batcher.queued_trades(),
    }
}

/// Takes over what a snapshot holds.
pub fn apply_snapshot(guard: &mut AppState, snapshot: Snapshot)
    ensures
        final(guard)@ == snapshot_applied(old(guard)@, snapshot@),
{
    let ghost s = guard@;
    let ghost x = snapshot@;
    guard.order_book.bids = snapshot.order_book_bids;
    guard.order_book.asks = snapshot.order_book_asks;
    guard.order_book.restore_active_nodes_cursor(snapshot.active_nodes_cursor);
    guard.order_log = snapshot.order_log;
    guard.match_log = snapshot.match_log;
    let mut pending: AssocMap<(Id32, Id32), Match> = AssocMap::new();
    let ghost ps = snapshot.pending_commits@;
    proof {
        assert(pending@.map_values(|m: Match| m@) =~= Map::empty());
    }
    for e in it: snapshot.pending_commits.into_iter()
        invariant
            it.seq() == ps,
            pending@.map_values(|m: Match| m@) == pairs_map(keyed_view(ps), it.index() as nat),
    {
        let (k, m): ((Id32, Id32), Match) = e;
        let ghost before = pending@;
        let ghost mv = m;
        proof {
            assert(keyed_view(ps)[it.index()] == (k, m@));
        }
        pending.insert(k, m);
        proof {
            assert(pending@.map_values(|m: Match| m@) =~= before.map_values(
                |m: Match| m@,
            ).insert(k, mv@));
        }
    }
    guard.pending_commits = pending;
    let mut hashes: AssocMap<(Id32, Id32), Id32> = AssocMap::new();
    let ghost hs = snapshot.confirmed_trade_hashes@;
    for e in it: snapshot.confirmed_trade_hashes.into_iter()
        invariant
            it.seq() == hs,
            hashes@ == pairs_map(hs, it.index() as nat),
    {
        hashes.insert(e.0, e.1);
    }
    guard.confirmed_trade_hashes = hashes;
    let mut applied: IdSet = IdSet::new();
    let ghost ids = snapshot.applied_order_ids@;
    proof {
        assert(ids.take(0).to_set() =~= Set::empty());
    }
    for id in it: snapshot.applied_order_ids.into_iter()
        invariant
            it.seq() == ids,
            applied@ == ids.take(it.index()).to_set(),
    {
        let ghost a = ids.take(it.index());
        let ghost b = ids.take(it.index() + 1);
        applied.insert(id);
        proof {
            assert(b =~= a.push(id));
            assert forall|k: Id32| #[trigger] b.contains(k) <==> a.contains(k) || k == id by {
                if a.contains(k) {
                    let i = choose|i: int| 0 <= i < a.len() && a[i] == k;
                    assert(b[i] == k);
                }
                if k == id {
                    assert(b[a.len() as int] == k);
                }
            }
            assert(b.to_set() =~= a.to_set().insert(id));
        }
    }
    proof {
        assert(ids.take(ids.len() as int) =~= ids);
    }
    guard.applied_order_ids = applied;
    let ghost mid = guard@;
    let ghost qs = snapshot.queued_trades@;
    for m in it: snapshot.queued_trades.into_iter()
        invariant
            it.seq() == qs,
            guard@ == (AppSpec {
                batcher: all_enqueued(mid.batcher, matches_view(qs), it.index() as nat),
                ..mid
            }),
    {
        proof {
            assert(matches_view(qs)[it.index()] == m@);
        }
        guard.batcher.enqueue(m);
    }
    proof {
        assert(guard@ =~= snapshot_applied(s, x));
    }
}

/// Where a restart begins: with the last snapshot, if there is one.
pub open spec fn restart_state(s: AppSpec, snapshot: Option<Snapshot>) -> AppSpec {
    match snapshot {
        Some(x) => snapshot_applied(s, x@),
        None => s,
    }
}

/// Brings the state back: the last snapshot, if there is one, then the entries recorded after it.
pub fn load_persistence(
    guard: &mut AppState,
    snapshot: Option<Snapshot>,
    entries: Vec<WalEntry>,
) -> (r: ReplaySummary)
    requires
        replay_fits(old(guard)@.batcher.balances, wal_view(entries@)),
    ensures
        exists|times: Seq<u64>|
            times.len() == entries@.len() && final(guard)@ == #[trigger] recovered(
                restart_state(old(guard)@, snapshot),
                wal_view(entries@),
                times,
            ),
        r.entries_replayed == entries@.len(),
        candidates_view(r.reconciliation_candidates@) == candidates(
            wal_view(entries@),
            entries@.len(),
        ),
{
    let ghost snap = snapshot;
    let ghost ents = wal_view(entries@);
    match snapshot {
        Some(x) => {
            proof {
                lemma_enqueue_keeps_balances(guard@.batcher, x@.queued, x@.queued.len());
            }
            apply_snapshot(guard, x);
        },
        None => {},
    }
    let ghost start = guard@;
    let r: ReplaySummary = replay_persistence_log(guard, entries);
    proof {
        assert(start == restart_state(old(guard)@, snap));
        let times = choose|times: Seq<u64>|
            times.len() == ents.len() && guard@ == #[trigger] recovered(start, ents, times);
        assert(guard@ == recovered(restart_state(old(guard)@, snap), ents, times));
    }
    r
}

proof fn lemma_enqueue_keeps_balances(b: BatcherSpec, ms: Seq<MatchSpec>, n: nat)
    ensures
        all_enqueued(b, ms, n).balances == b.balances,
    decreases n,
{
    if n > 0 {
        lemma_enqueue_keeps_balances(b, ms, (n - 1) as nat);
    }
}

/// Every match of a list settles on one tier.
pub open spec fn all_of_tier(s: Seq<MatchSpec>, tier: SettlementPreference) -> bool {
    forall|i: int| 0 <= i < s.len() ==> (#[trigger] s[i]).settlement_tier == tier
}

/// Every queue holds matches of its own tier.
pub open spec fn queues_by_tier(b: BatcherSpec) -> bool {
    &&& all_of_tier(b.standard, SettlementPreference::Standard)
    &&& all_of_tier(b.express, SettlementPreference::Express)
    &&& all_of_tier(b.instant, SettlementPreference::Instant)
}

/// The settlement queues hold matches of their own tier, whatever joins them and whatever is
/// flushed.
pub proof fn law_queues_stay_by_tier(
    b: BatcherSpec,
    m: MatchSpec,
    now: u64,
    balances: crate::ledger::Balances,
)
    requires
        queues_by_tier(b),
    ensures
        queues_by_tier(crate::batcher::new_batcher()),
        queues_by_tier(enqueued(b, m)),
        queues_by_tier(queues_after(b, now, balances)),
{
}

proof fn lemma_enqueue_tier(b: BatcherSpec, ms: Seq<MatchSpec>, n: nat, tier: SettlementPreference)
    requires
        n <= ms.len(),
        all_of_tier(ms, tier),
    ensures
        all_enqueued(b, ms, n) == (match tier {
            SettlementPreference::Instant => BatcherSpec {
                instant: b.instant + ms.take(n as int),
                ..b
            },
            SettlementPreference::Express => BatcherSpec {
                express: b.express + ms.take(n as int),
                ..b
            },
            SettlementPreference::Standard => BatcherSpec {
                standard: b.standard + ms.take(n as int),
                ..b
            },
        }),
    decreases n,
{
    if n == 0 {
        assert(b.instant + ms.take(0) =~= b.instant);
        assert(b.express + ms.take(0) =~= b.express);
        assert(b.standard + ms.take(0) =~= b.standard);
    } else {
        lemma_enqueue_tier(b, ms, (n - 1) as nat, tier);
        assert(ms.take(n as int) =~= ms.take(n - 1).push(ms[n - 1]));
        assert(ms[n - 1].settlement_tier == tier);
        assert(b.instant + ms.take(n as int) =~= (b.instant + ms.take(n - 1)).push(ms[n - 1]));
        assert(b.express + ms.take(n as int) =~= (b.express + ms.take(n - 1)).push(ms[n - 1]));
        assert(b.standard + ms.take(n as int) =~= (b.standard + ms.take(n - 1)).push(ms[n - 1]));
    }
}

proof fn lemma_enqueue_adds(b: BatcherSpec, xs: Seq<MatchSpec>, ys: Seq<MatchSpec>, n: nat)
    requires
        n <= ys.len(),
    ensures
        all_enqueued(b, xs + ys, xs.len() + n) == all_enqueued(
            all_enqueued(b, xs, xs.len()),
            ys,
            n,
        ),
    decreases n,
{
    if n == 0 {
        lemma_enqueue_prefix(b, xs, ys, xs.len());
    } else {
        lemma_enqueue_adds(b, xs, ys, (n - 1) as nat);
        assert((xs + ys)[xs.len() + n - 1] == ys[n - 1]);
    }
}

proof fn lemma_enqueue_prefix(b: BatcherSpec, xs: Seq<MatchSpec>, ys: Seq<MatchSpec>, n: nat)
    requires
        n <= xs.len(),
    ensures
        all_enqueued(b, xs + ys, n) == all_enqueued(b, xs, n),
    decreases n,
{
    if n > 0 {
        lemma_enqueue_prefix(b, xs, ys, (n - 1) as nat);
        assert((xs + ys)[n - 1] == xs[n - 1]);
    }
}

/// A state with empty settlement queues that takes over a snapshot of another comes to hold that
/// one's resting orders, turn among the nodes, logs, pending and confirmed matches, applied orders
/// and settlement queues.
pub proof fn law_snapshot_restores(s: AppSpec, x: SnapshotSpec, fresh: AppSpec)
    requires
        is_snapshot_of(x, s),
        queues_by_tier(s.batcher),
        fresh.batcher.standard == Seq::<MatchSpec>::empty(),
        fresh.batcher.express == Seq::<MatchSpec>::empty(),
        fresh.batcher.instant == Seq::<MatchSpec>::empty(),
    ensures
        ({
            let r = snapshot_applied(fresh, x);
            &&& r.book.bids == s.book.bids
            &&& r.book.asks == s.book.asks
            &&& r.book.cursor == s.book.cursor
            &&& r.order_log == s.order_log
            &&& r.match_log == s.match_log
            &&& r.pending == s.pending
            &&& r.confirmed == s.confirmed
            &&& r.applied == s.applied
            &&& r.batcher == (BatcherSpec {
                standard: s.batcher.standard,
                express: s.batcher.express,
                instant: s.batcher.instant,
                ..fresh.batcher
            })
        }),
{
    let b = fresh.batcher;
    let i = s.batcher.instant;
    let e = s.batcher.express;
    let d = s.batcher.standard;
    lemma_enqueue_adds(b, i + e, d, d.len());
    lemma_enqueue_adds(b, i, e, e.len());
    lemma_enqueue_tier(b, i, i.len(), SettlementPreference::Instant);
    assert(i.take(i.len() as int) =~= i);
    assert(b.instant + i =~= i);
    let b1 = BatcherSpec { instant: i, ..b };
    lemma_enqueue_tier(b1, e, e.len(), SettlementPreference::Express);
    assert(e.take(e.len() as int) =~= e);
    assert(b1.express + e =~= e);
    let b2 = BatcherSpec { express: e, ..b1 };
    lemma_enqueue_tier(b2, d, d.len(), SettlementPreference::Standard);
    assert(d.take(d.len() as int) =~= d);
    assert(b2.standard + d =~= d);
    assert((i + e).len() + d.len() == x.queued.len());
}

} // verus!
