//! What a restart owes: the state as it stood.

use crate::batcher::{enqueued, trade_value, BatcherSpec};
use crate::book::{book_after, matches_after, BookSpec};
use crate::bytes::Id32;
use crate::ledger::balance;
use crate::receipts::ReceiptSpec;
use crate::recovery::{
    candidates, checkpoints, is_settled, queued_orders, recovered, redone, replayed, requeued,
};
use crate::server::{
    accepted, completed, confirm_fits, confirm_outcome, confirmed_pending, known_order, match_key, pend_all, queued_up,
    sequenced, AppSpec, Submission, WalSpec,
};
use crate::types::{MatchSpec, OrderSpec};
use vstd::prelude::*;

verus! {

/// What a running venue does to its state, once it is recorded.
pub enum LiveStep {
    /// An order is accepted and matched at `at`. What is recorded is that time, or that it was
    /// the time of the clock.
    Accept { order: OrderSpec, receipt: ReceiptSpec, at: u64, recorded: Option<u64> },
    /// A pending match is confirmed.
    Confirm { key: (Id32, Id32), trade_hash: Id32 },
    /// An order is queued.
    Queue { order: OrderSpec, receipt: ReceiptSpec },
    /// A queued order is applied.
    Apply { id: Id32, at: u64, recorded: Option<u64> },
}

/// What is recorded of a step.
pub open spec fn wal_entry(s: AppSpec, step: LiveStep) -> WalSpec {
    match step {
        LiveStep::Accept { order, receipt, at, recorded } => WalSpec::OrderAccepted {
            order,
            receipt,
            match_timestamp_us: recorded,
        },
        LiveStep::Confirm { key, trade_hash } => WalSpec::CommitConfirmed {
            m: s.pending[key],
            trade_hash,
        },
        LiveStep::Queue { order, receipt } => WalSpec::OrderQueued { order, receipt },
        LiveStep::Apply { id, at, recorded } => WalSpec::OrderAccepted {
            order: s.queued[id].0,
            receipt: s.queued[id].1,
            match_timestamp_us: recorded,
        },
    }
}

/// The time at which a step matches, if it does.
pub open spec fn step_time(step: LiveStep) -> u64 {
    match step {
        LiveStep::Accept { at, .. } => at,
        LiveStep::Apply { at, .. } => at,
        _ => 0,
    }
}

/// What a step does.
pub open spec fn live_step(s: AppSpec, step: LiveStep) -> AppSpec {
    match step {
        LiveStep::Accept { order, receipt, at, .. } => accepted(s, order, receipt, at),
        LiveStep::Confirm { key, trade_hash } => confirmed_pending(s, key, trade_hash),
        LiveStep::Queue { order, receipt } => queued_up(s, order, receipt),
        LiveStep::Apply { id, at, .. } => accepted(
            AppSpec { queued: s.queued.remove(id), ..s },
            s.queued[id].0,
            s.queued[id].1,
            at,
        ),
    }
}

/// A step can be taken: an order is applied at once only with sequencing off, only a pending match
/// is confirmed, with sequencing on an order is queued once, and only a queued order is applied
/// later. What is recorded of a time is that time.
pub open spec fn step_ok(s: AppSpec, step: LiveStep) -> bool {
    match step {
        LiveStep::Accept { at, recorded, .. } => !s.sequencing && (recorded is Some ==> recorded->0
            == at),
        LiveStep::Confirm { key, .. } => s.pending.contains_key(key),
        LiveStep::Queue { order, .. } => s.sequencing && !known_order(s, order.id),
        LiveStep::Apply { id, at, recorded } => s.queued.contains_key(id) && (recorded is Some
            ==> recorded->0 == at),
    }
}

/// The state after the first `n` steps.
pub open spec fn live_state(s: AppSpec, steps: Seq<LiveStep>, n: nat) -> AppSpec
    decreases n,
{
    if n == 0 {
        s
    } else {
        live_step(live_state(s, steps, (n - 1) as nat), steps[n - 1])
    }
}

/// Each of the first `n` steps could be taken.
pub open spec fn steps_ok(s: AppSpec, steps: Seq<LiveStep>, n: nat) -> bool {
    forall|i: int| 0 <= i < n ==> step_ok(live_state(s, steps, i as nat), #[trigger] steps[i])
}

/// What is recorded of steps.
pub open spec fn live_wal(s: AppSpec, steps: Seq<LiveStep>) -> Seq<WalSpec> {
    Seq::new(steps.len(), |i: int| wal_entry(live_state(s, steps, i as nat), steps[i]))
}

/// The times at which steps match.
pub open spec fn live_times(steps: Seq<LiveStep>) -> Seq<u64> {
    Seq::new(steps.len(), |i: int| step_time(steps[i]))
}

/// Pending matches and queued orders stand under their own keys.
pub open spec fn well_keyed(s: AppSpec) -> bool {
    &&& forall|k: (Id32, Id32)| #[trigger]
        s.pending.contains_key(k) ==> match_key(s.pending[k]) == k
    &&& forall|id: Id32| #[trigger] s.queued.contains_key(id) ==> s.queued[id].0.id == id
}

proof fn lemma_pend_all_keyed(p: Map<(Id32, Id32), MatchSpec>, ms: Seq<MatchSpec>, n: nat)
    requires
        n <= ms.len(),
        forall|k: (Id32, Id32)| #[trigger] p.contains_key(k) ==> match_key(p[k]) == k,
    ensures
        forall|k: (Id32, Id32)| #[trigger]
            pend_all(p, ms, n).contains_key(k) ==> match_key(pend_all(p, ms, n)[k]) == k,
    decreases n,
{
    if n > 0 {
        lemma_pend_all_keyed(p, ms, (n - 1) as nat);
        let before = pend_all(p, ms, (n - 1) as nat);
        let after = pend_all(p, ms, n);
        assert forall|k: (Id32, Id32)| #[trigger] after.contains_key(k) implies match_key(after[k])
            == k by {
            if k != match_key(ms[n - 1]) {
                assert(before.contains_key(k));
            }
        }
    }
}

/// Pending matches and queued orders stand under their own keys, whatever the venue does.
pub proof fn law_state_stays_keyed(s: AppSpec, step: LiveStep)
    requires
        well_keyed(s),
    ensures
        well_keyed(live_step(s, step)),
{
    match step {
        LiveStep::Accept { order, receipt, at, .. } => {
            let ms = matches_after(s.book, order, at);
            lemma_pend_all_keyed(s.pending, ms, ms.len());
        },
        LiveStep::Apply { id, at, .. } => {
            let ms = matches_after(s.book, s.queued[id].0, at);
            lemma_pend_all_keyed(s.pending, ms, ms.len());
        },
        _ => {},
    }
}

proof fn lemma_live_keyed(s: AppSpec, steps: Seq<LiveStep>, n: nat)
    requires
        well_keyed(s),
        n <= steps.len(),
    ensures
        well_keyed(live_state(s, steps, n)),
        live_state(s, steps, n).sequencing == s.sequencing,
    decreases n,
{
    if n > 0 {
        lemma_live_keyed(s, steps, (n - 1) as nat);
        law_state_stays_keyed(live_state(s, steps, (n - 1) as nat), steps[n - 1]);
    }
}

/// The state with the queue of another.
pub open spec fn with_queue_of(s: AppSpec, other: AppSpec) -> AppSpec {
    AppSpec { queued: other.queued, sequence: other.sequence, ..s }
}

proof fn lemma_replay_follows(s: AppSpec, steps: Seq<LiveStep>, n: nat)
    requires
        well_keyed(s),
        n <= steps.len(),
        steps_ok(s, steps, steps.len()),
    ensures
        replayed(s, live_wal(s, steps), live_times(steps), n) == with_queue_of(
            live_state(s, steps, n),
            s,
        ),
    decreases n,
{
    let w = live_wal(s, steps);
    let times = live_times(steps);
    if n > 0 {
        let k = (n - 1) as nat;
        lemma_replay_follows(s, steps, k);
        lemma_live_keyed(s, steps, k);
        let x = live_state(s, steps, k);
        assert(step_ok(x, steps[n - 1]));
        assert(w[n - 1] == wal_entry(x, steps[n - 1]));
        assert(times[n - 1] == step_time(steps[n - 1]));
        assert forall|key: (Id32, Id32)| !is_settled(w, key) by {
            if is_settled(w, key) {
                let i = choose|i: int| 0 <= i < w.len() && checkpoints(#[trigger] w[i], key);
                assert(w[i] == wal_entry(live_state(s, steps, i as nat), steps[i]));
            }
        }
        assert(redone(with_queue_of(x, s), w[n - 1], w, times[n - 1]) == with_queue_of(
            live_step(x, steps[n - 1]),
            s,
        ));
    }
}

/// Entry `i` of a list of orders has this id.
pub open spec fn lists_id(list: Seq<(OrderSpec, ReceiptSpec)>, id: Id32, i: int) -> bool {
    0 <= i < list.len() && list[i].0.id == id
}

/// No id is listed twice.
pub open spec fn distinct_ids(list: Seq<(OrderSpec, ReceiptSpec)>) -> bool {
    forall|i: int, j: int|
        0 <= i < j < list.len() ==> (#[trigger] list[i]).0.id != (#[trigger] list[j]).0.id
}

/// The queue holds what is listed and not applied.
spec fn queue_is(s: AppSpec, list: Seq<(OrderSpec, ReceiptSpec)>) -> bool {
    &&& distinct_ids(list)
    &&& forall|id: Id32| #[trigger]
        s.queued.contains_key(id) ==> !s.applied.contains(id) && exists|i: int| #[trigger]
            lists_id(list, id, i)
    &&& forall|i: int|
        0 <= i < list.len() && !s.applied.contains(list[i].0.id) ==> s.queued.contains_key(
            (#[trigger] list[i]).0.id,
        ) && s.queued[list[i].0.id] == list[i]
}

proof fn lemma_live_queue(s: AppSpec, steps: Seq<LiveStep>, n: nat)
    requires
        well_keyed(s),
        s.queued == Map::<Id32, (OrderSpec, ReceiptSpec)>::empty(),
        n <= steps.len(),
        steps_ok(s, steps, steps.len()),
    ensures
        queue_is(live_state(s, steps, n), queued_orders(live_wal(s, steps), n)),
        !s.sequencing ==> queued_orders(live_wal(s, steps), n).len() == 0,
    decreases n,
{
    let w = live_wal(s, steps);
    if n > 0 {
        let k = (n - 1) as nat;
        lemma_live_queue(s, steps, k);
        lemma_live_keyed(s, steps, k);
        let x = live_state(s, steps, k);
        let y = live_state(s, steps, n);
        let before = queued_orders(w, k);
        let list = queued_orders(w, n);
        assert(step_ok(x, steps[n - 1]));
        assert(w[n - 1] == wal_entry(x, steps[n - 1]));
        match steps[n - 1] {
            LiveStep::Queue { order, receipt } => {
                assert(list == before.push((order, receipt)));
                assert(distinct_ids(list)) by {
                    assert forall|i: int, j: int| 0 <= i < j < list.len() implies (
                    #[trigger] list[i]).0.id != (#[trigger] list[j]).0.id by {
                        if j == before.len() {
                            assert(list[i] == before[i]);
                        } else {
                            assert(list[i] == before[i] && list[j] == before[j]);
                        }
                    }
                }
                assert forall|id: Id32| #[trigger] y.queued.contains_key(id) implies !y.applied.contains(
                    id,
                ) && exists|i: int| #[trigger] lists_id(list, id, i) by {
                    if id == order.id {
                        assert(lists_id(list, id, before.len() as int));
                    } else {
                        assert(x.queued.contains_key(id));
                        let i = choose|i: int| #[trigger] lists_id(before, id, i);
                        assert(lists_id(list, id, i));
                    }
                }
                assert forall|i: int|
                    0 <= i < list.len() && !y.applied.contains(list[i].0.id) implies y.queued.contains_key(
                (#[trigger] list[i]).0.id) && y.queued[list[i].0.id] == list[i] by {
                    if i < before.len() {
                        assert(list[i] == before[i]);
                        assert(list[i].0.id != list[before.len() as int].0.id);
                    }
                }
            },
            _ => {
                assert(list == before);
                assert forall|id: Id32| #[trigger] y.queued.contains_key(id) implies !y.applied.contains(
                    id,
                ) && exists|i: int| #[trigger] lists_id(list, id, i) by {
                    assert(x.queued.contains_key(id));
                }
            },
        }
    }
}

proof fn lemma_requeued(s: AppSpec, list: Seq<(OrderSpec, ReceiptSpec)>, n: nat)
    requires
        n <= list.len(),
        distinct_ids(list),
        s.sequencing,
        s.queued == Map::<Id32, (OrderSpec, ReceiptSpec)>::empty(),
        s.sequence == Seq::<Id32>::empty(),
    ensures
        ({
            let r = requeued(s, list, n);
            &&& r == with_queue_of(s, r)
            &&& forall|id: Id32| #[trigger]
                r.queued.contains_key(id) ==> !s.applied.contains(id) && exists|i: int|
                    i < n && #[trigger] lists_id(list, id, i)
            &&& forall|i: int|
                0 <= i < n && !s.applied.contains(list[i].0.id) ==> r.queued.contains_key(
                    (#[trigger] list[i]).0.id,
                ) && r.queued[list[i].0.id] == list[i]
            &&& forall|id: Id32| #[trigger]
                r.sequence.contains(id) <==> r.queued.contains_key(id)
        }),
    decreases n,
{
    if n > 0 {
        let k = (n - 1) as nat;
        lemma_requeued(s, list, k);
        let x = requeued(s, list, k);
        let r = requeued(s, list, n);
        let o = list[n - 1].0;
        if !s.applied.contains(o.id) {
            assert(r == queued_up(x, o, list[n - 1].1));
            assert forall|id: Id32| #[trigger] r.queued.contains_key(id) implies !s.applied.contains(
                id,
            ) && exists|i: int| i < n && #[trigger] lists_id(list, id, i) by {
                if id == o.id {
                    assert(lists_id(list, id, n - 1));
                } else {
                    assert(x.queued.contains_key(id));
                }
            }
            assert forall|i: int|
                0 <= i < n && !s.applied.contains(list[i].0.id) implies r.queued.contains_key(
            (#[trigger] list[i]).0.id) && r.queued[list[i].0.id] == list[i] by {
                if i < n - 1 {
                    assert(list[i].0.id != list[n - 1].0.id);
                }
            }
            assert forall|id: Id32| #[trigger]
                r.sequence.contains(id) <==> r.queued.contains_key(id) by {
                if r.sequence.contains(id) {
                    let i = choose|i: int| 0 <= i < r.sequence.len() && r.sequence[i] == id;
                    if i < x.sequence.len() {
                        assert(x.sequence[i] == id);
                        assert(x.sequence.contains(id));
                    }
                }
                if r.queued.contains_key(id) {
                    if id == o.id {
                        assert(r.sequence[x.sequence.len() as int] == id);
                    } else {
                        assert(x.queued.contains_key(id));
                        assert(x.sequence.contains(id));
                        let i = choose|i: int| 0 <= i < x.sequence.len() && x.sequence[i] == id;
                        assert(r.sequence[i] == id);
                    }
                }
            }
        } else {
            assert(r == x);
        }
    } else {
        assert(requeued(s, list, 0) =~= with_queue_of(s, s));
    }
}

/// A venue that starts over and redoes what it recorded comes to stand as it stood: the same book,
/// logs, pending and confirmed matches, settlement queues, balances, applied orders and queued
/// orders. Its waiting list names every queued order, and no other.
pub proof fn law_replay_reproduces(s: AppSpec, steps: Seq<LiveStep>)
    requires
        well_keyed(s),
        s.queued == Map::<Id32, (OrderSpec, ReceiptSpec)>::empty(),
        s.sequence == Seq::<Id32>::empty(),
        steps_ok(s, steps, steps.len()),
    ensures
        ({
            let live = live_state(s, steps, steps.len());
            let r = recovered(s, live_wal(s, steps), live_times(steps));
            &&& AppSpec { sequence: live.sequence, ..r } == live
            &&& forall|id: Id32| #[trigger]
                r.sequence.contains(id) <==> r.queued.contains_key(id)
        }),
{
    let n = steps.len();
    let w = live_wal(s, steps);
    let live = live_state(s, steps, n);
    let list = queued_orders(w, n);
    let mid = replayed(s, w, live_times(steps), n);
    lemma_replay_follows(s, steps, n);
    lemma_live_queue(s, steps, n);
    lemma_live_keyed(s, steps, n);
    assert(mid == with_queue_of(live, s));
    let r = requeued(mid, list, list.len());
    if s.sequencing {
        lemma_requeued(mid, list, list.len());
        assert forall|id: Id32| #[trigger] r.queued.contains_key(id) <==> live.queued.contains_key(
            id,
        ) by {
            if r.queued.contains_key(id) {
                let i = choose|i: int| i < list.len() && #[trigger] lists_id(list, id, i);
                assert(live.queued.contains_key(list[i].0.id));
            }
            if live.queued.contains_key(id) {
                let i = choose|i: int| #[trigger] lists_id(list, id, i);
                assert(r.queued.contains_key(list[i].0.id));
            }
        }
        assert forall|id: Id32| live.queued.contains_key(id) implies #[trigger] r.queued[id]
            == live.queued[id] by {
            let i = choose|i: int| #[trigger] lists_id(list, id, i);
            assert(live.queued[list[i].0.id] == list[i]);
        }
        assert(r.queued =~= live.queued);
    } else {
        assert(r == mid);
        assert forall|id: Id32| !live.queued.contains_key(id) by {
            if live.queued.contains_key(id) {
                let i = choose|i: int| #[trigger] lists_id(list, id, i);
            }
        }
        assert(live.queued =~= Map::empty());
        assert(!r.queued.contains_key(arbitrary()));
    }
}

/// A list holds no match under a key.
pub open spec fn none_under(ms: Seq<MatchSpec>, key: (Id32, Id32)) -> bool {
    forall|i: int| 0 <= i < ms.len() ==> match_key(#[trigger] ms[i]) != key
}

/// No settlement queue holds a match under a key.
pub open spec fn not_queued(b: BatcherSpec, key: (Id32, Id32)) -> bool {
    none_under(b.standard, key) && none_under(b.express, key) && none_under(b.instant, key)
}

proof fn lemma_settled_stays_out(
    s: AppSpec,
    all: Seq<WalSpec>,
    times: Seq<u64>,
    key: (Id32, Id32),
    n: nat,
)
    requires
        is_settled(all, key),
        !s.confirmed.contains_key(key),
        not_queued(s.batcher, key),
        n <= all.len(),
    ensures
        !replayed(s, all, times, n).confirmed.contains_key(key),
        not_queued(replayed(s, all, times, n).batcher, key),
        forall|i: int|
            0 <= i < candidates(all, n).len() ==> match_key((#[trigger] candidates(all, n)[i]).0)
                != key,
    decreases n,
{
    if n > 0 {
        lemma_settled_stays_out(s, all, times, key, (n - 1) as nat);
        let before = candidates(all, (n - 1) as nat);
        let after = candidates(all, n);
        assert forall|i: int| 0 <= i < after.len() implies match_key((#[trigger] after[i]).0)
            != key by {
            if i < before.len() {
                assert(after[i] == before[i]);
            }
        }
    }
}

proof fn lemma_requeue_only_queues(s: AppSpec, list: Seq<(OrderSpec, ReceiptSpec)>, n: nat)
    ensures
        requeued(s, list, n) == with_queue_of(s, requeued(s, list, n)),
    decreases n,
{
    if n > 0 {
        lemma_requeue_only_queues(s, list, (n - 1) as nat);
    }
}

/// A match that was settled before the restart is not settled again: it is neither among the
/// confirmed matches nor in a settlement queue afterwards, nor is it among those to be looked up.
pub proof fn law_settled_is_not_redone(
    s: AppSpec,
    all: Seq<WalSpec>,
    times: Seq<u64>,
    key: (Id32, Id32),
)
    requires
        is_settled(all, key),
        !s.confirmed.contains_key(key),
        not_queued(s.batcher, key),
    ensures
        !recovered(s, all, times).confirmed.contains_key(key),
        not_queued(recovered(s, all, times).batcher, key),
        forall|i: int|
            0 <= i < candidates(all, all.len()).len() ==> match_key(
                (#[trigger] candidates(all, all.len())[i]).0,
            ) != key,
{
    lemma_settled_stays_out(s, all, times, key, all.len());
    let list = queued_orders(all, all.len());
    lemma_requeue_only_queues(replayed(s, all, times, all.len()), list, list.len());
}

/// A match is confirmed once. The confirmation succeeds, the match no longer waits, its hash is
/// kept, its value and nothing else is credited to the taker, and it joins the queue of its tier.
/// The same confirmation again, however its recording goes, is refused and changes nothing.
pub proof fn law_confirmed_only_once(
    s: AppSpec,
    key: (Id32, Id32),
    trade_hash: Id32,
    again: Id32,
    failed: Option<Seq<char>>,
    account: (Id32, Seq<char>),
)
    requires
        well_keyed(s),
        s.pending.contains_key(key),
        confirm_fits(s.batcher.balances, s.pending[key]),
    ensures
        ({
            let m = s.pending[key];
            let (t, error) = confirm_outcome(s, key, trade_hash, None);
            let gain = if account == (m.taker_trader, m.symbol) {
                trade_value(m)
            } else {
                0
            };
            &&& error is None
            &&& t.pending == s.pending.remove(key)
            &&& t.confirmed == s.confirmed.insert(key, trade_hash)
            &&& balance(t.batcher.balances, account) == balance(s.batcher.balances, account) + gain
            &&& t.batcher == enqueued(
                (BatcherSpec { balances: t.batcher.balances, ..s.batcher }),
                m,
            )
            &&& confirm_outcome(t, key, again, failed) == (
                t,
                Some("no pending match for that (maker_order_id, taker_order_id)"@),
            )
        }),
{
    assert(match_key(s.pending[key]) == key);
}

/// With sequencing on, an order that was queued or applied is known, and stays known whatever the
/// venue does: it is not taken in twice.
pub proof fn law_orders_stay_known(s: AppSpec, step: LiveStep, id: Id32)
    requires
        well_keyed(s),
        step_ok(s, step),
        known_order(s, id),
    ensures
        known_order(live_step(s, step), id),
{
}

/// An order that could not be recorded changes nothing.
pub proof fn law_unrecorded_changes_nothing(
    s: AppSpec,
    d: Submission,
    error: Seq<char>,
    timestamp_us: u64,
)
    ensures
        completed(s, d, Some(error), timestamp_us).0 == s,
        !(d is Refused) ==> !completed(s, d, Some(error), timestamp_us).1.success,
{
}

/// Applying queued orders in two parts, one after the other, is applying them all.
pub proof fn law_sequence_in_parts(
    s: AppSpec,
    first: Seq<(Id32, u64)>,
    rest: Seq<(Id32, u64)>,
    n: nat,
)
    requires
        n <= rest.len(),
    ensures
        ({
            let (mid, ms) = sequenced(s, first, first.len());
            let (end, more) = sequenced(mid, rest, n);
            sequenced(s, first + rest, first.len() + n) == (end, ms + more)
        }),
    decreases n,
{
    if n == 0 {
        lemma_sequence_prefix(s, first, rest, first.len());
        let ms = sequenced(s, first, first.len()).1;
        assert(ms + Seq::<MatchSpec>::empty() =~= ms);
    } else {
        law_sequence_in_parts(s, first, rest, (n - 1) as nat);
        let (mid, ms) = sequenced(s, first, first.len());
        let (end, more) = sequenced(mid, rest, (n - 1) as nat);
        assert((first + rest)[first.len() + n - 1] == rest[n - 1]);
        let (id, t) = rest[n - 1];
        if end.queued.contains_key(id) {
            let extra = matches_after(end.book, end.queued[id].0, t);
            assert((ms + more) + extra =~= ms + (more + extra));
        }
    }
}

proof fn lemma_sequence_prefix(
    s: AppSpec,
    first: Seq<(Id32, u64)>,
    rest: Seq<(Id32, u64)>,
    n: nat,
)
    requires
        n <= first.len(),
    ensures
        sequenced(s, first + rest, n) == sequenced(s, first, n),
    decreases n,
{
    if n > 0 {
        lemma_sequence_prefix(s, first, rest, (n - 1) as nat);
        assert((first + rest)[n - 1] == first[n - 1]);
    }
}

/// Two venues hold the same books and the same queued orders. Their receipts may differ.
pub open spec fn same_orders(a: AppSpec, b: AppSpec) -> bool {
    &&& a.book == b.book
    &&& a.queued.dom() == b.queued.dom()
    &&& forall|id: Id32| #[trigger] a.queued.contains_key(id) ==> a.queued[id].0 == b.queued[id].0
}

/// Venues that hold the same books and queued orders and apply them in the same sequence, at the
/// same times, make the same matches and hold the same books and queued orders afterwards.
pub proof fn law_replicas_converge(
    a: AppSpec,
    b: AppSpec,
    resolved: Seq<(Id32, u64)>,
    n: nat,
)
    requires
        same_orders(a, b),
        n <= resolved.len(),
    ensures
        sequenced(a, resolved, n).1 == sequenced(b, resolved, n).1,
        same_orders(sequenced(a, resolved, n).0, sequenced(b, resolved, n).0),
    decreases n,
{
    if n > 0 {
        law_replicas_converge(a, b, resolved, (n - 1) as nat);
        let x = sequenced(a, resolved, (n - 1) as nat).0;
        let y = sequenced(b, resolved, (n - 1) as nat).0;
        let (id, t) = resolved[n - 1];
        assert(x.queued.contains_key(id) <==> y.queued.contains_key(id)) by {
            assert(x.queued.dom().contains(id) <==> y.queued.dom().contains(id));
        }
        if x.queued.contains_key(id) {
            let c = sequenced(a, resolved, n).0;
            let d = sequenced(b, resolved, n).0;
            assert(c.queued.dom() =~= d.queued.dom());
            assert forall|k: Id32| #[trigger] c.queued.contains_key(k) implies c.queued[k].0
                == d.queued[k].0 by {
                assert(x.queued.contains_key(k));
            }
        }
    }
}

/// The orders that were accepted, with the times at which they were matched, put through a book:
/// what the book becomes, and the matches that it makes.
pub open spec fn audited(book: BookSpec, orders: Seq<(OrderSpec, u64)>, n: nat) -> (
    BookSpec,
    Seq<MatchSpec>,
)
    decreases n,
{
    if n == 0 {
        (book, Seq::empty())
    } else {
        let (b, ms) = audited(book, orders, (n - 1) as nat);
        let (o, t) = orders[n - 1];
        (book_after(b, o), ms + matches_after(b, o, t))
    }
}

/// Step `i` accepts the `i`-th order.
pub open spec fn steps_accept(
    steps: Seq<LiveStep>,
    orders: Seq<(OrderSpec, u64)>,
    receipts: Seq<ReceiptSpec>,
) -> bool {
    &&& orders.len() == steps.len()
    &&& receipts.len() == steps.len()
    &&& forall|i: int|
        0 <= i < steps.len() ==> (#[trigger] steps[i] matches LiveStep::Accept {
            order,
            receipt,
            at,
            recorded,
        } && orders[i] == (order, at) && receipts[i] == receipt)
}

/// The logs can be audited: putting the accepted orders through the book that the venue began with
/// gives the book that it has and the matches that it logged, and each order's receipt is in the
/// log of orders.
pub proof fn law_logs_can_be_audited(
    s: AppSpec,
    steps: Seq<LiveStep>,
    orders: Seq<(OrderSpec, u64)>,
    receipts: Seq<ReceiptSpec>,
    n: nat,
)
    requires
        steps_accept(steps, orders, receipts),
        n <= steps.len(),
    ensures
        live_state(s, steps, n).book == audited(s.book, orders, n).0,
        live_state(s, steps, n).match_log == s.match_log + audited(s.book, orders, n).1,
        live_state(s, steps, n).order_log == s.order_log + receipts.take(n as int),
    decreases n,
{
    if n == 0 {
        assert(s.match_log + Seq::<MatchSpec>::empty() =~= s.match_log);
        assert(s.order_log + receipts.take(0) =~= s.order_log);
    } else {
        law_logs_can_be_audited(s, steps, orders, receipts, (n - 1) as nat);
        let x = live_state(s, steps, (n - 1) as nat);
        let (b, ms) = audited(s.book, orders, (n - 1) as nat);
        let (o, t) = orders[n - 1];
        assert(steps[n - 1] is Accept);
        let more = matches_after(b, o, t);
        assert((s.match_log + ms) + more =~= s.match_log + (ms + more));
        assert((s.order_log + receipts.take(n - 1)).push(receipts[n - 1]) =~= s.order_log
            + receipts.take(n as int));
    }
}

} // verus!
