//! Restarts: redoing what was recorded, and whole copies of the state.

use crate::assoc::AssocMap;
use crate::batcher::trade_value;
use crate::bytes::Id32;
use crate::clock::unix_micros;
use crate::ledger::{credited, Balances};
use crate::receipts::{OrderReceipt, ReceiptSpec};
use crate::server::{
    accepted, confirm_fits, confirmed, match_key, queued_up, wal_view, AppSpec, AppState, WalEntry,
    WalSpec,
};
use crate::types::{Match, MatchSpec, Order, OrderSpec};
use vstd::prelude::*;

verus! {

/// An entry says that the trade under a key has been settled.
pub open spec fn checkpoints(e: WalSpec, key: (Id32, Id32)) -> bool {
    match e {
        WalSpec::BatchSubmitted { keys } => keys.contains(key),
        _ => false,
    }
}

/// Some entry says that the trade under a key has been settled.
pub open spec fn is_settled(entries: Seq<WalSpec>, key: (Id32, Id32)) -> bool {
    exists|i: int| 0 <= i < entries.len() && checkpoints(#[trigger] entries[i], key)
}

/// What redoing one entry does. An order without a recorded time is matched at `now`. A confirmed
/// match is no longer pending, and unless it has been settled it waits to be settled again.
pub open spec fn redone(s: AppSpec, e: WalSpec, all: Seq<WalSpec>, now: u64) -> AppSpec {
    match e {
        WalSpec::OrderAccepted { order, receipt, match_timestamp_us } => accepted(
            s,
            order,
            receipt,
            match match_timestamp_us {
                Some(t) => t,
                None => now,
            },
        ),
        WalSpec::CommitConfirmed { m, trade_hash } => {
            let mid = AppSpec { pending: s.pending.remove(match_key(m)), ..s };
            if is_settled(all, match_key(m)) {
                mid
            } else {
                confirmed(mid, m, trade_hash)
            }
        },
        _ => s,
    }
}

/// The state after the first `n` entries have been redone, the clock showing `times[i]` at the
/// `i`-th.
pub open spec fn replayed(s: AppSpec, all: Seq<WalSpec>, times: Seq<u64>, n: nat) -> AppSpec
    decreases n,
{
    if n == 0 {
        s
    } else {
        redone(replayed(s, all, times, (n - 1) as nat), all[n - 1], all, times[n - 1])
    }
}

/// The matches among the first `n` entries that were confirmed and are not known to be settled.
pub open spec fn candidates(all: Seq<WalSpec>, n: nat) -> Seq<(MatchSpec, Id32)>
    decreases n,
{
    if n == 0 {
        Seq::empty()
    } else {
        let before = candidates(all, (n - 1) as nat);
        match all[n - 1] {
            WalSpec::CommitConfirmed { m, trade_hash } => if is_settled(all, match_key(m)) {
                before
            } else {
                before.push((m, trade_hash))
            },
            _ => before,
        }
    }
}

/// The orders that the first `n` entries say were queued.
pub open spec fn queued_orders(all: Seq<WalSpec>, n: nat) -> Seq<(OrderSpec, ReceiptSpec)>
    decreases n,
{
    if n == 0 {
        Seq::empty()
    } else {
        let before = queued_orders(all, (n - 1) as nat);
        match all[n - 1] {
            WalSpec::OrderQueued { order, receipt } => before.push((order, receipt)),
            _ => before,
        }
    }
}

/// The first `n` of a list of orders have been put back in the queue, but for those that were
/// applied. With sequencing off none is.
pub open spec fn requeued(s: AppSpec, list: Seq<(OrderSpec, ReceiptSpec)>, n: nat) -> AppSpec
    decreases n,
{
    if n == 0 {
        s
    } else {
        let before = requeued(s, list, (n - 1) as nat);
        let (o, r) = list[n - 1];
        if before.applied.contains(o.id) || !before.sequencing {
            before
        } else {
            queued_up(before, o, r)
        }
    }
}

/// The state that a record leads to.
pub open spec fn recovered(s: AppSpec, all: Seq<WalSpec>, times: Seq<u64>) -> AppSpec {
    let list = queued_orders(all, all.len());
    requeued(replayed(s, all, times, all.len()), list, list.len())
}

/// The balances after the first `n` entries have been redone.
pub open spec fn replay_balances(b: Balances, all: Seq<WalSpec>, n: nat) -> Balances
    decreases n,
{
    if n == 0 {
        b
    } else {
        let before = replay_balances(b, all, (n - 1) as nat);
        match all[n - 1] {
            WalSpec::CommitConfirmed { m, .. } => if is_settled(all, match_key(m)) {
                before
            } else {
                credited(before, (m.taker_trader, m.symbol), trade_value(m) as u64)
            },
            _ => before,
        }
    }
}

/// What entry `i` credits can be held.
pub open spec fn entry_fits(b: Balances, all: Seq<WalSpec>, i: int) -> bool {
    match all[i] {
        WalSpec::CommitConfirmed { m, .. } => !is_settled(all, match_key(m)) ==> confirm_fits(
            replay_balances(b, all, i as nat),
            m,
        ),
        _ => true,
    }
}

/// What the entries credit can be held.
pub open spec fn replay_fits(b: Balances, all: Seq<WalSpec>) -> bool {
    forall|i: int| 0 <= i < all.len() ==> #[trigger] entry_fits(b, all, i)
}

proof fn lemma_replayed_balances(s: AppSpec, all: Seq<WalSpec>, times: Seq<u64>, n: nat)
    requires
        n <= all.len(),
    ensures
        replayed(s, all, times, n).batcher.balances == replay_balances(
            s.batcher.balances,
            all,
            n,
        ),
    decreases n,
{
    if n > 0 {
        lemma_replayed_balances(s, all, times, (n - 1) as nat);
    }
}

/// Only the clock readings at the entries that are redone count.
proof fn lemma_replayed_times(
    s: AppSpec,
    all: Seq<WalSpec>,
    a: Seq<u64>,
    b: Seq<u64>,
    n: nat,
)
    requires
        forall|i: int| 0 <= i < n ==> a[i] == b[i],
    ensures
        replayed(s, all, a, n) == replayed(s, all, b, n),
    decreases n,
{
    if n > 0 {
        lemma_replayed_times(s, all, a, b, (n - 1) as nat);
    }
}

/// What a replay did.
pub struct ReplaySummary {
    pub entries_replayed: usize,
    pub reconciliation_candidates: Vec<(Match, Id32)>,
}

/// Matches and their hashes, each match by its view.
pub open spec fn candidates_view(s: Seq<(Match, Id32)>) -> Seq<(MatchSpec, Id32)> {
    Seq::new(s.len(), |i: int| (s[i].0@, s[i].1))
}

/// Orders and their receipts, each by its view.
pub open spec fn receipted_view(s: Seq<(Order, OrderReceipt)>) -> Seq<(OrderSpec, ReceiptSpec)> {
    Seq::new(s.len(), |i: int| (s[i].0@, s[i].1@))
}

/// The keys that some entry says are settled.
fn settled_keys(entries: &Vec<WalEntry>) -> (r: AssocMap<(Id32, Id32), ()>)
    ensures
        forall|k: (Id32, Id32)| #[trigger]
            r@.contains_key(k) <==> is_settled(wal_view(entries@), k),
{
    let mut out: AssocMap<(Id32, Id32), ()> = AssocMap::new();
    let ghost all = wal_view(entries@);
    let mut i: usize = 0;
    while i < entries.len()
        invariant
            i <= entries@.len(),
            all == wal_view(entries@),
            forall|k: (Id32, Id32)| #[trigger]
                out@.contains_key(k) <==> is_settled(all.take(i as int), k),
        decreases entries@.len() - i,
    {
        let ghost before = out@;
        proof {
            assert(all[i as int] == entries@[i as int]@);
            assert(all.take(i + 1) =~= all.take(i as int).push(all[i as int]));
        }
        match &entries[i] {
            WalEntry::BatchSubmitted { keys } => {
                let mut j: usize = 0;
                while j < keys.len()
                    invariant
                        j <= keys@.len(),
                        forall|k: (Id32, Id32)| #[trigger]
                            out@.contains_key(k) <==> before.contains_key(k)
                                || keys@.take(j as int).contains(k),
                    decreases keys@.len() - j,
                {
                    let ghost mid = out@;
                    out.insert(keys[j], ());
                    proof {
                        assert(keys@.take(j + 1) =~= keys@.take(j as int).push(keys@[j as int]));
                        assert forall|k: (Id32, Id32)| #[trigger]
                            out@.contains_key(k) <==> before.contains_key(k) || keys@.take(
                                j + 1,
                            ).contains(k) by {
                            let a = keys@.take(j as int);
                            let b = keys@.take(j + 1);
                            assert(mid.contains_key(k) <==> before.contains_key(k) || a.contains(
                                k,
                            ));
                            if a.contains(k) {
                                let x = choose|x: int| 0 <= x < a.len() && a[x] == k;
                                assert(b[x] == k);
                            }
                            if k == keys@[j as int] {
                                assert(b[j as int] == k);
                            }
                        }
                    }
                    j = j + 1;
                }
                proof {
                    assert(keys@.take(keys@.len() as int) =~= keys@);
                    assert(all[i as int] == (WalSpec::BatchSubmitted { keys: keys@ }));
                    lemma_settled_push(all.take(i as int), all[i as int]);
                }
            },
            _ => {
                proof {
                    lemma_settled_push(all.take(i as int), all[i as int]);
                }
            },
        }
        i = i + 1;
    }
    proof {
        assert(all.take(all.len() as int) =~= all);
    }
    out
}

proof fn lemma_settled_push(s: Seq<WalSpec>, e: WalSpec)
    ensures
        forall|k: (Id32, Id32)| #[trigger]
            is_settled(s.push(e), k) <==> is_settled(s, k) || checkpoints(e, k),
{
    let t = s.push(e);
    assert forall|k: (Id32, Id32)| #[trigger]
        is_settled(t, k) <==> is_settled(s, k) || checkpoints(e, k) by {
        if is_settled(s, k) {
            let i = choose|i: int| 0 <= i < s.len() && checkpoints(#[trigger] s[i], k);
            assert(t[i] == s[i]);
        }
        if checkpoints(e, k) {
            assert(t[s.len() as int] == e);
        }
        if is_settled(t, k) {
            let i = choose|i: int| 0 <= i < t.len() && checkpoints(#[trigger] t[i], k);
            if i < s.len() {
                assert(s[i] == t[i]);
            }
        }
    }
}

/// Redoes every entry, in the order in which they were recorded. A confirmed match that some
/// entry says has been settled is not queued for settlement again; the others are listed, for
/// what is on the chain to be looked up. Orders that were queued and not applied are queued again.
pub fn replay_persistence_log(guard: &mut AppState, entries: Vec<WalEntry>) -> (r: ReplaySummary)
    requires
        replay_fits(old(guard)@.batcher.balances, wal_view(entries@)),
    ensures
        exists|times: Seq<u64>|
            times.len() == entries@.len() && final(guard)@ == #[trigger] recovered(
                old(guard)@,
                wal_view(entries@),
                times,
            ),
        r.entries_replayed == entries@.len(),
        candidates_view(r.reconciliation_candidates@) == candidates(
            wal_view(entries@),
            entries@.len(),
        ),
{
    let ghost s = guard@;
    let ghost ents = entries@;
    let ghost all = wal_view(entries@);
    let count: usize = entries.len();
    let settled: AssocMap<(Id32, Id32), ()> = settled_keys(&entries);
    let mut queued: Vec<(Order, OrderReceipt)> = Vec::new();
    let mut found: Vec<(Match, Id32)> = Vec::new();
    let ghost mut times: Seq<u64> = Seq::empty();
    proof {
        assert(receipted_view(queued@) =~= Seq::empty());
        assert(candidates_view(found@) =~= Seq::empty());
    }
    for entry in it: entries.into_iter()
        invariant
            it.seq() == ents,
            all == wal_view(ents),
            all.len() == ents.len(),
            replay_fits(s.batcher.balances, all),
            forall|k: (Id32, Id32)| #[trigger] settled@.contains_key(k) <==> is_settled(all, k),
            times.len() == it.index(),
            guard@ == replayed(s, all, times, it.index() as nat),
            receipted_view(queued@) == queued_orders(all, it.index() as nat),
            candidates_view(found@) == candidates(all, it.index() as nat),
    {
        let ghost i = it.index();
        let ghost e = entry@;
        let ghost q0 = queued@;
        let ghost f0 = found@;
        let ghost mut now: u64 = 0;
        proof {
            assert(all[i] == e);
            assert(entry_fits(s.batcher.balances, all, i));
            lemma_replayed_balances(s, all, times, i as nat);
        }
        match entry {
            WalEntry::OrderAccepted { order, receipt, match_timestamp_us } => {
                let t: u64 = match match_timestamp_us {
                    Some(t) => t,
                    None => unix_micros(),
                };
                proof {
                    now = t;
                }
                guard.apply_accepted_order_at(order, receipt, t);
            },
            WalEntry::CommitConfirmed { m, trade_hash } => {
                let key: (Id32, Id32) = (m.maker_order_id, m.taker_order_id);
                let ghost mid = guard@;
                guard.pending_commits.remove(&key);
                proof {
                    assert(guard@.pending =~= mid.pending.remove(key));
                    assert(guard@ =~= (AppSpec { pending: mid.pending.remove(key), ..mid }));
                }
                if !settled.contains_key(&key) {
                    let ghost mv = m@;
                    let listed: Match = m.duplicate();
                    found.push((listed, trade_hash));
                    guard.confirm_committed_locally(m, trade_hash);
                    proof {
                        assert(candidates_view(found@) =~= candidates_view(f0).push(
                            (mv, trade_hash),
                        ));
                    }
                }
            },
            WalEntry::BatchSubmitted { .. } => {},
            WalEntry::OrderQueued { order, receipt } => {
                let ghost ov = order@;
                let ghost rv = receipt@;
                queued.push((order, receipt));
                proof {
                    assert(receipted_view(queued@) =~= receipted_view(q0).push((ov, rv)));
                }
            },
        }
        proof {
            let t1 = times.push(now);
            lemma_replayed_times(s, all, times, t1, i as nat);
            times = t1;
        }
    }
    let ghost mid = guard@;
    let ghost list = receipted_view(queued@);
    let ghost qs = queued@;
    for entry in it: queued.into_iter()
        invariant
            it.seq() == qs,
            list == receipted_view(qs),
            guard@ == requeued(mid, list, it.index() as nat),
    {
        let (order, receipt): (Order, OrderReceipt) = entry;
        proof {
            assert(list[it.index()] == (order@, receipt@));
        }
        if !guard.applied_order_ids.contains(&order.id) && guard.sequencing {
            guard.queue_for_sequencing(order, receipt);
        }
    }
    proof {
        assert(guard@ == recovered(s, all, times));
    }
    ReplaySummary { entries_replayed: count, reconciliation_candidates: found }
}

/// A trade counts as settled where some entry of a recorded batch names its two orders.
pub proof fn law_settled_means_recorded(all: Seq<WalSpec>, key: (Id32, Id32), i: int)
    requires
        0 <= i < all.len(),
    ensures
        all[i] matches WalSpec::BatchSubmitted { keys } && keys.contains(key) ==> is_settled(
            all,
            key,
        ),
        (forall|j: int|
            0 <= j < all.len() ==> !((#[trigger] all[j]) matches WalSpec::BatchSubmitted { keys }
                && keys.contains(key))) ==> !is_settled(all, key),
{
    if all[i] matches WalSpec::BatchSubmitted { keys } && keys.contains(key) {
        assert(checkpoints(all[i], key));
    }
}

/// Entry `i` is of a confirmed match that no entry says is settled.
pub open spec fn is_unsettled_commit(all: Seq<WalSpec>, i: int) -> bool {
    all[i] matches WalSpec::CommitConfirmed { m, trade_hash } && !is_settled(
        all,
        (m.maker_order_id, m.taker_order_id),
    )
}

/// The matches to be looked up on the chain are the confirmed ones that no entry says are settled: each
/// such entry's match is listed with its hash, and nothing else is.
pub proof fn law_candidates_are_unsettled_commits(
    all: Seq<WalSpec>,
    n: nat,
    i: int,
    c: (MatchSpec, Id32),
)
    requires
        n <= all.len(),
    ensures
        0 <= i < n && is_unsettled_commit(all, i) && all[i] == (WalSpec::CommitConfirmed {
            m: c.0,
            trade_hash: c.1,
        }) ==> candidates(all, n).contains(c),
        candidates(all, n).contains(c) ==> exists|j: int|
            0 <= j < n && #[trigger] is_unsettled_commit(all, j) && all[j] == (
            WalSpec::CommitConfirmed { m: c.0, trade_hash: c.1 }),
    decreases n,
{
    if n > 0 {
        let k = (n - 1) as nat;
        law_candidates_are_unsettled_commits(all, k, i, c);
        let before = candidates(all, k);
        let after = candidates(all, n);
        if before.contains(c) {
            let x = choose|x: int| 0 <= x < before.len() && before[x] == c;
            assert(after[x] == c);
        }
        if i == k && is_unsettled_commit(all, i) && all[i] == (WalSpec::CommitConfirmed {
            m: c.0,
            trade_hash: c.1,
        }) {
            assert(after[before.len() as int] == c);
        }
        if after.contains(c) && !before.contains(c) {
            let x = choose|x: int| 0 <= x < after.len() && after[x] == c;
            if x < before.len() {
                assert(before[x] == c);
            }
            assert(is_unsettled_commit(all, k as int));
        }
    }
}

/// What each recorded entry does again. An accepted order meets the book as it did then, at the time that
/// was recorded, or now where none was; a confirmed match no longer waits for that, and is confirmed
/// unless it has been settled; an order that waited, and a settlement, do nothing by themselves.
pub proof fn law_entries_are_done_again(s: AppSpec, e: WalSpec, all: Seq<WalSpec>, now: u64)
    ensures
        ({
            let r = redone(s, e, all, now);
            &&& e matches WalSpec::OrderAccepted { order, receipt, match_timestamp_us } ==> {
                let t = if match_timestamp_us is Some {
                    match_timestamp_us->0
                } else {
                    now
                };
                let ms = crate::book::matches_after(s.book, order, t);
                &&& r.book == crate::book::book_after(s.book, order)
                &&& r.match_log == s.match_log + ms
                &&& r.order_log == s.order_log.push(receipt)
                &&& r.applied.contains(order.id)
                &&& r.confirmed == s.confirmed && r.batcher == s.batcher
            }
            &&& e matches WalSpec::CommitConfirmed { m, trade_hash } ==> {
                let key = (m.maker_order_id, m.taker_order_id);
                let payer = (m.taker_trader, m.symbol);
                &&& r.pending == s.pending.remove(key)
                &&& r.book == s.book && r.match_log == s.match_log && r.order_log == s.order_log
                &&& is_settled(all, key) ==> r.confirmed == s.confirmed && r.batcher == s.batcher
                &&& !is_settled(all, key) ==> r.confirmed == s.confirmed.insert(key, trade_hash)
                &&& !is_settled(all, key) && confirm_fits(s.batcher.balances, m)
                    ==> crate::ledger::balance(r.batcher.balances, payer)
                    == crate::ledger::balance(s.batcher.balances, payer) + m.price * m.amount
            }
            &&& e is BatchSubmitted || e is OrderQueued ==> r == s
        }),
{
}

} // verus!
