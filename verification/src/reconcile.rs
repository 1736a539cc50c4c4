//! After a restart: matches of which only the chain can say whether they were settled.

use crate::batcher::{withdrawn, without_trade, BatcherSpec};
use crate::bytes::Id32;
use crate::recovery::candidates_view;
use crate::recovery_laws::{none_under, not_queued};
use crate::server::{match_key, AppSpec, AppState};
use crate::types::{Match, MatchSpec};
use vstd::prelude::*;

verus! {

/// A match that the chain has settled is neither settled again nor waits for it.
pub open spec fn dropped(s: AppSpec, key: (Id32, Id32)) -> AppSpec {
    AppSpec {
        batcher: withdrawn(s.batcher, key),
        confirmed: s.confirmed.remove(key),
        ..s
    }
}

/// The chain has been asked about the first `n` matches.
pub open spec fn reconciled(
    s: AppSpec,
    matches: Seq<(MatchSpec, Id32)>,
    settled: Seq<bool>,
    n: nat,
) -> AppSpec
    decreases n,
{
    if n == 0 {
        s
    } else {
        let t = reconciled(s, matches, settled, (n - 1) as nat);
        if settled[n - 1] {
            dropped(t, match_key(matches[n - 1].0))
        } else {
            t
        }
    }
}

/// The keys of those of the first `n` matches that the chain has settled.
pub open spec fn settled_keys(
    matches: Seq<(MatchSpec, Id32)>,
    settled: Seq<bool>,
    n: nat,
) -> Seq<(Id32, Id32)>
    decreases n,
{
    if n == 0 {
        Seq::empty()
    } else {
        let before = settled_keys(matches, settled, (n - 1) as nat);
        if settled[n - 1] {
            before.push(match_key(matches[n - 1].0))
        } else {
            before
        }
    }
}

/// Drops the matches that the chain says it has settled, and returns their keys, to be recorded.
/// The others stay to be settled.
pub fn reconcile(guard: &mut AppState, matches: &Vec<(Match, Id32)>, settled: &Vec<bool>) -> (r:
    Vec<(Id32, Id32)>)
    requires
        matches@.len() == settled@.len(),
    ensures
        final(guard)@ == reconciled(
            old(guard)@,
            candidates_view(matches@),
            settled@,
            matches@.len(),
        ),
        r@ == settled_keys(candidates_view(matches@), settled@, matches@.len()),
{
    let ghost s = guard@;
    let ghost ms = candidates_view(matches@);
    let mut out: Vec<(Id32, Id32)> = Vec::new();
    let mut i: usize = 0;
    while i < matches.len()
        invariant
            i <= matches@.len() == settled@.len(),
            s == old(guard)@,
            ms == candidates_view(matches@),
            guard@ == reconciled(s, ms, settled@, i as nat),
            out@ == settled_keys(ms, settled@, i as nat),
        decreases matches@.len() - i,
    {
        if settled[i] {
            let m: &Match = &matches[i].0;
            let key: (Id32, Id32) = (m.maker_order_id, m.taker_order_id);
            let ghost before = guard@;
            assert(ms[i as int].0 == m@);
            guard.batcher.withdraw(&key);
            guard.confirmed_trade_hashes.remove(&key);
            proof {
                assert(guard@ =~= dropped(before, key));
            }
            out.push(key);
        }
        i = i + 1;
    }
    out
}

proof fn lemma_without_trade(s: Seq<MatchSpec>, key: (Id32, Id32), other: (Id32, Id32))
    ensures
        none_under(without_trade(s, key), key),
        none_under(s, other) ==> none_under(without_trade(s, key), other),
    decreases s.len(),
{
    if s.len() > 0 {
        let t = s.drop_last();
        lemma_without_trade(t, key, other);
        if none_under(s, other) {
            assert forall|i: int| 0 <= i < t.len() implies match_key(#[trigger] t[i]) != other by {
                assert(s[i] == t[i]);
            }
            assert(match_key(s[s.len() - 1]) != other);
        }
    }
}

proof fn lemma_withdrawn(b: BatcherSpec, key: (Id32, Id32), other: (Id32, Id32))
    ensures
        not_queued(withdrawn(b, key), key),
        not_queued(b, other) ==> not_queued(withdrawn(b, key), other),
{
    lemma_without_trade(b.standard, key, other);
    lemma_without_trade(b.express, key, other);
    lemma_without_trade(b.instant, key, other);
}

/// A match that the chain says it has settled is not settled again: it waits in no queue, and its
/// hash is gone.
pub proof fn law_reconciled_is_not_settled_again(
    s: AppSpec,
    matches: Seq<(MatchSpec, Id32)>,
    settled: Seq<bool>,
    n: nat,
    i: int,
)
    requires
        0 <= i < n <= matches.len(),
        settled[i],
    ensures
        ({
            let r = reconciled(s, matches, settled, n);
            let key = match_key(matches[i].0);
            not_queued(r.batcher, key) && !r.confirmed.contains_key(key)
        }),
    decreases n,
{
    let key = match_key(matches[i].0);
    let t = reconciled(s, matches, settled, (n - 1) as nat);
    if i < n - 1 {
        law_reconciled_is_not_settled_again(s, matches, settled, (n - 1) as nat, i);
    }
    if settled[n - 1] {
        lemma_withdrawn(t.batcher, match_key(matches[n - 1].0), key);
    }
}

proof fn lemma_keeps_others(s: Seq<MatchSpec>, key: (Id32, Id32), m: MatchSpec)
    requires
        match_key(m) != key,
        s.contains(m),
    ensures
        without_trade(s, key).contains(m),
    decreases s.len(),
{
    let k = choose|k: int| 0 <= k < s.len() && s[k] == m;
    let t = s.drop_last();
    let w = without_trade(s, key);
    if k == s.len() - 1 {
        assert(w[w.len() - 1] == m);
    } else {
        assert(t[k] == m);
        assert(t.contains(m));
        lemma_keeps_others(t, key, m);
        let j = choose|j: int|
            0 <= j < without_trade(t, key).len() && without_trade(t, key)[j] == m;
        assert(w[j] == m);
    }
}

/// A match that is waiting.
pub open spec fn waits(b: BatcherSpec, m: MatchSpec) -> bool {
    b.standard.contains(m) || b.express.contains(m) || b.instant.contains(m)
}

/// What the chain has not settled stays: a match under no key that it reports still waits, and its
/// hash is still there. Nothing but the queues and the hashes changes.
pub proof fn law_reconciling_keeps_the_rest(
    s: AppSpec,
    matches: Seq<(MatchSpec, Id32)>,
    settled: Seq<bool>,
    n: nat,
    m: MatchSpec,
)
    requires
        n <= matches.len(),
        forall|i: int|
            0 <= i < n && settled[i] ==> match_key((#[trigger] matches[i]).0) != match_key(m),
    ensures
        ({
            let r = reconciled(s, matches, settled, n);
            &&& waits(s.batcher, m) ==> waits(r.batcher, m)
            &&& r.confirmed.contains_key(match_key(m)) == s.confirmed.contains_key(match_key(m))
            &&& s.confirmed.contains_key(match_key(m)) ==> r.confirmed[match_key(m)]
                == s.confirmed[match_key(m)]
            &&& r.batcher.balances == s.batcher.balances
            &&& r == (AppSpec { batcher: r.batcher, confirmed: r.confirmed, ..s })
        }),
    decreases n,
{
    if n > 0 {
        law_reconciling_keeps_the_rest(s, matches, settled, (n - 1) as nat, m);
        let t = reconciled(s, matches, settled, (n - 1) as nat);
        if settled[n - 1] {
            let key = match_key(matches[n - 1].0);
            assert(key != match_key(m));
            if t.batcher.standard.contains(m) {
                lemma_keeps_others(t.batcher.standard, key, m);
            }
            if t.batcher.express.contains(m) {
                lemma_keeps_others(t.batcher.express, key, m);
            }
            if t.batcher.instant.contains(m) {
                lemma_keeps_others(t.batcher.instant, key, m);
            }
        }
    }
}

/// What is handed out to be recorded are the keys of the matches that the chain has settled, each once
/// for its match and in order, and of no others.
pub proof fn law_settled_keys_are_handed_out(
    matches: Seq<(MatchSpec, Id32)>,
    settled: Seq<bool>,
    n: nat,
    key: (Id32, Id32),
)
    requires
        n <= matches.len(),
    ensures
        settled_keys(matches, settled, n).contains(key) <==> exists|i: int|
            0 <= i < n && settled[i] && (#[trigger] matches[i]).0.maker_order_id == key.0
                && matches[i].0.taker_order_id == key.1,
        n > 0 ==> settled_keys(matches, settled, n).len() == settled_keys(
            matches,
            settled,
            (n - 1) as nat,
        ).len() + if settled[n - 1] {
            1int
        } else {
            0int
        },
        n > 0 && settled[n - 1] ==> settled_keys(matches, settled, n).last() == (
            matches[n - 1].0.maker_order_id,
            matches[n - 1].0.taker_order_id,
        ),
    decreases n,
{
    let a = settled_keys(matches, settled, n);
    if n > 0 {
        let m = (n - 1) as nat;
        law_settled_keys_are_handed_out(matches, settled, m, key);
        let b = settled_keys(matches, settled, m);
        if b.contains(key) {
            let j = choose|j: int| 0 <= j < b.len() && b[j] == key;
            assert(a[j] == key);
        }
        if settled[n - 1] {
            assert(a[b.len() as int] == match_key(matches[n - 1].0));
            if a.contains(key) {
                let j = choose|j: int| 0 <= j < a.len() && a[j] == key;
                if j < b.len() {
                    assert(b[j] == key);
                } else {
                    assert(matches[n - 1].0.maker_order_id == key.0);
                }
            }
        }
    }
}

} // verus!
