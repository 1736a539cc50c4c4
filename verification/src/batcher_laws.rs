//! What holds of every settlement batch, whatever the prover answers.

use crate::batcher::{
    after_chunk, after_chunks, after_proof, all_answered, answered, batch_for, chunk_answered,
    chunk_fits, chunks_of, earned, earnings_fit, empty_batch, enqueued, flushed, lemma_node_split,
    maker_key, new_batcher, paid, planned_chunks, queues_after, reports_of, settles_as, solvent,
    stages_fit, taker_key, total_value, trade_value, with_node, withdrawn, without_node,
    without_trade, BatchSpec, BatcherSpec, ProverBackend, RunState, TradeBatchSpec,
    MAX_BATCH_TRADES,
};
use crate::batcher_room::lemma_total_add;
use crate::bytes::{be_value, law_u64_word_value, Id32};
use crate::ledger::{balance, Balances};
use crate::types::{MatchSpec, SettlementPreference};
use vstd::prelude::*;

verus! {

/// All trades are assigned to one node.
pub open spec fn one_node(s: Seq<MatchSpec>) -> bool {
    forall|i: int, j: int|
        0 <= i < s.len() && 0 <= j < s.len() ==> (#[trigger] s[i]).assigned_node == (
        #[trigger] s[j]).assigned_node
}

/// A chunk that one proof can cover.
pub open spec fn is_chunk(s: Seq<MatchSpec>) -> bool {
    0 < s.len() <= MAX_BATCH_TRADES && one_node(s)
}

/// The trades of the proofs' batches, one after the other.
pub open spec fn covered(tbs: Seq<TradeBatchSpec>) -> Seq<MatchSpec>
    decreases tbs.len(),
{
    if tbs.len() == 0 {
        Seq::empty()
    } else {
        covered(tbs.drop_last()) + tbs.last().trades
    }
}

/// Proofs, counts and batches go together: each proof covers its count of trades, at least one and
/// at most `MAX_BATCH_TRADES` of them, all of one node, and the settled trades are exactly those.
pub open spec fn consistent(b: BatchSpec) -> bool {
    &&& b.proofs.len() == b.counts.len()
    &&& b.trade_batches.len() == b.counts.len()
    &&& b.trades == covered(b.trade_batches)
    &&& forall|i: int|
        0 <= i < b.counts.len() ==> is_chunk((#[trigger] b.trade_batches[i]).trades)
            && b.counts[i] == b.trade_batches[i].trades.len()
}

proof fn lemma_solvent_sub(chunk: Seq<MatchSpec>, b: Balances)
    ensures
        solvent(chunk, b).len() <= chunk.len(),
        forall|i: int|
            0 <= i < solvent(chunk, b).len() ==> chunk.contains(#[trigger] solvent(chunk, b)[i]),
    decreases chunk.len(),
{
    if chunk.len() > 0 {
        let t = chunk.drop_last();
        lemma_solvent_sub(t, b);
        assert forall|i: int| 0 <= i < solvent(chunk, b).len() implies chunk.contains(
            #[trigger] solvent(chunk, b)[i],
        ) by {
            if i < solvent(t, b).len() {
                let x = solvent(t, b)[i];
                assert(t.contains(x));
                let k = choose|k: int| 0 <= k < t.len() && t[k] == x;
                assert(chunk[k] == x);
            } else {
                assert(chunk[chunk.len() - 1] == chunk.last());
            }
        }
    }
}

proof fn lemma_solvent_chunk(chunk: Seq<MatchSpec>, b: Balances)
    requires
        is_chunk(chunk),
        solvent(chunk, b).len() > 0,
    ensures
        is_chunk(solvent(chunk, b)),
{
    lemma_solvent_sub(chunk, b);
    let s = solvent(chunk, b);
    assert forall|i: int, j: int| 0 <= i < s.len() && 0 <= j < s.len() implies (
    #[trigger] s[i]).assigned_node == (#[trigger] s[j]).assigned_node by {
        assert(chunk.contains(s[i]) && chunk.contains(s[j]));
        let p = choose|p: int| 0 <= p < chunk.len() && chunk[p] == s[i];
        let q = choose|q: int| 0 <= q < chunk.len() && chunk[q] == s[j];
        assert(chunk[p].assigned_node == chunk[q].assigned_node);
    }
}

proof fn lemma_chunks_of(s: Seq<MatchSpec>, node: Id32)
    requires
        forall|i: int| 0 <= i < s.len() ==> (#[trigger] s[i]).assigned_node == node,
    ensures
        forall|i: int| 0 <= i < chunks_of(s).len() ==> is_chunk(#[trigger] chunks_of(s)[i]),
    decreases s.len(),
{
    let n = MAX_BATCH_TRADES as int;
    if s.len() > n {
        lemma_chunks_of(s.skip(n), node);
        assert forall|i: int| 0 <= i < chunks_of(s).len() implies is_chunk(
            #[trigger] chunks_of(s)[i],
        ) by {
            if i == 0 {
                assert(chunks_of(s)[0] == s.take(n));
            } else {
                assert(chunks_of(s)[i] == chunks_of(s.skip(n))[i - 1]);
            }
        }
    }
}

proof fn lemma_with_node(s: Seq<MatchSpec>, node: Id32)
    ensures
        forall|i: int|
            0 <= i < with_node(s, node).len() ==> (#[trigger] with_node(s, node)[i]).assigned_node
                == node,
    decreases s.len(),
{
    if s.len() > 0 {
        lemma_with_node(s.drop_last(), node);
    }
}

/// Trades are proven in chunks of at least one and at most `MAX_BATCH_TRADES`, each all of one
/// node.
pub proof fn law_chunks_are_of_one_node(s: Seq<MatchSpec>)
    ensures
        forall|i: int|
            0 <= i < planned_chunks(s).len() ==> is_chunk(#[trigger] planned_chunks(s)[i]),
    decreases s.len(),
{
    if s.len() > 0 {
        let node = s[0].assigned_node;
        let g = with_node(s, node);
        let h = without_node(s, node);
        if h.len() < s.len() {
            lemma_with_node(s, node);
            lemma_chunks_of(g, node);
            law_chunks_are_of_one_node(h);
            assert forall|i: int| 0 <= i < planned_chunks(s).len() implies is_chunk(
                #[trigger] planned_chunks(s)[i],
            ) by {
                let k = chunks_of(g).len();
                if i < k {
                    assert(planned_chunks(s)[i] == chunks_of(g)[i]);
                } else {
                    assert(planned_chunks(s)[i] == planned_chunks(h)[i - k]);
                }
            }
        }
    }
}

proof fn lemma_chunk_step(st: RunState, chunk: Seq<MatchSpec>, outcome: Option<Seq<u8>>)
    requires
        consistent(st.batch),
        is_chunk(chunk),
    ensures
        consistent(after_chunk(st, chunk, outcome).batch),
{
    let s = solvent(chunk, st.balances);
    if s.len() > 0 {
        lemma_solvent_chunk(chunk, st.balances);
        let t = after_chunk(st, chunk, outcome);
        if outcome is Some && paid(st.balances, s, s.len()) is Some {
            assert(t.batch.trade_batches.drop_last() =~= st.batch.trade_batches);
            assert(t.batch.trades == covered(t.batch.trade_batches));
        }
    }
}

proof fn lemma_chunk_steps(
    st: RunState,
    chunks: Seq<Seq<MatchSpec>>,
    outcomes: Seq<Option<Seq<u8>>>,
    n: nat,
)
    requires
        consistent(st.batch),
        n <= chunks.len(),
        forall|i: int| 0 <= i < chunks.len() ==> is_chunk(#[trigger] chunks[i]),
    ensures
        consistent(after_chunks(st, chunks, outcomes, n).batch),
    decreases n,
{
    if n > 0 {
        lemma_chunk_steps(st, chunks, outcomes, (n - 1) as nat);
        lemma_chunk_step(
            after_chunks(st, chunks, outcomes, (n - 1) as nat),
            chunks[n - 1],
            outcomes[n - 1],
        );
    }
}

/// Whatever the prover answers, the proofs of a batch account for its trades, each exactly once.
pub proof fn law_batches_are_consistent<P: ProverBackend>(
    prover: P,
    before: Balances,
    trades: Seq<MatchSpec>,
    batch: BatchSpec,
    after: Balances,
)
    requires
        settles_as(prover, before, trades, batch, after),
    ensures
        consistent(batch),
{
    law_chunks_are_of_one_node(trades);
    let chunks = planned_chunks(trades);
    let st = RunState { balances: before, batch: empty_batch() };
    let outcomes = choose|outcomes: Seq<Option<Seq<u8>>>|
        outcomes.len() == chunks.len() && #[trigger] after_chunks(
            st,
            chunks,
            outcomes,
            chunks.len(),
        ) == (RunState { balances: after, batch });
    assert(empty_batch().trades =~= covered(empty_batch().trade_batches));
    lemma_chunk_steps(st, chunks, outcomes, chunks.len());
}

/// The sum of a batch's counts.
pub open spec fn count_sum(counts: Seq<usize>) -> nat
    decreases counts.len(),
{
    if counts.len() == 0 {
        0
    } else {
        count_sum(counts.drop_last()) + counts.last() as nat
    }
}

proof fn lemma_count_sum(counts: Seq<usize>, tbs: Seq<TradeBatchSpec>)
    requires
        counts.len() == tbs.len(),
        forall|i: int| 0 <= i < counts.len() ==> counts[i] == (#[trigger] tbs[i]).trades.len(),
    ensures
        count_sum(counts) == covered(tbs).len(),
    decreases counts.len(),
{
    if counts.len() > 0 {
        assert forall|i: int| 0 <= i < counts.drop_last().len() implies counts.drop_last()[i] == (
        #[trigger] tbs.drop_last()[i]).trades.len() by {
            assert(counts[i] == tbs[i].trades.len());
        }
        lemma_count_sum(counts.drop_last(), tbs.drop_last());
        assert(counts[counts.len() - 1] == tbs[counts.len() - 1].trades.len());
    }
}

/// The counts add up to the number of settled trades.
pub proof fn law_counts_add_up(b: BatchSpec)
    requires
        consistent(b),
    ensures
        count_sum(b.counts) == b.trades.len(),
{
    lemma_count_sum(b.counts, b.trade_batches);
}

/// What the first `n` trades take from a balance.
pub open spec fn taken_from(s: Seq<MatchSpec>, k: (Id32, Seq<char>), n: nat) -> nat
    decreases n,
{
    if n == 0 {
        0
    } else {
        taken_from(s, k, (n - 1) as nat) + if taker_key(s[n - 1]) == k {
            trade_value(s[n - 1])
        } else {
            0
        }
    }
}

/// What the first `n` trades give to a balance.
pub open spec fn given_to(s: Seq<MatchSpec>, k: (Id32, Seq<char>), n: nat) -> nat
    decreases n,
{
    if n == 0 {
        0
    } else {
        given_to(s, k, (n - 1) as nat) + if maker_key(s[n - 1]) == k {
            trade_value(s[n - 1])
        } else {
            0
        }
    }
}

proof fn lemma_paid_balance(b: Balances, s: Seq<MatchSpec>, k: (Id32, Seq<char>), n: nat)
    requires
        paid(b, s, n) is Some,
    ensures
        balance(paid(b, s, n)->0, k) + taken_from(s, k, n) == balance(b, k),
    decreases n,
{
    if n > 0 {
        lemma_paid_balance(b, s, k, (n - 1) as nat);
    }
}

proof fn lemma_earned_balance(b: Balances, s: Seq<MatchSpec>, k: (Id32, Seq<char>), n: nat)
    requires
        n <= s.len(),
        earnings_fit(b, s),
    ensures
        balance(earned(b, s, n), k) == balance(b, k) + given_to(s, k, n),
    decreases n,
{
    if n > 0 {
        lemma_earned_balance(b, s, k, (n - 1) as nat);
        let m = s[n - 1];
        assert(balance(earned(b, s, (n - 1) as nat), maker_key(m)) + trade_value(m) <= u64::MAX);
    }
}

/// A settled chunk moves money and makes none: every balance loses exactly what its trades take
/// and gains exactly what they give.
pub proof fn law_settlement_conserves(
    st: RunState,
    s: Seq<MatchSpec>,
    tb: TradeBatchSpec,
    outcome: Option<Seq<u8>>,
    k: (Id32, Seq<char>),
)
    requires
        outcome is Some,
        paid(st.balances, s, s.len()) is Some,
        earnings_fit(paid(st.balances, s, s.len())->0, s),
    ensures
        balance(after_proof(st, s, tb, outcome).balances, k) + taken_from(s, k, s.len())
            == balance(st.balances, k) + given_to(s, k, s.len()),
{
    let b = paid(st.balances, s, s.len())->0;
    lemma_paid_balance(st.balances, s, k, s.len());
    lemma_earned_balance(b, s, k, s.len());
}

/// A chunk whose proof failed, or one of whose payers falls short, changes nothing: no balance
/// moves and nothing is reported as settled.
pub proof fn law_dropped_chunk_changes_nothing(
    st: RunState,
    s: Seq<MatchSpec>,
    tb: TradeBatchSpec,
    outcome: Option<Seq<u8>>,
)
    requires
        outcome is None || paid(st.balances, s, s.len()) is None,
    ensures
        after_proof(st, s, tb, outcome) == st,
{
}

/// A trade that its payer cannot pay is never proven.
pub proof fn law_insolvent_trades_are_dropped(chunk: Seq<MatchSpec>, b: Balances, i: int)
    requires
        0 <= i < solvent(chunk, b).len(),
    ensures
        trade_value(solvent(chunk, b)[i]) <= balance(b, taker_key(solvent(chunk, b)[i])),
    decreases chunk.len(),
{
    if chunk.len() > 0 && i < solvent(chunk.drop_last(), b).len() {
        law_insolvent_trades_are_dropped(chunk.drop_last(), b, i);
    }
}

proof fn lemma_proofs_answered<P: ProverBackend>(
    prover: P,
    st: RunState,
    chunks: Seq<Seq<MatchSpec>>,
    outcomes: Seq<Option<Seq<u8>>>,
    n: nat,
)
    requires
        all_answered(prover, st, chunks, outcomes, n),
        n <= chunks.len(),
        n <= outcomes.len(),
        st.batch == empty_batch(),
    ensures
        ({
            let b = after_chunks(st, chunks, outcomes, n).batch;
            &&& b.proofs.len() == b.trade_batches.len()
            &&& forall|i: int|
                0 <= i < b.proofs.len() ==> answered(
                    prover,
                    #[trigger] b.trade_batches[i],
                    Some(b.proofs[i]),
                )
        }),
    decreases n,
{
    if n > 0 {
        let k = (n - 1) as nat;
        lemma_proofs_answered(prover, st, chunks, outcomes, k);
        let before = after_chunks(st, chunks, outcomes, k);
        let b = after_chunks(st, chunks, outcomes, n).batch;
        assert(chunk_answered(prover, before.balances, chunks[k as int], outcomes[k as int]));
        assert forall|i: int| 0 <= i < b.proofs.len() implies answered(
            prover,
            #[trigger] b.trade_batches[i],
            Some(b.proofs[i]),
        ) by {
            if i < before.batch.proofs.len() {
                assert(b.trade_batches[i] == before.batch.trade_batches[i]);
                assert(b.proofs[i] == before.batch.proofs[i]);
            }
        }
    }
}

/// No proof is made up: each proof of a batch is what the prover answered on exactly the trades that
/// it covers.
pub proof fn law_every_proof_is_the_provers<P: ProverBackend>(
    prover: P,
    before: Balances,
    trades: Seq<MatchSpec>,
    batch: BatchSpec,
    after: Balances,
    i: int,
)
    requires
        settles_as(prover, before, trades, batch, after),
        0 <= i < batch.proofs.len(),
    ensures
        batch.proofs.len() == batch.trade_batches.len(),
        answered(prover, batch.trade_batches[i], Some(batch.proofs[i])),
{
    let chunks = planned_chunks(trades);
    let st = RunState { balances: before, batch: empty_batch() };
    let outcomes = choose|outcomes: Seq<Option<Seq<u8>>>|
        outcomes.len() == chunks.len() && #[trigger] after_chunks(
            st,
            chunks,
            outcomes,
            chunks.len(),
        ) == (RunState { balances: after, batch }) && all_answered(
            prover,
            st,
            chunks,
            outcomes,
            chunks.len(),
        );
    lemma_proofs_answered(prover, st, chunks, outcomes, chunks.len());
}

proof fn lemma_moved_adds(a: Seq<MatchSpec>, b: Seq<MatchSpec>, k: (Id32, Seq<char>), n: nat)
    requires
        n <= b.len(),
    ensures
        taken_from(a + b, k, a.len() + n) == taken_from(a, k, a.len()) + taken_from(b, k, n),
        given_to(a + b, k, a.len() + n) == given_to(a, k, a.len()) + given_to(b, k, n),
    decreases n,
{
    if n > 0 {
        lemma_moved_adds(a, b, k, (n - 1) as nat);
        assert((a + b)[a.len() + n - 1] == b[n - 1]);
    } else {
        lemma_moved_prefix(a, b, k, a.len());
    }
}

proof fn lemma_moved_prefix(a: Seq<MatchSpec>, b: Seq<MatchSpec>, k: (Id32, Seq<char>), n: nat)
    requires
        n <= a.len(),
    ensures
        taken_from(a + b, k, n) == taken_from(a, k, n),
        given_to(a + b, k, n) == given_to(a, k, n),
    decreases n,
{
    if n > 0 {
        lemma_moved_prefix(a, b, k, (n - 1) as nat);
        assert((a + b)[n - 1] == a[n - 1]);
    }
}

/// What the trades of a batch have moved under a key, up to here.
spec fn moved_so_far(st: RunState, t: RunState, k: (Id32, Seq<char>)) -> bool {
    let s = t.batch.trades;
    balance(t.balances, k) + taken_from(s, k, s.len()) == balance(st.balances, k) + given_to(
        s,
        k,
        s.len(),
    )
}

proof fn lemma_chunks_conserve(
    st: RunState,
    stages: Seq<Seq<Seq<MatchSpec>>>,
    j: nat,
    outcomes: Seq<Option<Seq<u8>>>,
    n: nat,
    k: (Id32, Seq<char>),
)
    requires
        j < stages.len(),
        n <= stages[j as int].len(),
        st.batch == empty_batch(),
        stages_fit(stages, j, 0, st.balances, 0),
    ensures
        ({
            let t = after_chunks(st, stages[j as int], outcomes, n);
            &&& moved_so_far(st, t, k)
            &&& t.batch.total_value == total_value(t.batch.trades)
            &&& stages_fit(stages, j, n, t.balances, t.batch.total_value)
        }),
    decreases n,
{
    let chunks = stages[j as int];
    if n > 0 {
        let m = (n - 1) as nat;
        lemma_chunks_conserve(st, stages, j, outcomes, m, k);
        let t = after_chunks(st, chunks, outcomes, m);
        let chunk = chunks[m as int];
        let s = solvent(chunk, t.balances);
        assert(chunk_fits(t.balances, t.batch.total_value, chunk));
        if s.len() > 0 && outcomes[m as int] is Some && paid(t.balances, s, s.len()) is Some {
            let tb = batch_for(s, t.balances);
            law_settlement_conserves(t, s, tb, outcomes[m as int], k);
            lemma_moved_adds(t.batch.trades, s, k, s.len());
            lemma_total_add(t.batch.trades, s);
        }
    }
}

/// A batch as a whole moves money and makes none: every balance loses exactly what the settled
/// trades take and gains exactly what they give, and the batch's value is that of its trades.
pub proof fn law_batch_conserves<P: ProverBackend>(
    prover: P,
    before: Balances,
    trades: Seq<MatchSpec>,
    batch: BatchSpec,
    after: Balances,
    k: (Id32, Seq<char>),
)
    requires
        settles_as(prover, before, trades, batch, after),
        stages_fit(seq![planned_chunks(trades)], 0, 0, before, 0),
    ensures
        balance(after, k) + taken_from(batch.trades, k, batch.trades.len()) == balance(before, k)
            + given_to(batch.trades, k, batch.trades.len()),
        batch.total_value == total_value(batch.trades),
{
    let chunks = planned_chunks(trades);
    let st = RunState { balances: before, batch: empty_batch() };
    let outcomes = choose|outcomes: Seq<Option<Seq<u8>>>|
        outcomes.len() == chunks.len() && #[trigger] after_chunks(
            st,
            chunks,
            outcomes,
            chunks.len(),
        ) == (RunState { balances: after, batch });
    lemma_chunks_conserve(st, seq![chunks], 0, outcomes, chunks.len(), k);
}

/// No queued trade waits longer than its tier allows. A queue that is not empty is flushed whole once
/// it is as long as its batch size or its timer has run for its interval: it is then empty, its timer
/// starts over, and all of it is settled as one stage, the standard queue as the last and the express
/// queue before it. Until then it stays as it is. Of the instant queue the first trade goes at once,
/// ahead of the others, which keep their order.
pub proof fn law_due_queues_are_flushed(b: BatcherSpec, now: u64, balances: Balances)
    ensures
        ({
            let f = flushed(b, now);
            let after = queues_after(b, now, balances);
            let standard = b.standard.len() > 0 && (b.standard.len() >= b.standard_batch_size
                || b.standard_interval_us == 0 || now - b.standard_timer_us
                >= b.standard_interval_us);
            let express = b.express.len() > 0 && (b.express.len() >= b.express_batch_size
                || b.express_interval_us == 0 || now - b.express_timer_us >= b.express_interval_us);
            let first: int = if b.instant.len() > 0 {
                1
            } else {
                0
            };
            let second: int = if express {
                1
            } else {
                0
            };
            &&& standard ==> f.len() == first + second + 1 && f.last() == b.standard
                && after.standard.len() == 0 && after.standard_timer_us == now
            &&& !standard ==> f.len() == first + second && after.standard == b.standard
                && after.standard_timer_us == b.standard_timer_us
            &&& express ==> f[first] == b.express && after.express.len() == 0
                && after.express_timer_us == now
            &&& !express ==> after.express == b.express && after.express_timer_us
                == b.express_timer_us
            &&& b.instant.len() > 0 ==> f[0] == seq![b.instant[0]] && b.instant
                == seq![b.instant[0]] + after.instant
            &&& b.instant.len() == 0 ==> after.instant.len() == 0
            &&& after.balances == balances
            &&& after.standard_batch_size == b.standard_batch_size
            &&& after.express_batch_size == b.express_batch_size
            &&& after.standard_interval_us == b.standard_interval_us
            &&& after.express_interval_us == b.express_interval_us
        }),
{
    if b.instant.len() > 0 {
        assert(b.instant.take(1) =~= seq![b.instant[0]]);
        assert(seq![b.instant[0]] + b.instant.skip(1) =~= b.instant);
    }
}

/// A lone trade in a new batcher is settled in time: an instant one at once, a standard one after ten
/// seconds and an express one after a minute, and neither of these before.
pub proof fn law_lone_trade_is_flushed_in_time(m: MatchSpec, now: u64)
    ensures
        ({
            let f = flushed(enqueued(new_batcher(), m), now);
            let due = match m.settlement_tier {
                SettlementPreference::Instant => true,
                SettlementPreference::Express => now >= 60_000_000,
                SettlementPreference::Standard => now >= 10_000_000,
            };
            &&& due ==> f == seq![seq![m]]
            &&& !due ==> f.len() == 0
        }),
{
    let b = enqueued(new_batcher(), m);
    let f = flushed(b, now);
    match m.settlement_tier {
        SettlementPreference::Instant => {
            assert(b.instant =~= seq![m]);
            assert(b.instant.take(1) =~= seq![m]);
        },
        SettlementPreference::Express => {
            assert(b.express =~= seq![m]);
        },
        SettlementPreference::Standard => {
            assert(b.standard =~= seq![m]);
        },
    }
    if f.len() > 0 {
        assert(f =~= seq![seq![m]]);
    }
}

/// A trade joins the end of the queue of its tier, and changes nothing else.
pub proof fn law_trades_queue_by_tier(b: BatcherSpec, m: MatchSpec)
    ensures
        ({
            let a = enqueued(b, m);
            let t = m.settlement_tier;
            &&& a.standard == if t == SettlementPreference::Standard {
                b.standard.push(m)
            } else {
                b.standard
            }
            &&& a.express == if t == SettlementPreference::Express {
                b.express.push(m)
            } else {
                b.express
            }
            &&& a.instant == if t == SettlementPreference::Instant {
                b.instant.push(m)
            } else {
                b.instant
            }
            &&& a == (BatcherSpec {
                standard: a.standard,
                express: a.express,
                instant: a.instant,
                ..b
            })
        }),
{
}

proof fn lemma_without_trade_filter(s: Seq<MatchSpec>, key: (Id32, Id32))
    ensures
        without_trade(s, key) == s.filter(
            |m: MatchSpec| m.maker_order_id != key.0 || m.taker_order_id != key.1,
        ),
    decreases s.len(),
{
    reveal(Seq::filter);
    if s.len() > 0 {
        lemma_without_trade_filter(s.drop_last(), key);
    }
}

/// Withdrawing takes the trades of one maker's and taker's order out of the queues. All others stay,
/// in their order, and so do timers and balances.
pub proof fn law_withdrawing_takes_one_key(b: BatcherSpec, key: (Id32, Id32))
    ensures
        ({
            let keep = |m: MatchSpec| m.maker_order_id != key.0 || m.taker_order_id != key.1;
            let a = withdrawn(b, key);
            &&& a.standard == b.standard.filter(keep)
            &&& a.express == b.express.filter(keep)
            &&& a.instant == b.instant.filter(keep)
            &&& a == (BatcherSpec {
                standard: a.standard,
                express: a.express,
                instant: a.instant,
                ..b
            })
        }),
{
    lemma_without_trade_filter(b.standard, key);
    lemma_without_trade_filter(b.express, key);
    lemma_without_trade_filter(b.instant, key);
}

/// Lists one after the other.
pub open spec fn strung(chunks: Seq<Seq<MatchSpec>>) -> Seq<MatchSpec>
    decreases chunks.len(),
{
    if chunks.len() == 0 {
        Seq::empty()
    } else {
        strung(chunks.drop_last()) + chunks.last()
    }
}

proof fn lemma_strung_adds(a: Seq<Seq<MatchSpec>>, b: Seq<Seq<MatchSpec>>)
    ensures
        strung(a + b) == strung(a) + strung(b),
    decreases b.len(),
{
    if b.len() == 0 {
        assert(a + b =~= a);
        assert(strung(a) + strung(b) =~= strung(a));
    } else {
        assert((a + b).drop_last() =~= a + b.drop_last());
        lemma_strung_adds(a, b.drop_last());
        assert(strung(a) + strung(b.drop_last()) + b.last() =~= strung(a) + (strung(b.drop_last())
            + b.last()));
    }
}

proof fn lemma_strung_one(s: Seq<MatchSpec>)
    ensures
        strung(seq![s]) == s,
{
    assert(seq![s].drop_last() =~= Seq::empty());
    assert(strung(Seq::empty()) + s =~= s);
}

proof fn lemma_chunks_string(s: Seq<MatchSpec>)
    ensures
        strung(chunks_of(s)) == s,
        forall|i: int|
            0 <= i < chunks_of(s).len() - 1 ==> (#[trigger] chunks_of(s)[i]).len() == 8,
        forall|i: int|
            0 <= i < chunks_of(s).len() ==> 1 <= (#[trigger] chunks_of(s)[i]).len() <= 8,
    decreases s.len(),
{
    if s.len() > MAX_BATCH_TRADES {
        let n = MAX_BATCH_TRADES as int;
        lemma_chunks_string(s.skip(n));
        lemma_strung_one(s.take(n));
        lemma_strung_adds(seq![s.take(n)], chunks_of(s.skip(n)));
        assert(s.take(n) + s.skip(n) =~= s);
        assert forall|i: int| 0 <= i < chunks_of(s).len() implies 1 <= (
        #[trigger] chunks_of(s)[i]).len() <= 8 && (i < chunks_of(s).len() - 1 ==> chunks_of(
            s,
        )[i].len() == 8) by {
            if i > 0 {
                assert(chunks_of(s)[i] == chunks_of(s.skip(n))[i - 1]);
            }
        }
    } else if s.len() > 0 {
        lemma_strung_one(s);
    }
}

proof fn lemma_node_filters(s: Seq<MatchSpec>, node: Id32, x: Id32)
    ensures
        with_node(s, node).filter(|m: MatchSpec| m.assigned_node == x) == if x == node {
            s.filter(|m: MatchSpec| m.assigned_node == x)
        } else {
            Seq::empty()
        },
        without_node(s, node).filter(|m: MatchSpec| m.assigned_node == x) == if x == node {
            Seq::empty()
        } else {
            s.filter(|m: MatchSpec| m.assigned_node == x)
        },
    decreases s.len(),
{
    let p = |m: MatchSpec| m.assigned_node == x;
    reveal(Seq::filter);
    if s.len() > 0 {
        let t = s.drop_last();
        lemma_node_filters(t, node, x);
        with_node(t, node).lemma_filter_push(s.last(), p);
        without_node(t, node).lemma_filter_push(s.last(), p);
    }
}

/// Each trade is proven exactly once, together with trades of its own node only: for every node, the
/// chunks hold the trades that are assigned to it, all of them, in their order, and nothing else.
pub proof fn law_chunks_cover_every_trade(s: Seq<MatchSpec>, node: Id32)
    ensures
        strung(planned_chunks(s)).filter(|m: MatchSpec| m.assigned_node == node) == s.filter(
            |m: MatchSpec| m.assigned_node == node,
        ),
        strung(planned_chunks(s)).len() == s.len(),
        strung(planned_chunks(s)).to_multiset() == s.to_multiset(),
    decreases s.len(),
{
    let p = |m: MatchSpec| m.assigned_node == node;
    if s.len() > 0 {
        let first = s[0].assigned_node;
        let g = with_node(s, first);
        let h = without_node(s, first);
        lemma_node_split(s, first);
        law_chunks_cover_every_trade(h, node);
        lemma_chunks_string(g);
        lemma_strung_adds(chunks_of(g), planned_chunks(h));
        Seq::filter_distributes_over_add(g, strung(planned_chunks(h)), p);
        lemma_node_filters(s, first, node);
        if node == first {
            assert(g.filter(p) + Seq::<MatchSpec>::empty() =~= g.filter(p));
        } else {
            assert(Seq::<MatchSpec>::empty() + h.filter(p) =~= h.filter(p));
        }
        vstd::seq_lib::lemma_multiset_commutative(g, strung(planned_chunks(h)));
        lemma_node_multisets(s, first);
    } else {
        assert(strung(planned_chunks(s)) =~= s);
    }
}

proof fn lemma_node_multisets(s: Seq<MatchSpec>, node: Id32)
    ensures
        with_node(s, node).to_multiset().add(without_node(s, node).to_multiset())
            == s.to_multiset(),
    decreases s.len(),
{
    broadcast use vstd::seq_lib::group_to_multiset_ensures;

    if s.len() > 0 {
        let t = s.drop_last();
        lemma_node_multisets(t, node);
        assert(s =~= t.push(s.last()));
        if s.last().assigned_node == node {
            assert(with_node(t, node).to_multiset().insert(s.last()).add(
                without_node(t, node).to_multiset(),
            ) =~= s.to_multiset());
        } else {
            assert(with_node(t, node).to_multiset().add(
                without_node(t, node).to_multiset().insert(s.last()),
            ) =~= s.to_multiset());
        }
    } else {
        assert(with_node(s, node).to_multiset().add(without_node(s, node).to_multiset())
            =~= s.to_multiset());
    }
}

/// As few proofs as eight trades each allow: of two chunks of one node the earlier is full, and none
/// is empty or over-full.
pub proof fn law_chunks_are_full(s: Seq<MatchSpec>, i: int, j: int)
    requires
        0 <= i < j < planned_chunks(s).len(),
        planned_chunks(s)[i][0].assigned_node == planned_chunks(s)[j][0].assigned_node,
    ensures
        planned_chunks(s)[i].len() == 8,
        1 <= planned_chunks(s)[j].len() <= 8,
    decreases s.len(),
{
    let node = s[0].assigned_node;
    let g = with_node(s, node);
    let h = without_node(s, node);
    lemma_node_split(s, node);
    lemma_chunks_string(g);
    let c = chunks_of(g);
    let k = c.len() as int;
    law_chunks_are_of_one_node(s);
    assert(is_chunk(planned_chunks(s)[i]));
    assert(is_chunk(planned_chunks(s)[j]));
    if i >= k {
        assert(planned_chunks(s)[i] == planned_chunks(h)[i - k]);
        assert(planned_chunks(s)[j] == planned_chunks(h)[j - k]);
        law_chunks_are_full(h, i - k, j - k);
    } else {
        assert(planned_chunks(s)[i] == c[i]);
        if j >= k {
            assert(planned_chunks(s)[j] == planned_chunks(h)[j - k]);
            lemma_chunk_member(g, i);
            lemma_planned_member(h, j - k);
            lemma_with_node(s, node);
            lemma_without_node(s, node);
            assert(g.contains(c[i][0]));
            assert(h.contains(planned_chunks(h)[j - k][0]));
            let a = choose|a: int| 0 <= a < g.len() && g[a] == c[i][0];
            let b = choose|b: int| 0 <= b < h.len() && h[b] == planned_chunks(h)[j - k][0];
            assert(g[a].assigned_node == node);
            assert(h[b].assigned_node != node);
        }
    }
}

proof fn lemma_without_node(s: Seq<MatchSpec>, node: Id32)
    ensures
        forall|i: int|
            0 <= i < without_node(s, node).len() ==> (#[trigger] without_node(
                s,
                node,
            )[i]).assigned_node != node,
    decreases s.len(),
{
    if s.len() > 0 {
        lemma_without_node(s.drop_last(), node);
    }
}

proof fn lemma_chunk_member(s: Seq<MatchSpec>, i: int)
    requires
        0 <= i < chunks_of(s).len(),
    ensures
        chunks_of(s)[i].len() > 0,
        s.contains(chunks_of(s)[i][0]),
    decreases s.len(),
{
    if s.len() > MAX_BATCH_TRADES {
        let n = MAX_BATCH_TRADES as int;
        if i > 0 {
            lemma_chunk_member(s.skip(n), i - 1);
            assert(chunks_of(s)[i] == chunks_of(s.skip(n))[i - 1]);
            let x = chunks_of(s)[i][0];
            let k = choose|k: int| 0 <= k < s.skip(n).len() && s.skip(n)[k] == x;
            assert(s[k + n] == x);
        } else {
            assert(s[0] == chunks_of(s)[0][0]);
        }
    } else {
        assert(s[0] == chunks_of(s)[0][0]);
    }
}

proof fn lemma_planned_member(s: Seq<MatchSpec>, i: int)
    requires
        0 <= i < planned_chunks(s).len(),
    ensures
        planned_chunks(s)[i].len() > 0,
        s.contains(planned_chunks(s)[i][0]),
    decreases s.len(),
{
    let node = s[0].assigned_node;
    let g = with_node(s, node);
    let h = without_node(s, node);
    lemma_node_split(s, node);
    let k = chunks_of(g).len() as int;
    if i < k {
        lemma_chunk_member(g, i);
        assert(planned_chunks(s)[i] == chunks_of(g)[i]);
        let x = chunks_of(g)[i][0];
        let a = choose|a: int| 0 <= a < g.len() && g[a] == x;
        assert(s.contains(g[a]));
    } else {
        lemma_planned_member(h, i - k);
        assert(planned_chunks(s)[i] == planned_chunks(h)[i - k]);
        let x = planned_chunks(h)[i - k][0];
        let a = choose|a: int| 0 <= a < h.len() && h[a] == x;
        assert(s.contains(h[a]));
    }
}

/// What goes to the prover of a chunk are exactly the trades whose taker has at least their price
/// times their amount under their symbol, in their order.
pub proof fn law_payable_trades_are_proven(chunk: Seq<MatchSpec>, b: Balances)
    ensures
        solvent(chunk, b) == chunk.filter(
            |m: MatchSpec|
                m.price * m.amount == 0 || b.contains_key((m.taker_trader, m.symbol)) && m.price
                    * m.amount <= b[(m.taker_trader, m.symbol)],
        ),
    decreases chunk.len(),
{
    let p = |m: MatchSpec|
        m.price * m.amount == 0 || b.contains_key((m.taker_trader, m.symbol)) && m.price * m.amount
            <= b[(m.taker_trader, m.symbol)];
    reveal(Seq::filter);
    if chunk.len() > 0 {
        law_payable_trades_are_proven(chunk.drop_last(), b);
        let m = chunk.last();
        assert(0 <= m.price * m.amount) by (nonlinear_arith);
    }
}

/// What trades move adds up: nothing for no trade, price times amount for one, and for two lists what
/// both move.
pub proof fn law_values_add_up(a: Seq<MatchSpec>, b: Seq<MatchSpec>, m: MatchSpec)
    ensures
        total_value(Seq::<MatchSpec>::empty()) == 0,
        total_value(seq![m]) == m.price * m.amount,
        total_value(a + b) == total_value(a) + total_value(b),
{
    assert(0 <= m.price * m.amount) by (nonlinear_arith);
    assert(seq![m].drop_last() =~= Seq::empty());
    lemma_total_add(a, b);
}

/// What the prover is given: the trades, what each maker and each taker has under the trade's symbol
/// at that moment, a state root of zero to start from and one that reads as the sum of what the
/// trades move.
pub proof fn law_prover_sees_the_ledger(s: Seq<MatchSpec>, b: Balances, i: int)
    requires
        0 <= i < s.len(),
        total_value(s) <= u64::MAX,
    ensures
        ({
            let tb = batch_for(s, b);
            let maker = (s[i].maker_trader, s[i].symbol);
            let taker = (s[i].taker_trader, s[i].symbol);
            &&& tb.trades == s
            &&& tb.maker_balances.len() == s.len()
            &&& tb.taker_balances.len() == s.len()
            &&& tb.maker_balances[i] == if b.contains_key(maker) {
                b[maker]
            } else {
                0
            }
            &&& tb.taker_balances[i] == if b.contains_key(taker) {
                b[taker]
            } else {
                0
            }
            &&& tb.pre_state_root.len() == 32
            &&& be_value(tb.pre_state_root) == 0
            &&& tb.post_state_root.len() == 32
            &&& be_value(tb.post_state_root) == total_value(s)
        }),
{
    law_u64_word_value(0);
    law_u64_word_value(total_value(s) as u64);
    reveal(crate::bytes::be8);
    crate::bytes::lemma_be8_len(0);
    crate::bytes::lemma_be8_len(total_value(s) as u64);
    assert(crate::bytes::zeros(24) + crate::bytes::be8(0) =~= crate::bytes::zeros(32)) by {
        assert(forall|k: int| 0 <= k < 8 ==> crate::bytes::be8(0)[k] == 0) by {
            crate::bytes::law_be8_round_trip(0);
        }
    }
}

/// What trades ask of a trader who takes them, on one symbol.
pub open spec fn outgo(s: Seq<MatchSpec>, trader: Id32, symbol: Seq<char>) -> nat
    decreases s.len(),
{
    if s.len() == 0 {
        0
    } else if s.last().taker_trader == trader && s.last().symbol == symbol {
        outgo(s.drop_last(), trader, symbol) + s.last().price as nat * s.last().amount as nat
    } else {
        outgo(s.drop_last(), trader, symbol)
    }
}

/// What trades bring to a trader who made them, on one symbol.
pub open spec fn income(s: Seq<MatchSpec>, trader: Id32, symbol: Seq<char>) -> nat
    decreases s.len(),
{
    if s.len() == 0 {
        0
    } else if s.last().maker_trader == trader && s.last().symbol == symbol {
        income(s.drop_last(), trader, symbol) + s.last().price as nat * s.last().amount as nat
    } else {
        income(s.drop_last(), trader, symbol)
    }
}

proof fn lemma_moved_is(s: Seq<MatchSpec>, trader: Id32, symbol: Seq<char>, n: nat)
    requires
        n <= s.len(),
    ensures
        taken_from(s, (trader, symbol), n) == outgo(s.take(n as int), trader, symbol),
        given_to(s, (trader, symbol), n) == income(s.take(n as int), trader, symbol),
    decreases n,
{
    if n > 0 {
        lemma_moved_is(s, trader, symbol, (n - 1) as nat);
        let t = s.take(n as int);
        assert(t.drop_last() =~= s.take(n - 1));
        let m = s[n - 1];
        assert(t.last() == m);
        assert(m.price as nat * m.amount as nat == m.price * m.amount);
        assert(0 <= m.price * m.amount) by (nonlinear_arith);
    }
}

proof fn lemma_outgo_adds(a: Seq<MatchSpec>, b: Seq<MatchSpec>, trader: Id32, symbol: Seq<char>)
    ensures
        outgo(a + b, trader, symbol) == outgo(a, trader, symbol) + outgo(b, trader, symbol),
        income(a + b, trader, symbol) == income(a, trader, symbol) + income(b, trader, symbol),
    decreases b.len(),
{
    if b.len() > 0 {
        assert((a + b).drop_last() =~= a + b.drop_last());
        lemma_outgo_adds(a, b.drop_last(), trader, symbol);
    } else {
        assert(a + b =~= a);
    }
}

/// Every payer has what the trades ask of it.
pub open spec fn all_can_pay(b: Balances, s: Seq<MatchSpec>) -> bool {
    forall|trader: Id32, symbol: Seq<char>| #[trigger]
        outgo(s, trader, symbol) <= if b.contains_key((trader, symbol)) {
            b[(trader, symbol)] as int
        } else {
            0
        }
}

proof fn lemma_paid_where_all_can(b: Balances, s: Seq<MatchSpec>, n: nat)
    requires
        n <= s.len(),
    ensures
        paid(b, s, n) is Some <==> all_can_pay(b, s.take(n as int)),
    decreases n,
{
    let t = s.take(n as int);
    if n == 0 {
        assert forall|trader: Id32, symbol: Seq<char>| #[trigger]
            outgo(t, trader, symbol) == 0 by {}
    } else {
        let k = (n - 1) as nat;
        lemma_paid_where_all_can(b, s, k);
        let m = s[k as int];
        assert(t.drop_last() =~= s.take(k as int));
        assert(t.last() == m);
        assert(m.price as nat * m.amount as nat == m.price * m.amount);
        assert(0 <= m.price * m.amount) by (nonlinear_arith);
        if paid(b, s, k) is Some {
            lemma_paid_balance(b, s, (m.taker_trader, m.symbol), k);
            lemma_moved_is(s, m.taker_trader, m.symbol, k);
            if paid(b, s, n) is Some {
                assert forall|trader: Id32, symbol: Seq<char>| #[trigger]
                    outgo(t, trader, symbol) <= if b.contains_key((trader, symbol)) {
                        b[(trader, symbol)] as int
                    } else {
                        0
                    } by {
                    assert(outgo(s.take(k as int), trader, symbol) <= balance(
                        b,
                        (trader, symbol),
                    ));
                }
            } else {
                assert(outgo(t, m.taker_trader, m.symbol) > balance(
                    b,
                    (m.taker_trader, m.symbol),
                ));
            }
        } else {
            if all_can_pay(b, t) {
                assert forall|trader: Id32, symbol: Seq<char>| #[trigger]
                    outgo(s.take(k as int), trader, symbol) <= if b.contains_key(
                        (trader, symbol),
                    ) {
                        b[(trader, symbol)] as int
                    } else {
                        0
                    } by {
                    assert(outgo(t, trader, symbol) >= outgo(s.take(k as int), trader, symbol));
                }
                assert(false);
            }
        }
    }
}

/// All or nothing. A proven chunk settles exactly where every payer has what all of its trades ask
/// of it. Then each of its trades is settled, and every trader's balance loses price times amount of
/// what the trader took and gains price times amount of what the trader made, symbol by symbol.
/// Otherwise, or without a proof, no balance moves and nothing counts as settled.
pub proof fn law_chunks_settle_whole(
    st: RunState,
    s: Seq<MatchSpec>,
    tb: TradeBatchSpec,
    outcome: Option<Seq<u8>>,
    trader: Id32,
    symbol: Seq<char>,
)
    requires
        paid(st.balances, s, s.len()) matches Some(c) ==> earnings_fit(c, s) && st.batch.total_value
            + total_value(s) <= u64::MAX,
        s.len() <= usize::MAX,
    ensures
        ({
            let after = after_proof(st, s, tb, outcome);
            let k = (trader, symbol);
            if outcome is Some && all_can_pay(st.balances, s) {
                &&& after.batch.trades == st.batch.trades + s
                &&& after.batch.proofs == st.batch.proofs.push(outcome->0)
                &&& after.batch.counts == st.batch.counts.push(s.len() as usize)
                &&& after.batch.trade_batches == st.batch.trade_batches.push(tb)
                &&& after.batch.total_value == st.batch.total_value + total_value(s)
                &&& balance(after.balances, k) == balance(st.balances, k) - outgo(s, trader, symbol)
                    + income(s, trader, symbol)
            } else {
                after == st
            }
        }),
{
    let n = s.len();
    lemma_paid_where_all_can(st.balances, s, n);
    assert(s.take(n as int) =~= s);
    lemma_moved_is(s, trader, symbol, n);
    if outcome is Some && paid(st.balances, s, n) is Some {
        law_settlement_conserves(st, s, tb, outcome, (trader, symbol));
    }
}

proof fn lemma_outgo_of_one(s: Seq<MatchSpec>, i: int)
    requires
        0 <= i < s.len(),
    ensures
        s[i].price * s[i].amount <= outgo(s, s[i].taker_trader, s[i].symbol),
    decreases s.len(),
{
    let m = s.last();
    assert(m.price as nat * m.amount as nat == m.price * m.amount);
    assert(0 <= m.price * m.amount) by (nonlinear_arith);
    if i < s.len() - 1 {
        lemma_outgo_of_one(s.drop_last(), i);
        assert(s.drop_last()[i] == s[i]);
    }
}

proof fn lemma_all_solvent(chunk: Seq<MatchSpec>, b: Balances)
    requires
        forall|i: int|
            0 <= i < chunk.len() ==> trade_value(#[trigger] chunk[i]) <= balance(
                b,
                taker_key(chunk[i]),
            ),
    ensures
        solvent(chunk, b) == chunk,
    decreases chunk.len(),
{
    if chunk.len() > 0 {
        let t = chunk.drop_last();
        assert forall|i: int| 0 <= i < t.len() implies trade_value(#[trigger] t[i]) <= balance(
            b,
            taker_key(t[i]),
        ) by {
            assert(t[i] == chunk[i]);
        }
        lemma_all_solvent(t, b);
        assert(trade_value(chunk[chunk.len() - 1]) <= balance(
            b,
            taker_key(chunk[chunk.len() - 1]),
        ));
        assert(t.push(chunk.last()) =~= chunk);
    }
}

proof fn lemma_payable_chunk(b: Balances, chunk: Seq<MatchSpec>, rest: Seq<MatchSpec>)
    requires
        all_can_pay(b, chunk + rest),
    ensures
        solvent(chunk, b) == chunk,
        all_can_pay(b, chunk),
{
    let all = chunk + rest;
    assert forall|i: int| 0 <= i < chunk.len() implies trade_value(#[trigger] chunk[i])
        <= balance(b, taker_key(chunk[i])) by {
        let m = chunk[i];
        lemma_outgo_of_one(chunk, i);
        lemma_outgo_adds(chunk, rest, m.taker_trader, m.symbol);
        assert(outgo(all, m.taker_trader, m.symbol) <= balance(b, taker_key(m)));
    }
    lemma_all_solvent(chunk, b);
    assert forall|trader: Id32, symbol: Seq<char>| #[trigger]
        outgo(chunk, trader, symbol) <= if b.contains_key((trader, symbol)) {
            b[(trader, symbol)] as int
        } else {
            0
        } by {
        lemma_outgo_adds(chunk, rest, trader, symbol);
        assert(outgo(all, trader, symbol) <= balance(b, (trader, symbol)));
    }
}

proof fn lemma_payable_chunk_settles(
    t: RunState,
    chunk: Seq<MatchSpec>,
    rest: Seq<MatchSpec>,
    outcome: Option<Seq<u8>>,
)
    requires
        is_chunk(chunk),
        outcome is Some,
        all_can_pay(t.balances, chunk + rest),
        chunk_fits(t.balances, t.batch.total_value, chunk),
    ensures
        after_chunk(t, chunk, outcome).batch.trades == t.batch.trades + chunk,
        all_can_pay(after_chunk(t, chunk, outcome).balances, rest),
{
    let all = chunk + rest;
    let tb = batch_for(chunk, t.balances);
    lemma_payable_chunk(t.balances, chunk, rest);
    let u = after_chunk(t, chunk, outcome);
    assert(u == after_proof(t, chunk, tb, outcome));
    assert forall|trader: Id32, symbol: Seq<char>| #[trigger]
        outgo(rest, trader, symbol) <= if u.balances.contains_key((trader, symbol)) {
            u.balances[(trader, symbol)] as int
        } else {
            0
        } by {
        law_chunks_settle_whole(t, chunk, tb, outcome, trader, symbol);
        lemma_outgo_adds(chunk, rest, trader, symbol);
        assert(outgo(all, trader, symbol) <= balance(t.balances, (trader, symbol)));
    }
    law_chunks_settle_whole(t, chunk, tb, outcome, arbitrary(), arbitrary());
}

#[verifier::rlimit(60)]
proof fn lemma_all_chunks_settle<P: ProverBackend>(
    prover: P,
    st: RunState,
    chunks: Seq<Seq<MatchSpec>>,
    outcomes: Seq<Option<Seq<u8>>>,
    n: nat,
)
    requires
        n <= chunks.len(),
        outcomes.len() == chunks.len(),
        st.batch == empty_batch(),
        stages_fit(seq![chunks], 0, 0, st.balances, 0),
        forall|i: int| 0 <= i < chunks.len() ==> is_chunk(#[trigger] chunks[i]),
        all_answered(prover, st, chunks, outcomes, chunks.len()),
        forall|tb: TradeBatchSpec, o: Option<Seq<u8>>| #[trigger]
            answered(prover, tb, o) ==> o is Some,
        all_can_pay(st.balances, strung(chunks)),
    ensures
        ({
            let t = after_chunks(st, chunks, outcomes, n);
            &&& t.batch.trades == strung(chunks.take(n as int))
            &&& all_can_pay(t.balances, strung(chunks.skip(n as int)))
        }),
    decreases n,
{
    if n == 0 {
        assert(chunks.skip(0) =~= chunks);
        assert(chunks.take(0) =~= Seq::empty());
    } else {
        let k = (n - 1) as nat;
        lemma_all_chunks_settle(prover, st, chunks, outcomes, k);
        let t = after_chunks(st, chunks, outcomes, k);
        let chunk = chunks[k as int];
        let rest = strung(chunks.skip(n as int));
        assert(is_chunk(chunk));
        assert(strung(chunks.skip(k as int)) == chunk + rest) by {
            assert(chunks.skip(k as int) =~= seq![chunk] + chunks.skip(n as int));
            lemma_strung_one(chunk);
            lemma_strung_adds(seq![chunk], chunks.skip(n as int));
        }
        lemma_payable_chunk(t.balances, chunk, rest);
        assert(outcomes[k as int] is Some) by {
            assert(chunk_answered(prover, t.balances, chunks[k as int], outcomes[k as int]));
        }
        assert(chunk_fits(t.balances, t.batch.total_value, chunk)) by {
            lemma_chunks_conserve(st, seq![chunks], 0, outcomes, k, (arbitrary(), arbitrary()));
        }
        lemma_payable_chunk_settles(t, chunk, rest, outcomes[k as int]);
        assert(strung(chunks.take(n as int)) == strung(chunks.take(k as int)) + chunk) by {
            assert(chunks.take(n as int).drop_last() =~= chunks.take(k as int));
            assert(chunks.take(n as int).last() == chunk);
        }
    }
}

/// Nothing that can settle is left out: where the prover never fails and every payer has what all
/// trades ask of it, the batch holds every trade, each exactly once.
pub proof fn law_payable_trades_settle<P: ProverBackend>(
    prover: P,
    before: Balances,
    trades: Seq<MatchSpec>,
    batch: BatchSpec,
    after: Balances,
)
    requires
        settles_as(prover, before, trades, batch, after),
        stages_fit(seq![planned_chunks(trades)], 0, 0, before, 0),
        forall|tb: TradeBatchSpec, o: Option<Seq<u8>>| #[trigger]
            answered(prover, tb, o) ==> o is Some,
        all_can_pay(before, trades),
    ensures
        batch.trades.to_multiset() == trades.to_multiset(),
        batch.trades.len() == trades.len(),
{
    let chunks = planned_chunks(trades);
    let st = RunState { balances: before, batch: empty_batch() };
    let outcomes = choose|outcomes: Seq<Option<Seq<u8>>>|
        outcomes.len() == planned_chunks(trades).len() && #[trigger] after_chunks(
            RunState { balances: before, batch: empty_batch() },
            planned_chunks(trades),
            outcomes,
            planned_chunks(trades).len(),
        ) == (RunState { balances: after, batch }) && all_answered(
            prover,
            RunState { balances: before, batch: empty_batch() },
            planned_chunks(trades),
            outcomes,
            planned_chunks(trades).len(),
        );
    law_chunks_are_of_one_node(trades);
    law_chunks_cover_every_trade(trades, arbitrary());
    let all = strung(chunks);
    assert forall|trader: Id32, symbol: Seq<char>| #[trigger] outgo(all, trader, symbol) == outgo(
        trades,
        trader,
        symbol,
    ) by {
        lemma_outgo_of_same(all, trades, trader, symbol);
    }
    assert(all_can_pay(before, all)) by {
        assert forall|trader: Id32, symbol: Seq<char>| #[trigger]
            outgo(all, trader, symbol) <= if before.contains_key((trader, symbol)) {
                before[(trader, symbol)] as int
            } else {
                0
            } by {
            assert(outgo(trades, trader, symbol) <= balance(before, (trader, symbol)));
        }
    }
    lemma_all_chunks_settle(prover, st, chunks, outcomes, chunks.len());
    assert(chunks.take(chunks.len() as int) =~= chunks);
}

proof fn lemma_outgo_of_same(
    a: Seq<MatchSpec>,
    b: Seq<MatchSpec>,
    trader: Id32,
    symbol: Seq<char>,
)
    requires
        a.to_multiset() == b.to_multiset(),
    ensures
        outgo(a, trader, symbol) == outgo(b, trader, symbol),
    decreases a.len(),
{
    broadcast use vstd::seq_lib::group_to_multiset_ensures;

    if a.len() > 0 {
        let x = a.last();
        assert(a.contains(x));
        assert(a.to_multiset().count(x) > 0);
        assert(b.contains(x));
        let i = choose|i: int| 0 <= i < b.len() && b[i] == x;
        let c = b.remove(i);
        assert(a.drop_last() =~= a.remove(a.len() - 1));
        assert(a.drop_last().to_multiset() =~= c.to_multiset());
        lemma_outgo_of_same(a.drop_last(), c, trader, symbol);
        let l = b.take(i);
        let r = b.skip(i + 1);
        assert(b =~= l + seq![x] + r);
        assert(c =~= l + r);
        assert(seq![x].drop_last() =~= Seq::empty());
        assert(seq![x].last() == x);
        assert(outgo(seq![x].drop_last(), trader, symbol) == 0);
        lemma_outgo_adds(l + seq![x], r, trader, symbol);
        lemma_outgo_adds(l, seq![x], trader, symbol);
        lemma_outgo_adds(l, r, trader, symbol);
        assert(outgo(seq![x], trader, symbol) == if x.taker_trader == trader && x.symbol == symbol {
            x.price as nat * x.amount as nat
        } else {
            0
        });
    } else {
        assert(b.len() == 0) by {
            assert(a.to_multiset().len() == 0);
        }
    }
}

/// A settled batch is reported trade by trade, each with the maker's order and the time that its tier
/// allows: a minute, an hour or a day.
pub proof fn law_reports_follow_the_trades(s: Seq<MatchSpec>, i: int)
    requires
        0 <= i < s.len(),
    ensures
        reports_of(s).len() == s.len(),
        reports_of(s)[i].0 == s[i].maker_order_id,
        reports_of(s)[i].1 == match s[i].settlement_tier {
            SettlementPreference::Instant => 60u64,
            SettlementPreference::Express => 3_600u64,
            SettlementPreference::Standard => 86_400u64,
        },
{
}

proof fn lemma_without_node_filters(s: Seq<MatchSpec>, node: Id32)
    ensures
        without_node(s, node) == s.filter(|m: MatchSpec| m.assigned_node != node),
    decreases s.len(),
{
    reveal(Seq::filter);
    if s.len() > 0 {
        lemma_without_node_filters(s.drop_last(), node);
    }
}

/// Whose trade came first is served first: the first chunk begins with the first trade, and behind the
/// chunks of that trade's node come those that the other trades alone would be put in.
pub proof fn law_earlier_nodes_are_served_first(s: Seq<MatchSpec>)
    requires
        s.len() > 0,
    ensures
        ({
            let node = s[0].assigned_node;
            let all = planned_chunks(s);
            let rest = planned_chunks(s.filter(|m: MatchSpec| m.assigned_node != node));
            &&& all.len() > rest.len()
            &&& all[0].len() > 0 && all[0][0] == s[0]
            &&& all.skip(all.len() - rest.len()) == rest
            &&& forall|i: int|
                0 <= i < all.len() - rest.len() ==> (#[trigger] all[i])[0].assigned_node == node
        }),
{
    let node = s[0].assigned_node;
    let g = with_node(s, node);
    let h = without_node(s, node);
    let all = planned_chunks(s);
    let rest = planned_chunks(h);
    lemma_node_split(s, node);
    lemma_without_node_filters(s, node);
    lemma_chunks_string(g);
    lemma_first_kept(s, node);
    lemma_with_node(s, node);
    assert(all == chunks_of(g) + rest);
    assert(all.skip(chunks_of(g).len() as int) =~= rest);
    assert forall|i: int| 0 <= i < chunks_of(g).len() implies (
    #[trigger] all[i])[0].assigned_node == node by {
        assert(all[i] == chunks_of(g)[i]);
        lemma_chunk_member(g, i);
    }
    assert(all[0] == chunks_of(g)[0]);
}

proof fn lemma_first_kept(s: Seq<MatchSpec>, node: Id32)
    requires
        s.len() > 0,
        s[0].assigned_node == node,
    ensures
        with_node(s, node).len() > 0,
        with_node(s, node)[0] == s[0],
    decreases s.len(),
{
    if s.len() > 1 {
        lemma_first_kept(s.drop_last(), node);
    } else {
        assert(with_node(s.drop_last(), node) =~= Seq::empty());
    }
}

} // verus!
