//! When the queues can be flushed without any sum growing too large.

use crate::batcher::{
    chunk_fits, chunks_of, earned, earnings_fit, flush_fits, flushed, lemma_node_split,
    lemma_total_prefix, lemma_total_push, maker_key, paid, planned_chunks, solvent, stage_chunks,
    stages_fit, total_value, trade_value, values_fit, with_node, without_node, BatcherSpec,
    SettlementBatcher, MAX_BATCH_TRADES,
};
use crate::bytes::Id32;
use crate::ledger::{balance, Balances};
use crate::types::{matches_view, Match, MatchSpec};
use vstd::prelude::*;

verus! {

/// Everything that waits.
pub open spec fn waiting(b: BatcherSpec) -> Seq<MatchSpec> {
    b.instant + b.express + b.standard
}

/// All that waits can be paid to any one maker.
pub open spec fn roomy(b: BatcherSpec) -> bool {
    &&& total_value(waiting(b)) <= u64::MAX
    &&& forall|i: int|
        0 <= i < waiting(b).len() ==> balance(b.balances, maker_key(#[trigger] waiting(b)[i]))
            + total_value(waiting(b)) <= u64::MAX
}

pub(crate) proof fn lemma_total_add(a: Seq<MatchSpec>, b: Seq<MatchSpec>)
    ensures
        total_value(a + b) == total_value(a) + total_value(b),
    decreases b.len(),
{
    if b.len() == 0 {
        assert(a + b =~= a);
    } else {
        lemma_total_add(a, b.drop_last());
        assert((a + b).drop_last() =~= a + b.drop_last());
    }
}

/// What the chunks of a stage move, from the `i`-th on.
spec fn stage_rest(stage: Seq<Seq<MatchSpec>>, i: nat) -> nat
    decreases stage.len() - i,
{
    if i >= stage.len() {
        0
    } else {
        total_value(stage[i as int]) + stage_rest(stage, i + 1)
    }
}

/// What all chunks move, from chunk `i` of stage `j` on.
spec fn all_rest(stages: Seq<Seq<Seq<MatchSpec>>>, j: nat, i: nat) -> nat
    decreases stages.len() - j,
{
    if j >= stages.len() {
        0
    } else {
        stage_rest(stages[j as int], i) + all_rest(stages, j + 1, 0)
    }
}

proof fn lemma_rest_of_two(a: Seq<Seq<MatchSpec>>, b: Seq<Seq<MatchSpec>>, i: nat)
    ensures
        i <= a.len() ==> stage_rest(a + b, i) == stage_rest(a, i) + stage_rest(b, 0),
        i >= a.len() ==> stage_rest(a + b, i) == stage_rest(b, (i - a.len()) as nat),
    decreases a.len() + b.len() - i,
{
    if i < a.len() + b.len() {
        lemma_rest_of_two(a, b, i + 1);
    }
}

proof fn lemma_chunks_total(s: Seq<MatchSpec>)
    ensures
        stage_rest(chunks_of(s), 0) == total_value(s),
    decreases s.len(),
{
    let n = MAX_BATCH_TRADES as int;
    if s.len() == 0 {
    } else if s.len() <= MAX_BATCH_TRADES {
        assert(stage_rest(seq![s], 1) == 0);
        assert(stage_rest(seq![s], 0) == total_value(s));
    } else {
        let head = seq![s.take(n)];
        lemma_chunks_total(s.skip(n));
        lemma_rest_of_two(head, chunks_of(s.skip(n)), 0);
        assert(stage_rest(head, 1) == 0);
        assert(stage_rest(head, 0) == total_value(s.take(n)));
        lemma_total_add(s.take(n), s.skip(n));
        assert(s.take(n) + s.skip(n) =~= s);
    }
}

proof fn lemma_split_total(s: Seq<MatchSpec>, node: Id32)
    ensures
        total_value(with_node(s, node)) + total_value(without_node(s, node)) == total_value(s),
    decreases s.len(),
{
    if s.len() > 0 {
        lemma_split_total(s.drop_last(), node);
        lemma_total_push(with_node(s.drop_last(), node), s.last());
        lemma_total_push(without_node(s.drop_last(), node), s.last());
    }
}

/// The makers of all trades are among `keys`.
spec fn makers_in(s: Seq<MatchSpec>, keys: Set<(Id32, Seq<char>)>) -> bool {
    forall|i: int| 0 <= i < s.len() ==> keys.contains(maker_key(#[trigger] s[i]))
}

proof fn lemma_makers_in(
    s: Seq<MatchSpec>,
    t: Seq<MatchSpec>,
    keys: Set<(Id32, Seq<char>)>,
)
    requires
        makers_in(s, keys),
        forall|i: int| 0 <= i < t.len() ==> s.contains(#[trigger] t[i]),
    ensures
        makers_in(t, keys),
{
    assert forall|i: int| 0 <= i < t.len() implies keys.contains(maker_key(#[trigger] t[i])) by {
        assert(s.contains(t[i]));
        let k = choose|k: int| 0 <= k < s.len() && s[k] == t[i];
        assert(keys.contains(maker_key(s[k])));
    }
}

proof fn lemma_chunks_makers(s: Seq<MatchSpec>, keys: Set<(Id32, Seq<char>)>)
    requires
        makers_in(s, keys),
    ensures
        forall|i: int| 0 <= i < chunks_of(s).len() ==> makers_in(#[trigger] chunks_of(s)[i], keys),
    decreases s.len(),
{
    let n = MAX_BATCH_TRADES as int;
    if s.len() > MAX_BATCH_TRADES {
        let t = s.skip(n);
        assert forall|i: int| 0 <= i < t.len() implies s.contains(#[trigger] t[i]) by {
            assert(s[i + n] == t[i]);
        }
        lemma_makers_in(s, t, keys);
        lemma_makers_in(s, s.take(n), keys);
        lemma_chunks_makers(t, keys);
        assert forall|i: int| 0 <= i < chunks_of(s).len() implies makers_in(
            #[trigger] chunks_of(s)[i],
            keys,
        ) by {
            if i > 0 {
                assert(chunks_of(s)[i] == chunks_of(t)[i - 1]);
            }
        }
    }
}

/// The chunks of a list move what the list moves, and are made of its trades.
proof fn lemma_planned(s: Seq<MatchSpec>, keys: Set<(Id32, Seq<char>)>)
    requires
        makers_in(s, keys),
    ensures
        stage_rest(planned_chunks(s), 0) == total_value(s),
        forall|i: int|
            0 <= i < planned_chunks(s).len() ==> makers_in(#[trigger] planned_chunks(s)[i], keys),
    decreases s.len(),
{
    if s.len() > 0 {
        let node = s[0].assigned_node;
        let g = with_node(s, node);
        let h = without_node(s, node);
        lemma_node_split(s, node);
        lemma_split_total(s, node);
        lemma_makers_in(s, g, keys);
        lemma_makers_in(s, h, keys);
        lemma_chunks_total(g);
        lemma_chunks_makers(g, keys);
        lemma_planned(h, keys);
        lemma_rest_of_two(chunks_of(g), planned_chunks(h), 0);
        assert forall|i: int| 0 <= i < planned_chunks(s).len() implies makers_in(
            #[trigger] planned_chunks(s)[i],
            keys,
        ) by {
            let k = chunks_of(g).len();
            if i < k {
                assert(planned_chunks(s)[i] == chunks_of(g)[i]);
            } else {
                assert(planned_chunks(s)[i] == planned_chunks(h)[i - k]);
            }
        }
    }
}

proof fn lemma_solvent_total(chunk: Seq<MatchSpec>, b: Balances, keys: Set<(Id32, Seq<char>)>)
    requires
        makers_in(chunk, keys),
    ensures
        total_value(solvent(chunk, b)) <= total_value(chunk),
        makers_in(solvent(chunk, b), keys),
    decreases chunk.len(),
{
    if chunk.len() > 0 {
        lemma_makers_in(chunk, chunk.drop_last(), keys);
        lemma_solvent_total(chunk.drop_last(), b, keys);
        lemma_total_push(solvent(chunk.drop_last(), b), chunk.last());
        assert(keys.contains(maker_key(chunk[chunk.len() - 1])));
    }
}

proof fn lemma_paid_lowers(b: Balances, s: Seq<MatchSpec>, n: nat, k: (Id32, Seq<char>))
    requires
        paid(b, s, n) is Some,
    ensures
        balance(paid(b, s, n)->0, k) <= balance(b, k),
    decreases n,
{
    if n > 0 {
        lemma_paid_lowers(b, s, (n - 1) as nat, k);
    }
}

/// Every balance under `keys` has room for `more`.
spec fn room_for(b: Balances, keys: Set<(Id32, Seq<char>)>, more: nat) -> bool {
    forall|k: (Id32, Seq<char>)| #[trigger] keys.contains(k) ==> balance(b, k) + more <= u64::MAX
}

proof fn lemma_earned_raises(
    b: Balances,
    s: Seq<MatchSpec>,
    n: nat,
    keys: Set<(Id32, Seq<char>)>,
    k: (Id32, Seq<char>),
)
    requires
        n <= s.len(),
        makers_in(s, keys),
        room_for(b, keys, total_value(s)),
        keys.contains(k),
    ensures
        balance(earned(b, s, n), k) <= balance(b, k) + total_value(s.take(n as int)),
    decreases n,
{
    if n > 0 {
        let m = s[n - 1];
        lemma_earned_raises(b, s, (n - 1) as nat, keys, k);
        lemma_earned_raises(b, s, (n - 1) as nat, keys, maker_key(m));
        assert(s.take(n as int).drop_last() =~= s.take(n - 1));
        lemma_total_prefix(s, n as int);
    }
}

/// One chunk finds room, and leaves the rest of it to those that follow.
proof fn lemma_chunk_room(
    b: Balances,
    total: u64,
    chunk: Seq<MatchSpec>,
    more: nat,
    keys: Set<(Id32, Seq<char>)>,
)
    requires
        makers_in(chunk, keys),
        room_for(b, keys, total_value(chunk) + more),
        total + total_value(chunk) + more <= u64::MAX,
    ensures
        chunk_fits(b, total, chunk),
        total + total_value(solvent(chunk, b)) + more <= u64::MAX,
        ({
            let s = solvent(chunk, b);
            paid(b, s, s.len()) is Some ==> room_for(
                earned(paid(b, s, s.len())->0, s, s.len()),
                keys,
                more,
            )
        }),
{
    let s = solvent(chunk, b);
    lemma_solvent_total(chunk, b, keys);
    if let Some(c) = paid(b, s, s.len()) {
        assert forall|k: (Id32, Seq<char>)| #[trigger] keys.contains(k) implies balance(c, k)
            <= balance(b, k) by {
            lemma_paid_lowers(b, s, s.len(), k);
        }
        assert(room_for(c, keys, total_value(s)));
        assert forall|i: int| 0 <= i < s.len() implies balance(
            earned(c, s, i as nat),
            maker_key(#[trigger] s[i]),
        ) + trade_value(s[i]) <= u64::MAX by {
            assert(keys.contains(maker_key(s[i])));
            lemma_earned_raises(c, s, i as nat, keys, maker_key(s[i]));
            assert(s.take(i + 1).drop_last() =~= s.take(i));
            lemma_total_prefix(s, i + 1);
        }
        assert(earnings_fit(c, s));
        assert forall|k: (Id32, Seq<char>)| #[trigger] keys.contains(k) implies balance(
            earned(c, s, s.len()),
            k,
        ) + more <= u64::MAX by {
            lemma_earned_raises(c, s, s.len(), keys, k);
            assert(s.take(s.len() as int) =~= s);
        }
    }
}

proof fn lemma_stages_fit(
    stages: Seq<Seq<Seq<MatchSpec>>>,
    j: nat,
    i: nat,
    b: Balances,
    total: u64,
    keys: Set<(Id32, Seq<char>)>,
)
    requires
        forall|x: int, y: int|
            0 <= x < stages.len() && 0 <= y < stages[x].len() ==> makers_in(
                #[trigger] stages[x][y],
                keys,
            ),
        room_for(b, keys, all_rest(stages, j, i)),
        total + all_rest(stages, j, i) <= u64::MAX,
    ensures
        stages_fit(stages, j, i, b, total),
    decreases stages.len() - j, stages[j as int].len() - i,
{
    if j < stages.len() {
        if i >= stages[j as int].len() {
            assert(stage_rest(stages[j as int], i) == 0);
            if j + 1 < stages.len() {
                assert(all_rest(stages, j, i) == all_rest(stages, j + 1, 0));
            }
            lemma_stages_fit(stages, j + 1, 0, b, 0, keys);
        } else {
            let chunk = stages[j as int][i as int];
            let more = all_rest(stages, j, i + 1);
            assert(all_rest(stages, j, i) == total_value(chunk) + more);
            assert(makers_in(stages[j as int][i as int], keys));
            lemma_chunk_room(b, total, chunk, more, keys);
            lemma_stages_fit(stages, j, i + 1, b, total, keys);
            let s = solvent(chunk, b);
            if s.len() > 0 && paid(b, s, s.len()) is Some {
                lemma_stages_fit(
                    stages,
                    j,
                    i + 1,
                    earned(paid(b, s, s.len())->0, s, s.len()),
                    (total + total_value(s)) as u64,
                    keys,
                );
            }
        }
    }
}

proof fn lemma_values_fit(s: Seq<MatchSpec>)
    requires
        total_value(s) <= u64::MAX,
    ensures
        values_fit(s),
{
    assert forall|i: int| 0 <= i < s.len() implies trade_value(#[trigger] s[i]) <= u64::MAX by {
        assert(s.take(i + 1).drop_last() =~= s.take(i));
        lemma_total_prefix(s, i + 1);
    }
}

/// Queues that are roomy can be flushed at any time, whatever the prover answers.
pub proof fn law_roomy_queues_can_be_flushed(b: BatcherSpec, now: u64)
    requires
        roomy(b),
    ensures
        flush_fits(b, now),
{
    let w = waiting(b);
    let keys = Set::new(
        |k: (Id32, Seq<char>)| exists|i: int| 0 <= i < w.len() && maker_key(#[trigger] w[i]) == k,
    );
    assert(makers_in(w, keys));
    let stages = flushed(b, now);
    let chunks = stage_chunks(stages);
    lemma_total_add(b.instant + b.express, b.standard);
    lemma_total_add(b.instant, b.express);
    lemma_total_prefix(b.instant, if b.instant.len() > 0 {
        1
    } else {
        0
    });
    assert(forall|m: MatchSpec| b.instant.contains(m) ==> w.contains(m)) by {
        assert forall|m: MatchSpec| b.instant.contains(m) implies w.contains(m) by {
            let k = choose|k: int| 0 <= k < b.instant.len() && b.instant[k] == m;
            assert(w[k] == m);
        }
    }
    assert(forall|m: MatchSpec| b.express.contains(m) ==> w.contains(m)) by {
        assert forall|m: MatchSpec| b.express.contains(m) implies w.contains(m) by {
            let k = choose|k: int| 0 <= k < b.express.len() && b.express[k] == m;
            assert(w[b.instant.len() + k] == m);
        }
    }
    assert(forall|m: MatchSpec| b.standard.contains(m) ==> w.contains(m)) by {
        assert forall|m: MatchSpec| b.standard.contains(m) implies w.contains(m) by {
            let k = choose|k: int| 0 <= k < b.standard.len() && b.standard[k] == m;
            assert(w[b.instant.len() + b.express.len() + k] == m);
        }
    }
    assert forall|x: int| 0 <= x < stages.len() implies makers_in(#[trigger] stages[x], keys)
        && total_value(stages[x]) <= u64::MAX by {
        let s = stages[x];
        assert forall|i: int| 0 <= i < s.len() implies w.contains(#[trigger] s[i]) by {
            if b.instant.len() > 0 && x == 0 {
                assert(s == b.instant.take(1));
                assert(b.instant.contains(b.instant[i]));
            } else if s == b.express {
                assert(b.express.contains(s[i]));
            } else {
                assert(s == b.standard);
                assert(b.standard.contains(s[i]));
            }
        }
        lemma_makers_in(w, s, keys);
    }
    assert forall|x: int| 0 <= x < stages.len() implies values_fit(#[trigger] stages[x]) by {
        lemma_values_fit(stages[x]);
    }
    assert forall|x: int| 0 <= x < stages.len() implies stage_rest(#[trigger] chunks[x], 0)
        == total_value(stages[x]) && forall|y: int|
        0 <= y < chunks[x].len() ==> makers_in(#[trigger] chunks[x][y], keys) by {
        lemma_planned(stages[x], keys);
    }
    reveal_with_fuel(all_rest, 5);
    assert(all_rest(chunks, 0, 0) <= total_value(w));
    assert(room_for(b.balances, keys, all_rest(chunks, 0, 0)));
    lemma_stages_fit(chunks, 0, 0, b.balances, 0, keys);
}

/// Whether queues are roomy.
pub fn can_flush(b: &SettlementBatcher) -> (r: bool)
    ensures
        r == roomy(b@),
{
    let queued: Vec<Match> = b.queued_trades();
    let ghost w = waiting(b@);
    let mut total: u64 = 0;
    let mut i: usize = 0;
    while i < queued.len()
        invariant
            i <= queued@.len(),
            w == waiting(b@),
            matches_view(queued@) == w,
            total == total_value(w.take(i as int)),
        decreases queued@.len() - i,
    {
        let m: &Match = &queued[i];
        proof {
            assert(w[i as int] == m@);
            assert(w.take(i + 1).drop_last() =~= w.take(i as int));
            lemma_total_prefix(w, i + 1);
            assert(0 <= m.price * m.amount <= u128::MAX) by (nonlinear_arith)
                requires
                    0 <= m.price <= u64::MAX,
                    0 <= m.amount <= u64::MAX,
            ;
        }
        let value: u128 = m.price as u128 * m.amount as u128;
        if value > (u64::MAX - total) as u128 {
            return false;
        }
        total = total + value as u64;
        i = i + 1;
    }
    proof {
        assert(w.take(i as int) =~= w);
    }
    let mut j: usize = 0;
    while j < queued.len()
        invariant
            j <= queued@.len(),
            w == waiting(b@),
            matches_view(queued@) == w,
            total == total_value(w),
            forall|k: int|
                0 <= k < j ==> balance(b@.balances, maker_key(#[trigger] w[k])) + total
                    <= u64::MAX,
        decreases queued@.len() - j,
    {
        let m: &Match = &queued[j];
        assert(w[j as int] == m@);
        if b.balance_of(m.maker_trader, m.symbol.as_str()) > u64::MAX - total {
            return false;
        }
        j = j + 1;
    }
    true
}

} // verus!
