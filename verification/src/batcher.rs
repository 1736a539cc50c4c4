//! Settlement batches: queues per tier, chunks per node, solvency, and all-or-nothing transfers.

use crate::bytes::{be8, same_id, u64_to_bytes32, zeros, Id32};
use crate::clock::{micros_since, monotonic_now};
use crate::ledger::{balance, credited, debited, law_credit_undoes_debit, no_zero, BalanceLedger, Balances};
use crate::types::{matches_view, tier_seconds, Match, MatchSpec, SettlementPreference};
use std::time::Instant;
use vstd::prelude::*;

verus! {

/// How many trades one proof covers at most.
pub const MAX_BATCH_TRADES: usize = 8;

/// Trades that one proof covers, with the balances that they were checked against.
#[derive(Clone, Debug)]
pub struct TradeBatch {
    pub trades: Vec<Match>,
    pub maker_balances: Vec<u64>,
    pub taker_balances: Vec<u64>,
    pub pre_state_root: Id32,
    pub post_state_root: Id32,
}

/// What a [`TradeBatch`] stands for.
#[verifier::ext_equal]
pub struct TradeBatchSpec {
    pub trades: Seq<MatchSpec>,
    pub maker_balances: Seq<u64>,
    pub taker_balances: Seq<u64>,
    pub pre_state_root: Seq<u8>,
    pub post_state_root: Seq<u8>,
}

impl View for TradeBatch {
    type V = TradeBatchSpec;

    open spec fn view(&self) -> TradeBatchSpec {
        TradeBatchSpec {
            trades: matches_view(self.trades@),
            maker_balances: self.maker_balances@,
            taker_balances: self.taker_balances@,
            pre_state_root: self.pre_state_root@,
            post_state_root: self.post_state_root@,
        }
    }
}

/// Trades that were proven and settled. `proof_trade_counts[i]` is how many consecutive trades,
/// after those of the proofs before it, `proofs[i]` covers, and `trade_batches[i]` is what it was
/// made over. A trade that did not settle is not there.
#[derive(Clone, Debug)]
pub struct SettlementBatch {
    pub trades: Vec<Match>,
    pub total_value: u64,
    pub proofs: Vec<Vec<u8>>,
    pub proof_trade_counts: Vec<usize>,
    pub trade_batches: Vec<TradeBatch>,
}

/// What a [`SettlementBatch`] stands for.
#[verifier::ext_equal]
pub struct BatchSpec {
    pub trades: Seq<MatchSpec>,
    pub total_value: u64,
    pub proofs: Seq<Seq<u8>>,
    pub counts: Seq<usize>,
    pub trade_batches: Seq<TradeBatchSpec>,
}

impl View for SettlementBatch {
    type V = BatchSpec;

    open spec fn view(&self) -> BatchSpec {
        BatchSpec {
            trades: matches_view(self.trades@),
            total_value: self.total_value,
            proofs: Seq::new(self.proofs@.len(), |i: int| self.proofs@[i]@),
            counts: self.proof_trade_counts@,
            trade_batches: Seq::new(self.trade_batches@.len(), |i: int| self.trade_batches@[i]@),
        }
    }
}

/// Nothing has settled yet.
pub open spec fn empty_batch() -> BatchSpec {
    BatchSpec {
        trades: Seq::empty(),
        total_value: 0,
        proofs: Seq::empty(),
        counts: Seq::empty(),
        trade_batches: Seq::empty(),
    }
}

/// Who makes proofs. Nothing is assumed of the proofs, nor of when one is made.
pub trait ProverBackend {
    fn prove_batch(&self, batch: &TradeBatch) -> Result<Vec<u8>, String>;
}

/// The proof that an answer holds, if it holds one.
pub open spec fn answer_bytes(answer: Result<Vec<u8>, String>) -> Option<Seq<u8>> {
    match answer {
        Ok(p) => Some(p@),
        Err(_) => None,
    }
}

/// What a trade moves.
pub open spec fn trade_value(m: MatchSpec) -> nat {
    (m.price * m.amount) as nat
}

/// What trades move in all.
pub open spec fn total_value(s: Seq<MatchSpec>) -> nat
    decreases s.len(),
{
    if s.len() == 0 {
        0
    } else {
        total_value(s.drop_last()) + trade_value(s.last())
    }
}

/// The value of each trade fits in a machine word.
pub open spec fn values_fit(s: Seq<MatchSpec>) -> bool {
    forall|i: int| 0 <= i < s.len() ==> trade_value(#[trigger] s[i]) <= u64::MAX
}

/// Whose balance a trade is paid from, and whose it is paid to.
pub open spec fn taker_key(m: MatchSpec) -> (Id32, Seq<char>) {
    (m.taker_trader, m.symbol)
}

pub open spec fn maker_key(m: MatchSpec) -> (Id32, Seq<char>) {
    (m.maker_trader, m.symbol)
}

/// The trades that are assigned to a node, and the others.
pub open spec fn with_node(s: Seq<MatchSpec>, node: Id32) -> Seq<MatchSpec>
    decreases s.len(),
{
    if s.len() == 0 {
        Seq::empty()
    } else if s.last().assigned_node == node {
        with_node(s.drop_last(), node).push(s.last())
    } else {
        with_node(s.drop_last(), node)
    }
}

pub open spec fn without_node(s: Seq<MatchSpec>, node: Id32) -> Seq<MatchSpec>
    decreases s.len(),
{
    if s.len() == 0 {
        Seq::empty()
    } else if s.last().assigned_node != node {
        without_node(s.drop_last(), node).push(s.last())
    } else {
        without_node(s.drop_last(), node)
    }
}

/// A list cut into chunks of at most `MAX_BATCH_TRADES`.
pub open spec fn chunks_of(s: Seq<MatchSpec>) -> Seq<Seq<MatchSpec>>
    decreases s.len(),
{
    if s.len() == 0 {
        Seq::empty()
    } else if s.len() <= MAX_BATCH_TRADES {
        seq![s]
    } else {
        seq![s.take(MAX_BATCH_TRADES as int)] + chunks_of(s.skip(MAX_BATCH_TRADES as int))
    }
}

/// The chunks that trades are proven in: those of the first trade's node first, then those of the
/// node that the first other trade is assigned to, and so on.
pub open spec fn planned_chunks(s: Seq<MatchSpec>) -> Seq<Seq<MatchSpec>>
    decreases s.len(),
{
    if s.len() == 0 {
        Seq::empty()
    } else {
        let node = s[0].assigned_node;
        if without_node(s, node).len() < s.len() {
            chunks_of(with_node(s, node)) + planned_chunks(without_node(s, node))
        } else {
            Seq::empty()
        }
    }
}

/// The trades that the payers can pay, each taken by itself.
pub open spec fn solvent(chunk: Seq<MatchSpec>, b: Balances) -> Seq<MatchSpec>
    decreases chunk.len(),
{
    if chunk.len() == 0 {
        Seq::empty()
    } else if trade_value(chunk.last()) <= balance(b, taker_key(chunk.last())) {
        solvent(chunk.drop_last(), b).push(chunk.last())
    } else {
        solvent(chunk.drop_last(), b)
    }
}

/// What the prover is given for trades.
pub open spec fn batch_for(s: Seq<MatchSpec>, b: Balances) -> TradeBatchSpec {
    TradeBatchSpec {
        trades: s,
        maker_balances: Seq::new(s.len(), |i: int| balance(b, maker_key(s[i]))),
        taker_balances: Seq::new(s.len(), |i: int| balance(b, taker_key(s[i]))),
        pre_state_root: zeros(32),
        post_state_root: zeros(24) + be8(total_value(s) as u64),
    }
}

/// The balances once the first `n` trades are paid for, if each could be.
pub open spec fn paid(b: Balances, s: Seq<MatchSpec>, n: nat) -> Option<Balances>
    decreases n,
{
    if n == 0 {
        Some(b)
    } else {
        match paid(b, s, (n - 1) as nat) {
            Some(c) => if balance(c, taker_key(s[n - 1])) >= trade_value(s[n - 1]) {
                Some(debited(c, taker_key(s[n - 1]), trade_value(s[n - 1]) as u64))
            } else {
                None
            },
            None => None,
        }
    }
}

/// The balances once the makers of the first `n` trades have been paid.
pub open spec fn earned(b: Balances, s: Seq<MatchSpec>, n: nat) -> Balances
    decreases n,
{
    if n == 0 {
        b
    } else {
        credited(earned(b, s, (n - 1) as nat), maker_key(s[n - 1]), trade_value(s[n - 1]) as u64)
    }
}

/// No maker's balance grows too large.
pub open spec fn earnings_fit(b: Balances, s: Seq<MatchSpec>) -> bool {
    forall|i: int|
        0 <= i < s.len() ==> balance(earned(b, s, i as nat), maker_key(#[trigger] s[i]))
            + trade_value(s[i]) <= u64::MAX
}

/// Balances and what has settled so far.
#[verifier::ext_equal]
pub struct RunState {
    pub balances: Balances,
    pub batch: BatchSpec,
}

/// A proof came back, or none did. With a proof every trade of the chunk is paid, or, where one
/// payer falls short, none is and the chunk is dropped.
pub open spec fn after_proof(
    st: RunState,
    s: Seq<MatchSpec>,
    tb: TradeBatchSpec,
    outcome: Option<Seq<u8>>,
) -> RunState {
    match outcome {
        Some(proof) => match paid(st.balances, s, s.len()) {
            Some(b) => RunState {
                balances: earned(b, s, s.len()),
                batch: BatchSpec {
                    trades: st.batch.trades + s,
                    total_value: (st.batch.total_value + total_value(s)) as u64,
                    proofs: st.batch.proofs.push(proof),
                    counts: st.batch.counts.push(s.len() as usize),
                    trade_batches: st.batch.trade_batches.push(tb),
                },
            },
            None => st,
        },
        None => st,
    }
}

/// A chunk is dealt with: insolvent trades are dropped, and the rest goes to the prover.
pub open spec fn after_chunk(st: RunState, chunk: Seq<MatchSpec>, outcome: Option<Seq<u8>>) -> RunState {
    let s = solvent(chunk, st.balances);
    if s.len() == 0 {
        st
    } else {
        after_proof(st, s, batch_for(s, st.balances), outcome)
    }
}

/// The first `n` chunks are dealt with, the prover having answered each as listed.
pub open spec fn after_chunks(
    st: RunState,
    chunks: Seq<Seq<MatchSpec>>,
    outcomes: Seq<Option<Seq<u8>>>,
    n: nat,
) -> RunState
    decreases n,
{
    if n == 0 {
        st
    } else {
        after_chunk(
            after_chunks(st, chunks, outcomes, (n - 1) as nat),
            chunks[n - 1],
            outcomes[n - 1],
        )
    }
}

/// The prover, given `tb`, answered with this proof, or with none.
pub open spec fn answered<P: ProverBackend>(
    prover: P,
    tb: TradeBatchSpec,
    outcome: Option<Seq<u8>>,
) -> bool {
    exists|b: TradeBatch, a: Result<Vec<u8>, String>| #[trigger]
        call_ensures(P::prove_batch, (&prover, &b), a) && b@ == tb && answer_bytes(a) == outcome
}

/// Where a chunk has trades that can be paid, `outcome` is what the prover answered on exactly
/// those.
pub open spec fn chunk_answered<P: ProverBackend>(
    prover: P,
    b: Balances,
    chunk: Seq<MatchSpec>,
    outcome: Option<Seq<u8>>,
) -> bool {
    let s = solvent(chunk, b);
    s.len() > 0 ==> answered(prover, batch_for(s, b), outcome)
}

/// The prover answered each of the first `n` chunks as listed.
pub open spec fn all_answered<P: ProverBackend>(
    prover: P,
    st: RunState,
    chunks: Seq<Seq<MatchSpec>>,
    outcomes: Seq<Option<Seq<u8>>>,
    n: nat,
) -> bool {
    forall|i: int|
        0 <= i < n ==> chunk_answered(
            prover,
            after_chunks(st, chunks, outcomes, i as nat).balances,
            chunks[i],
            #[trigger] outcomes[i],
        )
}

/// `batch` is what trades came to, and `after` the balances that they left, the prover having been
/// asked about each chunk in turn.
pub open spec fn settles_as<P: ProverBackend>(
    prover: P,
    before: Balances,
    trades: Seq<MatchSpec>,
    batch: BatchSpec,
    after: Balances,
) -> bool {
    exists|outcomes: Seq<Option<Seq<u8>>>|
        outcomes.len() == planned_chunks(trades).len() && #[trigger] after_chunks(
            RunState { balances: before, batch: empty_batch() },
            planned_chunks(trades),
            outcomes,
            planned_chunks(trades).len(),
        ) == (RunState { balances: after, batch }) && all_answered(
            prover,
            RunState { balances: before, batch: empty_batch() },
            planned_chunks(trades),
            outcomes,
            planned_chunks(trades).len(),
        )
}

/// No sum grows too large for a machine word while a chunk is dealt with.
pub open spec fn chunk_fits(b: Balances, total: u64, chunk: Seq<MatchSpec>) -> bool {
    let s = solvent(chunk, b);
    &&& total_value(s) <= u64::MAX
    &&& s.len() > 0 ==> match paid(b, s, s.len()) {
        Some(c) => earnings_fit(c, s) && total + total_value(s) <= u64::MAX,
        None => true,
    }
}

/// No sum grows too large from chunk `i` of stage `j` on, whatever the prover answers. The total
/// starts anew with each stage.
pub open spec fn stages_fit(
    stages: Seq<Seq<Seq<MatchSpec>>>,
    j: nat,
    i: nat,
    b: Balances,
    total: u64,
) -> bool
    decreases stages.len() - j, stages[j as int].len() - i,
{
    if j >= stages.len() {
        true
    } else if i >= stages[j as int].len() {
        stages_fit(stages, j + 1, 0, b, 0)
    } else {
        let chunk = stages[j as int][i as int];
        let s = solvent(chunk, b);
        &&& chunk_fits(b, total, chunk)
        &&& stages_fit(stages, j, i + 1, b, total)
        &&& s.len() > 0 && paid(b, s, s.len()) is Some ==> stages_fit(
            stages,
            j,
            i + 1,
            earned(paid(b, s, s.len())->0, s, s.len()),
            (total + total_value(s)) as u64,
        )
    }
}

pub(crate) proof fn lemma_node_split(s: Seq<MatchSpec>, node: Id32)
    ensures
        with_node(s, node).len() + without_node(s, node).len() == s.len(),
        forall|i: int|
            0 <= i < with_node(s, node).len() ==> (#[trigger] with_node(s, node)[i]).assigned_node
                == node && s.contains(with_node(s, node)[i]),
        forall|i: int|
            0 <= i < without_node(s, node).len() ==> s.contains(
                #[trigger] without_node(s, node)[i],
            ),
        s.len() > 0 && s[0].assigned_node == node ==> with_node(s, node).len() > 0,
    decreases s.len(),
{
    if s.len() > 0 {
        let t = s.drop_last();
        lemma_node_split(t, node);
        assert(s.contains(s.last()));
        assert forall|i: int| 0 <= i < with_node(s, node).len() implies (
        #[trigger] with_node(s, node)[i]).assigned_node == node && s.contains(
            with_node(s, node)[i],
        ) by {
            if i < with_node(t, node).len() {
                let x = with_node(t, node)[i];
                assert(t.contains(x));
                let k = choose|k: int| 0 <= k < t.len() && t[k] == x;
                assert(s[k] == x);
            }
        }
        assert forall|i: int| 0 <= i < without_node(s, node).len() implies s.contains(
            #[trigger] without_node(s, node)[i],
        ) by {
            if i < without_node(t, node).len() {
                let x = without_node(t, node)[i];
                assert(t.contains(x));
                let k = choose|k: int| 0 <= k < t.len() && t[k] == x;
                assert(s[k] == x);
            }
        }
        if s[0].assigned_node == node {
            if s.len() > 1 {
                assert(t[0] == s[0]);
            }
        }
    }
}

/// An equal list of matches.
pub fn duplicate_matches(v: &Vec<Match>) -> (r: Vec<Match>)
    ensures
        matches_view(r@) == matches_view(v@),
{
    let mut out: Vec<Match> = Vec::new();
    let mut i: usize = 0;
    while i < v.len()
        invariant
            i <= v@.len(),
            matches_view(out@) == matches_view(v@).take(i as int),
        decreases v@.len() - i,
    {
        let m: Match = v[i].duplicate();
        let ghost o0 = out@;
        out.push(m);
        proof {
            assert(matches_view(out@) =~= matches_view(o0).push(m@));
            assert(matches_view(v@).take(i + 1) =~= matches_view(v@).take(i as int).push(m@));
        }
        i = i + 1;
    }
    proof {
        assert(matches_view(v@).take(i as int) =~= matches_view(v@));
    }
    out
}

/// The chunks of lists of matches, each by its view.
pub open spec fn chunks_view(s: Seq<Vec<Match>>) -> Seq<Seq<MatchSpec>> {
    Seq::new(s.len(), |i: int| matches_view(s[i]@))
}

fn push_chunks(out: &mut Vec<Vec<Match>>, group: Vec<Match>)
    ensures
        chunks_view(final(out)@) == chunks_view(old(out)@) + chunks_of(matches_view(group@)),
{
    let ghost all = chunks_of(matches_view(group@));
    let ghost start = chunks_view(out@);
    let mut rest: Vec<Match> = group;
    proof {
        assert(chunks_view(out@) + chunks_of(matches_view(rest@)) =~= start + all);
    }
    while rest.len() > MAX_BATCH_TRADES
        invariant
            chunks_view(out@) + chunks_of(matches_view(rest@)) == start + all,
        decreases rest@.len(),
    {
        let ghost r0 = matches_view(rest@);
        let ghost o0 = chunks_view(out@);
        let tail: Vec<Match> = rest.split_off(MAX_BATCH_TRADES);
        proof {
            assert(matches_view(rest@) =~= r0.take(MAX_BATCH_TRADES as int));
            assert(matches_view(tail@) =~= r0.skip(MAX_BATCH_TRADES as int));
        }
        let ghost head = matches_view(rest@);
        out.push(rest);
        proof {
            assert(chunks_view(out@) =~= o0.push(head));
            assert(chunks_view(out@) + chunks_of(matches_view(tail@)) =~= o0 + chunks_of(r0));
        }
        rest = tail;
    }
    if rest.len() > 0 {
        let ghost r0 = matches_view(rest@);
        let ghost o0 = chunks_view(out@);
        out.push(rest);
        proof {
            assert(chunks_view(out@) =~= o0.push(r0));
            assert(chunks_view(out@) =~= start + all);
        }
    } else {
        proof {
            assert(matches_view(rest@).len() == 0);
            assert(chunks_view(out@) =~= start + all);
        }
    }
}

/// Groups trades by the node that they are assigned to and cuts each group into chunks.
pub fn plan_chunks(trades: Vec<Match>) -> (r: Vec<Vec<Match>>)
    ensures
        chunks_view(r@) == planned_chunks(matches_view(trades@)),
{
    let ghost all = planned_chunks(matches_view(trades@));
    let mut out: Vec<Vec<Match>> = Vec::new();
    let mut rest: Vec<Match> = trades;
    proof {
        assert(chunks_view(out@) + planned_chunks(matches_view(rest@)) =~= all);
    }
    while rest.len() > 0
        invariant
            chunks_view(out@) + planned_chunks(matches_view(rest@)) == all,
        decreases rest@.len(),
    {
        let node: Id32 = rest[0].assigned_node;
        let ghost rv = matches_view(rest@);
        let ghost items = rest@;
        let ghost o0 = chunks_view(out@);
        let mut group: Vec<Match> = Vec::new();
        let mut others: Vec<Match> = Vec::new();
        proof {
            assert(matches_view(group@) =~= with_node(rv.take(0), node));
            assert(matches_view(others@) =~= without_node(rv.take(0), node));
        }
        for m in it: rest.into_iter()
            invariant
                it.seq() == items,
                rv == matches_view(items),
                matches_view(group@) == with_node(rv.take(it.index()), node),
                matches_view(others@) == without_node(rv.take(it.index()), node),
        {
            let ghost k = it.index();
            let ghost g0 = group@;
            let ghost h0 = others@;
            let ghost mv = m@;
            proof {
                assert(rv.take(k + 1).drop_last() =~= rv.take(k));
                assert(rv.take(k + 1).last() == mv);
            }
            if same_id(&m.assigned_node, &node) {
                group.push(m);
                proof {
                    assert(matches_view(group@) =~= matches_view(g0).push(mv));
                }
            } else {
                others.push(m);
                proof {
                    assert(matches_view(others@) =~= matches_view(h0).push(mv));
                }
            }
        }
        proof {
            assert(rv.take(rv.len() as int) =~= rv);
            lemma_node_split(rv, node);
        }
        push_chunks(&mut out, group);
        proof {
            assert(chunks_view(out@) + planned_chunks(matches_view(others@)) =~= o0
                + planned_chunks(rv));
        }
        rest = others;
    }
    proof {
        assert(chunks_view(out@) =~= all);
    }
    out
}

/// What a trade moves, as a machine word.
fn value_of(m: &Match) -> (r: u64)
    requires
        trade_value(m@) <= u64::MAX,
    ensures
        r == trade_value(m@),
{
    proof {
        assert(0 <= m.price * m.amount) by (nonlinear_arith);
    }
    m.price * m.amount
}

pub(crate) proof fn lemma_total_push(s: Seq<MatchSpec>, m: MatchSpec)
    ensures
        total_value(s.push(m)) == total_value(s) + trade_value(m),
{
    assert(s.push(m).drop_last() =~= s);
}

pub(crate) proof fn lemma_total_prefix(s: Seq<MatchSpec>, n: int)
    requires
        0 <= n <= s.len(),
    ensures
        total_value(s.take(n)) <= total_value(s),
    decreases s.len() - n,
{
    if n < s.len() {
        lemma_total_prefix(s, n + 1);
        assert(s.take(n + 1).drop_last() =~= s.take(n));
    } else {
        assert(s.take(n) =~= s);
    }
}

proof fn lemma_solvent_prefix(chunk: Seq<MatchSpec>, b: Balances, n: int)
    requires
        0 <= n <= chunk.len(),
    ensures
        total_value(solvent(chunk.take(n), b)) <= total_value(solvent(chunk, b)),
    decreases chunk.len() - n,
{
    if n < chunk.len() {
        lemma_solvent_prefix(chunk, b, n + 1);
        let t = chunk.take(n + 1);
        assert(t.drop_last() =~= chunk.take(n));
        lemma_total_push(solvent(chunk.take(n), b), t.last());
    } else {
        assert(chunk.take(n) =~= chunk);
    }
}

proof fn lemma_solvent_members(chunk: Seq<MatchSpec>, b: Balances)
    requires
        values_fit(chunk),
    ensures
        values_fit(solvent(chunk, b)),
        solvent(chunk, b).len() <= chunk.len(),
    decreases chunk.len(),
{
    if chunk.len() > 0 {
        assert(values_fit(chunk.drop_last())) by {
            assert forall|i: int| 0 <= i < chunk.drop_last().len() implies trade_value(
                #[trigger] chunk.drop_last()[i],
            ) <= u64::MAX by {
                assert(trade_value(chunk[i]) <= u64::MAX);
            }
        }
        lemma_solvent_members(chunk.drop_last(), b);
        assert(trade_value(chunk[chunk.len() - 1]) <= u64::MAX);
    }
}

/// What goes to the prover for a chunk: the trades that the payers can pay. `None` where there is
/// none.
pub fn prepare_chunk(ledger: &BalanceLedger, chunk: &Vec<Match>) -> (r: Option<TradeBatch>)
    requires
        values_fit(matches_view(chunk@)),
        total_value(solvent(matches_view(chunk@), ledger@)) <= u64::MAX,
    ensures
        ({
            let s = solvent(matches_view(chunk@), ledger@);
            match r {
                Some(tb) => s.len() > 0 && tb@ == batch_for(s, ledger@),
                None => s.len() == 0,
            }
        }),
{
    let ghost cv = matches_view(chunk@);
    let ghost b = ledger@;
    let mut trades: Vec<Match> = Vec::new();
    let mut maker_balances: Vec<u64> = Vec::new();
    let mut taker_balances: Vec<u64> = Vec::new();
    let mut sum: u64 = 0;
    let mut i: usize = 0;
    proof {
        assert(matches_view(trades@) =~= solvent(cv.take(0), b));
    }
    while i < chunk.len()
        invariant
            i <= chunk@.len(),
            cv == matches_view(chunk@),
            b == ledger@,
            values_fit(cv),
            total_value(solvent(cv, b)) <= u64::MAX,
            matches_view(trades@) == solvent(cv.take(i as int), b),
            sum == total_value(solvent(cv.take(i as int), b)),
            maker_balances@.len() == trades@.len(),
            taker_balances@.len() == trades@.len(),
            forall|k: int|
                0 <= k < trades@.len() ==> maker_balances@[k] == balance(
                    b,
                    maker_key((#[trigger] trades@[k])@),
                ),
            forall|k: int|
                0 <= k < trades@.len() ==> taker_balances@[k] == balance(
                    b,
                    taker_key((#[trigger] trades@[k])@),
                ),
        decreases chunk@.len() - i,
    {
        let trade: &Match = &chunk[i];
        proof {
            assert(cv[i as int] == trade@);
            assert(cv.take(i + 1).drop_last() =~= cv.take(i as int));
            assert(cv.take(i + 1).last() == trade@);
            lemma_solvent_prefix(cv, b, i + 1);
            lemma_total_push(solvent(cv.take(i as int), b), trade@);
        }
        let value: u64 = value_of(trade);
        let maker_balance: u64 = ledger.balance_of(trade.maker_trader, trade.symbol.as_str());
        let taker_balance: u64 = ledger.balance_of(trade.taker_trader, trade.symbol.as_str());
        if value <= taker_balance {
            let ghost t0 = trades@;
            trades.push(trade.duplicate());
            maker_balances.push(maker_balance);
            taker_balances.push(taker_balance);
            sum = sum + value;
            proof {
                assert(matches_view(trades@) =~= matches_view(t0).push(trade@));
            }
        }
        i = i + 1;
    }
    proof {
        assert(cv.take(i as int) =~= cv);
    }
    if trades.len() == 0 {
        return None;
    }
    let tb = TradeBatch {
        trades,
        maker_balances,
        taker_balances,
        pre_state_root: [0u8; 32],
        post_state_root: u64_to_bytes32(sum),
    };
    proof {
        let want = batch_for(solvent(cv, b), b);
        assert(tb@.trades == want.trades);
        assert forall|k: int| 0 <= k < tb.trades@.len() implies tb.maker_balances@[k]
            == want.maker_balances[k] && tb.taker_balances@[k] == want.taker_balances[k] by {
            assert(matches_view(tb.trades@)[k] == tb.trades@[k]@);
        }
        assert(tb.maker_balances@ =~= want.maker_balances);
        assert(tb.taker_balances@ =~= want.taker_balances);
        assert(tb.pre_state_root@ =~= zeros(32));
    }
    Some(tb)
}

/// Pays for every trade, or for none where one payer falls short.
pub fn pay_all(ledger: &mut BalanceLedger, trades: &Vec<Match>) -> (r: bool)
    requires
        values_fit(matches_view(trades@)),
    ensures
        ({
            let s = matches_view(trades@);
            match paid(old(ledger)@, s, s.len()) {
                Some(b) => r && final(ledger)@ == b,
                None => !r && final(ledger)@ == old(ledger)@,
            }
        }),
{
    let ghost s = matches_view(trades@);
    let ghost b0 = ledger@;
    let mut i: usize = 0;
    while i < trades.len()
        invariant
            i <= trades@.len(),
            s == matches_view(trades@),
            values_fit(s),
            b0 == old(ledger)@,
            i > 0 ==> no_zero(b0),
            paid(b0, s, i as nat) == Some(ledger@),
        decreases trades@.len() - i,
    {
        let trade: &Match = &trades[i];
        proof {
            assert(s[i as int] == trade@);
        }
        let value: u64 = value_of(trade);
        match ledger.debit(trade.taker_trader, trade.symbol.as_str(), value) {
            Ok(_) => {},
            Err(_) => {
                proof {
                    lemma_paid_none(b0, s, (i + 1) as nat, s.len());
                }
                refund(ledger, trades, i, Ghost(b0));
                return false;
            },
        }
        i = i + 1;
    }
    true
}

proof fn lemma_paid_none(b: Balances, s: Seq<MatchSpec>, n: nat, m: nat)
    requires
        n <= m,
        paid(b, s, n) is None,
    ensures
        paid(b, s, m) is None,
    decreases m,
{
    if n < m {
        lemma_paid_none(b, s, n, (m - 1) as nat);
    }
}

proof fn lemma_paid_no_zero(b: Balances, s: Seq<MatchSpec>, n: nat)
    requires
        no_zero(b),
        paid(b, s, n) is Some,
    ensures
        no_zero(paid(b, s, n)->0),
    decreases n,
{
    if n > 0 {
        lemma_paid_no_zero(b, s, (n - 1) as nat);
    }
}

/// Gives back what the first `n` trades were paid with, the last first.
fn refund(ledger: &mut BalanceLedger, trades: &Vec<Match>, n: usize, before: Ghost<Balances>)
    requires
        n <= trades@.len(),
        no_zero(before@),
        values_fit(matches_view(trades@)),
        paid(before@, matches_view(trades@), n as nat) == Some(old(ledger)@),
    ensures
        final(ledger)@ == before@,
{
    let ghost s = matches_view(trades@);
    let mut k: usize = n;
    while k > 0
        invariant
            k <= n <= trades@.len(),
            s == matches_view(trades@),
            values_fit(s),
            no_zero(before@),
            paid(before@, s, k as nat) == Some(ledger@),
        decreases k,
    {
        k = k - 1;
        let trade: &Match = &trades[k];
        proof {
            assert(s[k as int] == trade@);
        }
        let value: u64 = value_of(trade);
        let ghost mid = paid(before@, s, k as nat)->0;
        proof {
            lemma_paid_no_zero(before@, s, k as nat);
            law_credit_undoes_debit(mid, taker_key(trade@), value);
        }
        ledger.credit(trade.taker_trader, trade.symbol.as_str(), value);
    }
}

/// Pays the maker of every trade. Returns what was paid in all.
fn pay_makers(ledger: &mut BalanceLedger, trades: &Vec<Match>) -> (r: u64)
    requires
        values_fit(matches_view(trades@)),
        total_value(matches_view(trades@)) <= u64::MAX,
        earnings_fit(old(ledger)@, matches_view(trades@)),
    ensures
        final(ledger)@ == earned(
            old(ledger)@,
            matches_view(trades@),
            matches_view(trades@).len(),
        ),
        r == total_value(matches_view(trades@)),
{
    let ghost s = matches_view(trades@);
    let ghost b0 = ledger@;
    let mut sum: u64 = 0;
    let mut i: usize = 0;
    while i < trades.len()
        invariant
            i <= trades@.len(),
            s == matches_view(trades@),
            values_fit(s),
            total_value(s) <= u64::MAX,
            earnings_fit(b0, s),
            ledger@ == earned(b0, s, i as nat),
            sum == total_value(s.take(i as int)),
        decreases trades@.len() - i,
    {
        let trade: &Match = &trades[i];
        proof {
            assert(s[i as int] == trade@);
            lemma_total_prefix(s, i + 1);
            assert(s.take(i + 1).drop_last() =~= s.take(i as int));
        }
        let value: u64 = value_of(trade);
        ledger.credit(trade.maker_trader, trade.symbol.as_str(), value);
        sum = sum + value;
        i = i + 1;
    }
    proof {
        assert(s.take(i as int) =~= s);
    }
    sum
}

/// The prover has answered for a chunk: it is settled whole, or dropped whole.
pub fn settle_chunk(
    ledger: &mut BalanceLedger,
    out: &mut SettlementBatch,
    batch: TradeBatch,
    answer: Result<Vec<u8>, String>,
)
    requires
        values_fit(batch@.trades),
        total_value(batch@.trades) <= u64::MAX,
        answer is Ok ==> match paid(old(ledger)@, batch@.trades, batch@.trades.len()) {
            Some(b) => earnings_fit(b, batch@.trades) && old(out).total_value + total_value(
                batch@.trades,
            ) <= u64::MAX,
            None => true,
        },
    ensures
        (RunState { balances: final(ledger)@, batch: final(out)@ }) == after_proof(
            RunState { balances: old(ledger)@, batch: old(out)@ },
            batch@.trades,
            batch@,
            answer_bytes(answer),
        ),
{
    let bytes: Vec<u8> = match answer {
        Ok(p) => p,
        Err(_) => {
            return;
        },
    };
    if !pay_all(ledger, &batch.trades) {
        return;
    }
    let sum: u64 = pay_makers(ledger, &batch.trades);
    let ghost o0 = out@;
    let ghost tb = batch@;
    let ghost pb = bytes@;
    let count: usize = batch.trades.len();
    let mut trades: Vec<Match> = duplicate_matches(&batch.trades);
    let ghost t0 = out.trades@;
    let ghost t1 = trades@;
    out.trades.append(&mut trades);
    out.total_value = out.total_value + sum;
    out.proof_trade_counts.push(count);
    out.proofs.push(bytes);
    out.trade_batches.push(batch);
    proof {
        assert(matches_view(out.trades@) =~= matches_view(t0) + matches_view(t1));
        assert(out@.proofs =~= o0.proofs.push(pb));
        assert(out@.trade_batches =~= o0.trade_batches.push(tb));
    }
}

/// Queues of matches per tier, and when each tier is flushed. Times are microseconds since the
/// batcher was made.
pub struct SettlementBatcher {
    standard_queue: Vec<Match>,
    express_queue: Vec<Match>,
    instant_queue: Vec<Match>,
    standard_timer_us: u64,
    express_timer_us: u64,
    pub standard_batch_size: usize,
    pub express_batch_size: usize,
    pub standard_interval_us: u64,
    pub express_interval_us: u64,
    ledger: BalanceLedger,
    started: Instant,
}

/// What a [`SettlementBatcher`] stands for.
#[verifier::ext_equal]
pub struct BatcherSpec {
    pub standard: Seq<MatchSpec>,
    pub express: Seq<MatchSpec>,
    pub instant: Seq<MatchSpec>,
    pub standard_timer_us: u64,
    pub express_timer_us: u64,
    pub standard_batch_size: usize,
    pub express_batch_size: usize,
    pub standard_interval_us: u64,
    pub express_interval_us: u64,
    pub balances: Balances,
}

impl View for SettlementBatcher {
    type V = BatcherSpec;

    closed spec fn view(&self) -> BatcherSpec {
        BatcherSpec {
            standard: matches_view(self.standard_queue@),
            express: matches_view(self.express_queue@),
            instant: matches_view(self.instant_queue@),
            standard_timer_us: self.standard_timer_us,
            express_timer_us: self.express_timer_us,
            standard_batch_size: self.standard_batch_size,
            express_batch_size: self.express_batch_size,
            standard_interval_us: self.standard_interval_us,
            express_interval_us: self.express_interval_us,
            balances: self.ledger@,
        }
    }
}

/// A batcher as it is made.
pub open spec fn new_batcher() -> BatcherSpec {
    BatcherSpec {
        standard: Seq::empty(),
        express: Seq::empty(),
        instant: Seq::empty(),
        standard_timer_us: 0,
        express_timer_us: 0,
        standard_batch_size: 1000,
        express_batch_size: 100,
        standard_interval_us: 10_000_000,
        express_interval_us: 60_000_000,
        balances: Balances::empty(),
    }
}

/// A match joins the queue of its tier.
pub open spec fn enqueued(b: BatcherSpec, m: MatchSpec) -> BatcherSpec {
    match m.settlement_tier {
        SettlementPreference::Instant => BatcherSpec { instant: b.instant.push(m), ..b },
        SettlementPreference::Express => BatcherSpec { express: b.express.push(m), ..b },
        SettlementPreference::Standard => BatcherSpec { standard: b.standard.push(m), ..b },
    }
}

/// Matches without those under a key.
pub open spec fn without_trade(s: Seq<MatchSpec>, key: (Id32, Id32)) -> Seq<MatchSpec>
    decreases s.len(),
{
    if s.len() == 0 {
        Seq::empty()
    } else if (s.last().maker_order_id, s.last().taker_order_id) == key {
        without_trade(s.drop_last(), key)
    } else {
        without_trade(s.drop_last(), key).push(s.last())
    }
}

/// The queues without the matches under a key.
pub open spec fn withdrawn(b: BatcherSpec, key: (Id32, Id32)) -> BatcherSpec {
    BatcherSpec {
        standard: without_trade(b.standard, key),
        express: without_trade(b.express, key),
        instant: without_trade(b.instant, key),
        ..b
    }
}

/// Takes the matches under a key out of a queue.
fn drop_trade(queue: &mut Vec<Match>, key: &(Id32, Id32))
    ensures
        matches_view(final(queue)@) == without_trade(matches_view(old(queue)@), *key),
{
    let mut rest: Vec<Match> = Vec::new();
    std::mem::swap(&mut rest, queue);
    let ghost all = matches_view(rest@);
    let ghost items = rest@;
    proof {
        assert(matches_view(queue@) =~= without_trade(all.take(0), *key));
    }
    for m in it: rest.into_iter()
        invariant
            it.seq() == items,
            all == matches_view(items),
            matches_view(queue@) == without_trade(all.take(it.index() as int), *key),
    {
        let ghost i = it.index() as int;
        let ghost q0 = queue@;
        proof {
            assert(all.take(i + 1).drop_last() =~= all.take(i));
            assert(all.take(i + 1).last() == m@);
        }
        if !(same_id(&m.maker_order_id, &key.0) && same_id(&m.taker_order_id, &key.1)) {
            let ghost mv = m@;
            queue.push(m);
            assert(matches_view(queue@) =~= matches_view(q0).push(mv));
        }
    }
    assert(all.take(all.len() as int) =~= all);
}

/// A queue is flushed once it is long enough or has waited long enough, and not while it is empty.
pub open spec fn flush_due(len: nat, size: usize, now: u64, timer: u64, interval: u64) -> bool {
    len > 0 && (len >= size || (if now >= timer {
        now - timer
    } else {
        0
    }) >= interval)
}

pub open spec fn express_due(b: BatcherSpec, now: u64) -> bool {
    flush_due(
        b.express.len(),
        b.express_batch_size,
        now,
        b.express_timer_us,
        b.express_interval_us,
    )
}

pub open spec fn standard_due(b: BatcherSpec, now: u64) -> bool {
    flush_due(
        b.standard.len(),
        b.standard_batch_size,
        now,
        b.standard_timer_us,
        b.standard_interval_us,
    )
}

/// The trades that are flushed at `now`, stage by stage: one instant trade, then the express
/// queue, then the standard queue, each only where it is due.
pub open spec fn flushed(b: BatcherSpec, now: u64) -> Seq<Seq<MatchSpec>> {
    (if b.instant.len() > 0 {
        seq![b.instant.take(1)]
    } else {
        Seq::empty()
    }) + (if express_due(b, now) {
        seq![b.express]
    } else {
        Seq::empty()
    }) + (if standard_due(b, now) {
        seq![b.standard]
    } else {
        Seq::empty()
    })
}

/// The queues and timers after a flush at `now`.
pub open spec fn queues_after(b: BatcherSpec, now: u64, balances: Balances) -> BatcherSpec {
    BatcherSpec {
        instant: if b.instant.len() > 0 {
            b.instant.skip(1)
        } else {
            b.instant
        },
        express: if express_due(b, now) {
            Seq::empty()
        } else {
            b.express
        },
        express_timer_us: if express_due(b, now) {
            now
        } else {
            b.express_timer_us
        },
        standard: if standard_due(b, now) {
            Seq::empty()
        } else {
            b.standard
        },
        standard_timer_us: if standard_due(b, now) {
            now
        } else {
            b.standard_timer_us
        },
        balances,
        ..b
    }
}

/// The chunks of each stage.
pub open spec fn stage_chunks(stages: Seq<Seq<MatchSpec>>) -> Seq<Seq<Seq<MatchSpec>>> {
    Seq::new(stages.len(), |i: int| planned_chunks(stages[i]))
}

/// Each stage settles as a batch, starting from the balances that the one before it left:
/// `balances[i]` before stage `i`, and the last after all of them.
pub open spec fn stages_settle<P: ProverBackend>(
    prover: P,
    stages: Seq<Seq<MatchSpec>>,
    batches: Seq<BatchSpec>,
    balances: Seq<Balances>,
) -> bool {
    &&& batches.len() == stages.len()
    &&& balances.len() == stages.len() + 1
    &&& forall|i: int|
        0 <= i < stages.len() ==> settles_as(
            prover,
            balances[i],
            #[trigger] stages[i],
            batches[i],
            balances[i + 1],
        )
}

/// Batches, each by its view.
pub open spec fn batches_view(s: Seq<SettlementBatch>) -> Seq<BatchSpec> {
    Seq::new(s.len(), |i: int| s[i]@)
}

/// What a flush at `now` needs of machine words: each queued value, and every sum that may come up.
pub open spec fn flush_fits(b: BatcherSpec, now: u64) -> bool {
    &&& forall|i: int| 0 <= i < flushed(b, now).len() ==> values_fit(#[trigger] flushed(b, now)[i])
    &&& stages_fit(stage_chunks(flushed(b, now)), 0, 0, b.balances, 0)
}

proof fn lemma_chunks_fit(s: Seq<MatchSpec>)
    requires
        values_fit(s),
    ensures
        forall|i: int| 0 <= i < chunks_of(s).len() ==> values_fit(#[trigger] chunks_of(s)[i]),
    decreases s.len(),
{
    let n = MAX_BATCH_TRADES as int;
    if s.len() > n {
        assert forall|i: int| 0 <= i < s.skip(n).len() implies trade_value(#[trigger] s.skip(n)[i])
            <= u64::MAX by {
            assert(trade_value(s[i + n]) <= u64::MAX);
        }
        assert forall|i: int| 0 <= i < s.take(n).len() implies trade_value(#[trigger] s.take(n)[i])
            <= u64::MAX by {
            assert(trade_value(s[i]) <= u64::MAX);
        }
        lemma_chunks_fit(s.skip(n));
        assert forall|i: int| 0 <= i < chunks_of(s).len() implies values_fit(
            #[trigger] chunks_of(s)[i],
        ) by {
            if i > 0 {
                assert(chunks_of(s)[i] == chunks_of(s.skip(n))[i - 1]);
            }
        }
    }
}

proof fn lemma_contained_fit(s: Seq<MatchSpec>, t: Seq<MatchSpec>)
    requires
        values_fit(s),
        forall|i: int| 0 <= i < t.len() ==> s.contains(#[trigger] t[i]),
    ensures
        values_fit(t),
{
    assert forall|i: int| 0 <= i < t.len() implies trade_value(#[trigger] t[i]) <= u64::MAX by {
        assert(s.contains(t[i]));
        let k = choose|k: int| 0 <= k < s.len() && s[k] == t[i];
        assert(trade_value(s[k]) <= u64::MAX);
    }
}

proof fn lemma_planned_fit(s: Seq<MatchSpec>)
    requires
        values_fit(s),
    ensures
        forall|i: int|
            0 <= i < planned_chunks(s).len() ==> values_fit(#[trigger] planned_chunks(s)[i]),
    decreases s.len(),
{
    if s.len() > 0 {
        let node = s[0].assigned_node;
        lemma_node_split(s, node);
        let g = with_node(s, node);
        let h = without_node(s, node);
        lemma_contained_fit(s, g);
        lemma_contained_fit(s, h);
        lemma_chunks_fit(g);
        lemma_planned_fit(h);
        assert forall|i: int| 0 <= i < planned_chunks(s).len() implies values_fit(
            #[trigger] planned_chunks(s)[i],
        ) by {
            let k = chunks_of(g).len();
            if i < k {
                assert(planned_chunks(s)[i] == chunks_of(g)[i]);
            } else {
                assert(planned_chunks(s)[i] == planned_chunks(h)[i - k]);
            }
        }
    }
}

/// Proves and settles trades, chunk by chunk.
fn build_batch<P: ProverBackend>(
    ledger: &mut BalanceLedger,
    trades: Vec<Match>,
    prover: &P,
    stages: Ghost<Seq<Seq<Seq<MatchSpec>>>>,
    stage: Ghost<nat>,
) -> (r: SettlementBatch)
    requires
        values_fit(matches_view(trades@)),
        stage@ < stages@.len(),
        stages@[stage@ as int] == planned_chunks(matches_view(trades@)),
        stages_fit(stages@, stage@, 0, old(ledger)@, 0),
    ensures
        settles_as(*prover, old(ledger)@, matches_view(trades@), r@, final(ledger)@),
        stages_fit(stages@, stage@ + 1, 0, final(ledger)@, 0),
{
    let ghost tv = matches_view(trades@);
    let ghost st0 = RunState { balances: ledger@, batch: empty_batch() };
    let mut out = SettlementBatch {
        trades: Vec::new(),
        total_value: 0,
        proofs: Vec::new(),
        proof_trade_counts: Vec::new(),
        trade_batches: Vec::new(),
    };
    proof {
        assert(out@ =~= empty_batch());
        lemma_planned_fit(tv);
    }
    let chunks: Vec<Vec<Match>> = plan_chunks(trades);
    let ghost cv = chunks_view(chunks@);
    let ghost mut outcomes: Seq<Option<Seq<u8>>> = Seq::empty();
    let mut i: usize = 0;
    while i < chunks.len()
        invariant
            i <= chunks@.len(),
            cv == chunks_view(chunks@),
            cv == planned_chunks(tv),
            stage@ < stages@.len(),
            stages@[stage@ as int] == cv,
            forall|k: int| 0 <= k < cv.len() ==> values_fit(#[trigger] cv[k]),
            outcomes.len() == i,
            all_answered(*prover, st0, cv, outcomes, i as nat),
            stages_fit(stages@, stage@, i as nat, ledger@, out.total_value),
            (RunState { balances: ledger@, batch: out@ }) == after_chunks(
                st0,
                cv,
                outcomes,
                i as nat,
            ),
        decreases chunks@.len() - i,
    {
        let ghost b = ledger@;
        let ghost chunk = cv[i as int];
        let ghost s = solvent(chunk, b);
        let ghost prev = outcomes;
        let ghost mut outcome: Option<Seq<u8>> = None;
        proof {
            assert(matches_view(chunks@[i as int]@) == chunk);
            lemma_solvent_members(chunk, b);
            assert(chunk_fits(b, out.total_value, chunk));
        }
        match prepare_chunk(ledger, &chunks[i]) {
            Some(batch) => {
                let answer: Result<Vec<u8>, String> = prover.prove_batch(&batch);
                proof {
                    outcome = answer_bytes(answer);
                    assert(call_ensures(P::prove_batch, (prover, &batch), answer));
                    assert(answered(*prover, batch_for(s, b), outcome));
                }
                settle_chunk(ledger, &mut out, batch, answer);
            },
            None => {},
        }
        proof {
            outcomes = outcomes.push(outcome);
            lemma_outcome_prefix(st0, cv, prev, outcomes, i as nat);
            assert forall|k: int| 0 <= k < i + 1 implies chunk_answered(
                *prover,
                after_chunks(st0, cv, outcomes, k as nat).balances,
                cv[k],
                #[trigger] outcomes[k],
            ) by {
                lemma_outcome_prefix(st0, cv, prev, outcomes, k as nat);
                if k < i {
                    assert(prev[k] == outcomes[k]);
                }
            }
        }
        i = i + 1;
    }
    proof {
        assert(outcomes.len() == planned_chunks(tv).len());
    }
    out
}

proof fn lemma_outcome_prefix(
    st: RunState,
    chunks: Seq<Seq<MatchSpec>>,
    a: Seq<Option<Seq<u8>>>,
    b: Seq<Option<Seq<u8>>>,
    n: nat,
)
    requires
        n <= a.len(),
        n <= b.len(),
        forall|i: int| 0 <= i < n ==> a[i] == b[i],
    ensures
        after_chunks(st, chunks, a, n) == after_chunks(st, chunks, b, n),
    decreases n,
{
    if n > 0 {
        lemma_outcome_prefix(st, chunks, a, b, (n - 1) as nat);
    }
}

proof fn lemma_stage_done<P: ProverBackend>(
    prover: P,
    stages: Seq<Seq<MatchSpec>>,
    batches: Seq<BatchSpec>,
    balances: Seq<Balances>,
    batch: BatchSpec,
    after: Balances,
)
    requires
        batches.len() < stages.len(),
        stages_settle(prover, stages.take(batches.len() as int), batches, balances),
        settles_as(prover, balances.last(), stages[batches.len() as int], batch, after),
    ensures
        stages_settle(
            prover,
            stages.take(batches.len() as int + 1),
            batches.push(batch),
            balances.push(after),
        ),
{
    let k = batches.len() as int;
    let st = stages.take(k + 1);
    let bs = batches.push(batch);
    let bl = balances.push(after);
    assert forall|i: int| 0 <= i < st.len() implies settles_as(
        prover,
        bl[i],
        #[trigger] st[i],
        bs[i],
        bl[i + 1],
    ) by {
        if i < k {
            assert(stages.take(k)[i] == st[i]);
        }
    }
}

impl Default for SettlementBatcher {
    fn default() -> (r: Self)
        ensures
            r@ == new_batcher(),
    {
        SettlementBatcher::new()
    }
}

impl SettlementBatcher {
    pub fn new() -> (r: Self)
        ensures
            r@ == new_batcher(),
    {
        let r = SettlementBatcher {
            standard_queue: Vec::new(),
            express_queue: Vec::new(),
            instant_queue: Vec::new(),
            standard_timer_us: 0,
            express_timer_us: 0,
            standard_batch_size: 1000,
            express_batch_size: 100,
            standard_interval_us: 10_000_000,
            express_interval_us: 60_000_000,
            ledger: BalanceLedger::new(),
            started: monotonic_now(),
        };
        assert(r@ =~= new_batcher());
        r
    }

    /// Settles against this ledger instead of an empty one.
    pub fn with_ledger(self, ledger: BalanceLedger) -> (r: Self)
        ensures
            r@ == (BatcherSpec { balances: ledger@, ..self@ }),
    {
        let mut r = self;
        r.ledger = ledger;
        r
    }

    pub fn ledger(&self) -> (r: &BalanceLedger)
        ensures
            r@ == self@.balances,
    {
        &self.ledger
    }

    /// The ledger, to be changed by whoever watches deposits and withdrawals.
    pub fn ledger_mut(&mut self) -> (r: &mut BalanceLedger)
        ensures
            r@ == old(self)@.balances,
            final(self)@ == (BatcherSpec { balances: final(r)@, ..old(self)@ }),
    {
        &mut self.ledger
    }

    pub fn deposit(&mut self, trader: Id32, symbol: &str, amount: u64)
        requires
            balance(old(self)@.balances, (trader, symbol@)) + amount <= u64::MAX,
        ensures
            final(self)@ == (BatcherSpec {
                balances: credited(old(self)@.balances, (trader, symbol@), amount),
                ..old(self)@
            }),
    {
        self.ledger.deposit(trader, symbol, amount);
    }

    pub fn balance_of(&self, trader: Id32, symbol: &str) -> (r: u64)
        ensures
            r == balance(self@.balances, (trader, symbol@)),
    {
        self.ledger.balance_of(trader, symbol)
    }

    /// A match joins the queue of its tier.
    pub fn enqueue(&mut self, trade: Match)
        ensures
            final(self)@ == enqueued(old(self)@, trade@),
    {
        let ghost tv = trade@;
        match trade.settlement_tier {
            SettlementPreference::Instant => {
                self.instant_queue.push(trade);
                assert(self@.instant =~= old(self)@.instant.push(tv));
            },
            SettlementPreference::Express => {
                self.express_queue.push(trade);
                assert(self@.express =~= old(self)@.express.push(tv));
            },
            SettlementPreference::Standard => {
                self.standard_queue.push(trade);
                assert(self@.standard =~= old(self)@.standard.push(tv));
            },
        }
    }

    /// Takes the matches under a key out of the queues.
    pub fn withdraw(&mut self, key: &(Id32, Id32))
        ensures
            final(self)@ == withdrawn(old(self)@, *key),
    {
        drop_trade(&mut self.standard_queue, key);
        drop_trade(&mut self.express_queue, key);
        drop_trade(&mut self.instant_queue, key);
    }

    /// The matches that wait, by tier: instant, express, standard.
    pub fn queued_trades(&self) -> (r: Vec<Match>)
        ensures
            matches_view(r@) == self@.instant + self@.express + self@.standard,
    {
        let mut out: Vec<Match> = duplicate_matches(&self.instant_queue);
        let mut express: Vec<Match> = duplicate_matches(&self.express_queue);
        let mut standard: Vec<Match> = duplicate_matches(&self.standard_queue);
        let ghost a = matches_view(out@);
        let ghost b = matches_view(express@);
        let ghost c = matches_view(standard@);
        out.append(&mut express);
        assert(matches_view(out@) =~= a + b);
        out.append(&mut standard);
        assert(matches_view(out@) =~= a + b + c);
        out
    }

    /// Flushes what is due at `now_us`: at most one instant trade, the express queue and the
    /// standard queue, each as one batch.
    pub fn process_batches_at<P: ProverBackend>(&mut self, prover: &P, now_us: u64) -> (r: Vec<
        SettlementBatch,
    >)
        requires
            flush_fits(old(self)@, now_us),
        ensures
            final(self)@ == queues_after(old(self)@, now_us, final(self)@.balances),
            exists|balances: Seq<Balances>| #[trigger]
                stages_settle(*prover, flushed(old(self)@, now_us), batches_view(r@), balances)
                    && balances[0] == old(self)@.balances && balances.last()
                    == final(self)@.balances,
    {
        let ghost b = self@;
        let ghost stages = flushed(b, now_us);
        let ghost sc = stage_chunks(stages);
        let ghost mut balances: Seq<Balances> = seq![b.balances];
        let mut out: Vec<SettlementBatch> = Vec::new();
        let express: bool = self.express_queue.len() > 0 && (self.express_queue.len()
            >= self.express_batch_size || now_us.saturating_sub(self.express_timer_us)
            >= self.express_interval_us);
        let standard: bool = self.standard_queue.len() > 0 && (self.standard_queue.len()
            >= self.standard_batch_size || now_us.saturating_sub(self.standard_timer_us)
            >= self.standard_interval_us);
        proof {
            assert(express == express_due(b, now_us));
            assert(standard == standard_due(b, now_us));
            assert(stages_settle(*prover, stages.take(0), batches_view(out@), balances));
        }
        if self.instant_queue.len() > 0 {
            let trade: Match = self.instant_queue.remove(0);
            let ghost o0 = out@;
            let mut trades: Vec<Match> = Vec::new();
            trades.push(trade);
            proof {
                assert(matches_view(trades@) =~= b.instant.take(1));
                assert(stages[0] == b.instant.take(1));
                assert(self@.instant =~= b.instant.skip(1));
            }
            let batch: SettlementBatch = build_batch(
                &mut self.ledger,
                trades,
                prover,
                Ghost(sc),
                Ghost(0nat),
            );
            proof {
                lemma_stage_done(
                    *prover,
                    stages,
                    batches_view(o0),
                    balances,
                    batch@,
                    self.ledger@,
                );
                balances = balances.push(self.ledger@);
            }
            out.push(batch);
            assert(batches_view(out@) =~= batches_view(o0).push(batch@));
        }
        if express {
            let mut trades: Vec<Match> = Vec::new();
            std::mem::swap(&mut trades, &mut self.express_queue);
            self.express_timer_us = now_us;
            let ghost k = out@.len();
            let ghost o0 = out@;
            proof {
                assert(stages[k as int] == b.express);
                assert(self@.express =~= Seq::empty());
            }
            let batch: SettlementBatch = build_batch(
                &mut self.ledger,
                trades,
                prover,
                Ghost(sc),
                Ghost(k),
            );
            proof {
                lemma_stage_done(
                    *prover,
                    stages,
                    batches_view(o0),
                    balances,
                    batch@,
                    self.ledger@,
                );
                balances = balances.push(self.ledger@);
            }
            out.push(batch);
            assert(batches_view(out@) =~= batches_view(o0).push(batch@));
        }
        if standard {
            let mut trades: Vec<Match> = Vec::new();
            std::mem::swap(&mut trades, &mut self.standard_queue);
            self.standard_timer_us = now_us;
            let ghost k = out@.len();
            let ghost o0 = out@;
            proof {
                assert(stages[k as int] == b.standard);
                assert(self@.standard =~= Seq::empty());
            }
            let batch: SettlementBatch = build_batch(
                &mut self.ledger,
                trades,
                prover,
                Ghost(sc),
                Ghost(k),
            );
            proof {
                lemma_stage_done(
                    *prover,
                    stages,
                    batches_view(o0),
                    balances,
                    batch@,
                    self.ledger@,
                );
                balances = balances.push(self.ledger@);
            }
            out.push(batch);
            assert(batches_view(out@) =~= batches_view(o0).push(batch@));
        }
        proof {
            assert(stages.take(stages.len() as int) =~= stages);
            assert(stages_settle(*prover, stages, batches_view(out@), balances));
            assert(self@ =~= queues_after(b, now_us, self.ledger@));
        }
        out
    }

    /// Flushes what is due now.
    pub fn process_batches<P: ProverBackend>(&mut self, prover: &P) -> (r: Vec<SettlementBatch>)
        requires
            forall|now_us: u64| flush_fits(old(self)@, now_us),
        ensures
            exists|now_us: u64, balances: Seq<Balances>|
                #![trigger stages_settle(*prover, flushed(old(self)@, now_us), batches_view(r@), balances)]
                final(self)@ == queues_after(old(self)@, now_us, final(self)@.balances)
                    && stages_settle(*prover, flushed(old(self)@, now_us), batches_view(r@), balances)
                    && balances[0] == old(self)@.balances && balances.last()
                    == final(self)@.balances,
    {
        let now_us: u64 = micros_since(&self.started);
        self.process_batches_at(prover, now_us)
    }
}

/// For each settled trade, in order, the maker's order and how many seconds its tier allows.
pub open spec fn reports_of(s: Seq<MatchSpec>) -> Seq<(Id32, u64)> {
    Seq::new(s.len(), |i: int| (s[i].maker_order_id, tier_seconds(s[i].settlement_tier)))
}

/// What is reported about a batch to whoever keeps score of nodes.
pub fn settlement_reports(batch: &SettlementBatch) -> (r: Vec<(Id32, u64)>)
    ensures
        r@ == reports_of(batch@.trades),
{
    let mut out: Vec<(Id32, u64)> = Vec::new();
    let ghost s = matches_view(batch.trades@);
    let mut i: usize = 0;
    while i < batch.trades.len()
        invariant
            i <= batch.trades@.len(),
            s == matches_view(batch.trades@),
            out@ == reports_of(s).take(i as int),
        decreases batch.trades@.len() - i,
    {
        let t: &Match = &batch.trades[i];
        out.push((t.maker_order_id, t.settlement_tier.deadline_seconds()));
        proof {
            assert(s[i as int] == t@);
            assert(reports_of(s).take(i + 1) =~= reports_of(s).take(i as int).push(
                reports_of(s)[i as int],
            ));
        }
        i = i + 1;
    }
    proof {
        assert(reports_of(s).take(i as int) =~= reports_of(s));
    }
    out
}

} // verus!
