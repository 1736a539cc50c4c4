//! From proven batches to what is submitted on a chain.

use crate::accounts::{address_to_account, EthAddress, SettlementTrade, Token};
use crate::assoc::AssocMap;
use crate::batcher::{BatchSpec, SettlementBatch};
use crate::batcher_laws::{consistent, count_sum, law_counts_add_up};
use crate::bytes::{same_id, zeros, Id32};
use crate::registry::{resolved, EscrowOwner, EscrowRegistry};
use crate::server::match_key;
use crate::types::{matches_view, Match, MatchSpec};
use vstd::prelude::*;

verus! {

/// Who pays a trade, and whom the payer trades with.
pub open spec fn parties(m: MatchSpec) -> (Id32, Id32) {
    if m.fee_payer == m.maker_trader {
        (m.maker_trader, m.taker_trader)
    } else {
        (m.taker_trader, m.maker_trader)
    }
}

/// What a trade is about, and the fee on it.
pub open spec fn notional(m: MatchSpec) -> int {
    m.price * m.amount
}

pub open spec fn notional_fee(m: MatchSpec) -> int {
    notional(m) * m.fee_basis_points / 10_000
}

/// What is paid, and what the fee is worked out from, can be held.
pub open spec fn terms_fit(m: MatchSpec) -> bool {
    notional(m) <= u64::MAX && notional(m) * m.fee_basis_points <= u64::MAX
}

/// `t` is the trade that settles `m` between these accounts.
pub open spec fn settles_match(
    t: SettlementTrade,
    m: MatchSpec,
    payer: EthAddress,
    counterparty: EthAddress,
    trade_hash: Id32,
) -> bool {
    &&& t.maker_order_id == m.maker_order_id
    &&& t.taker_order_id == m.taker_order_id
    &&& t.trader@ == zeros(12) + payer@
    &&& t.counterparty@ == zeros(12) + counterparty@
    &&& t.token == Token::Native
    &&& t.amount == notional(m)
    &&& t.fee == notional_fee(m)
    &&& t.deadline == m.settlement_deadline
    &&& t.trade_hash == trade_hash
    &&& t.assigned_node == m.assigned_node
}

/// The hashes that are left when those of the first `n` matches are taken.
pub open spec fn hashes_left(
    hashes: Map<(Id32, Id32), Id32>,
    chunk: Seq<MatchSpec>,
    n: nat,
) -> Map<(Id32, Id32), Id32>
    decreases n,
{
    if n == 0 {
        hashes
    } else {
        hashes_left(hashes, chunk, (n - 1) as nat).remove(match_key(chunk[n - 1]))
    }
}

/// The `i`-th match of a chunk can be submitted: its hash is there, and both parties are known.
pub open spec fn can_submit(
    hashes: Map<(Id32, Id32), Id32>,
    order: Seq<EthAddress>,
    owners: Map<EthAddress, EscrowOwner>,
    chunk: Seq<MatchSpec>,
    i: int,
) -> bool {
    &&& hashes_left(hashes, chunk, i as nat).contains_key(match_key(chunk[i]))
    &&& resolved(order, owners, parties(chunk[i]).0) is Some
    &&& resolved(order, owners, parties(chunk[i]).1) is Some
}

/// The `i`-th match is the first that cannot be submitted.
pub open spec fn first_stuck(
    hashes: Map<(Id32, Id32), Id32>,
    order: Seq<EthAddress>,
    owners: Map<EthAddress, EscrowOwner>,
    chunk: Seq<MatchSpec>,
    i: int,
) -> bool {
    &&& 0 <= i < chunk.len()
    &&& !can_submit(hashes, order, owners, chunk, i)
    &&& forall|j: int| 0 <= j < i ==> #[trigger] can_submit(hashes, order, owners, chunk, j)
}

/// Some match cannot be submitted, and the hashes up to that of the first such are gone.
pub open spec fn gave_up(
    hashes: Map<(Id32, Id32), Id32>,
    order: Seq<EthAddress>,
    owners: Map<EthAddress, EscrowOwner>,
    chunk: Seq<MatchSpec>,
    after: Map<(Id32, Id32), Id32>,
) -> bool {
    exists|i: int| #[trigger]
        first_stuck(hashes, order, owners, chunk, i) && after == hashes_left(
            hashes,
            chunk,
            (i + 1) as nat,
        )
}

/// The trades that settle a chunk, or none where one match of it has no confirmed hash or a party
/// whose account is not known: one proof covers the whole chunk. The hashes of the matches up to
/// that one, or of all, are taken.
pub fn build_settlement_trades(
    hashes: &mut AssocMap<(Id32, Id32), Id32>,
    escrows: &EscrowRegistry,
    chunk: &[Match],
) -> (r: Option<Vec<SettlementTrade>>)
    requires
        forall|i: int| 0 <= i < chunk@.len() ==> terms_fit((#[trigger] matches_view(chunk@)[i])),
    ensures
        ({
            let ms = matches_view(chunk@);
            let order = escrows.order();
            let owners = escrows@;
            let before = old(hashes)@;
            match r {
                Some(out) => {
                    &&& out@.len() == ms.len()
                    &&& final(hashes)@ == hashes_left(before, ms, ms.len())
                    &&& forall|i: int|
                        0 <= i < ms.len() ==> #[trigger] can_submit(before, order, owners, ms, i)
                    &&& forall|i: int|
                        0 <= i < ms.len() ==> settles_match(
                            #[trigger] out@[i],
                            ms[i],
                            resolved(order, owners, parties(ms[i]).0)->0,
                            resolved(order, owners, parties(ms[i]).1)->0,
                            hashes_left(before, ms, i as nat)[match_key(ms[i])],
                        )
                    &&& forall|i: int|
                        0 <= i < ms.len() ==> (#[trigger] out@[i]).trade_hash == before[(
                            ms[i].maker_order_id,
                            ms[i].taker_order_id,
                        )]
                    &&& forall|i: int|
                        0 <= i < ms.len() && ms[i].fee_payer == ms[i].maker_trader ==> (
                        #[trigger] out@[i]).trader@ == zeros(12) + resolved(
                            order,
                            owners,
                            ms[i].maker_trader,
                        )->0@ && out@[i].counterparty@ == zeros(12) + resolved(
                            order,
                            owners,
                            ms[i].taker_trader,
                        )->0@
                    &&& forall|i: int|
                        0 <= i < ms.len() && ms[i].fee_payer != ms[i].maker_trader ==> (
                        #[trigger] out@[i]).trader@ == zeros(12) + resolved(
                            order,
                            owners,
                            ms[i].taker_trader,
                        )->0@ && out@[i].counterparty@ == zeros(12) + resolved(
                            order,
                            owners,
                            ms[i].maker_trader,
                        )->0@
                },
                None => gave_up(before, order, owners, ms, final(hashes)@),
            }
        }),
{
    let ghost ms = matches_view(chunk@);
    let ghost before = hashes@;
    let ghost order = escrows.order();
    let ghost owners = escrows@;
    let mut out: Vec<SettlementTrade> = Vec::new();
    let mut i: usize = 0;
    while i < chunk.len()
        invariant
            i <= chunk@.len(),
            ms == matches_view(chunk@),
            order == escrows.order(),
            owners == escrows@,
            before == old(hashes)@,
            forall|k: int| 0 <= k < chunk@.len() ==> terms_fit(#[trigger] ms[k]),
            hashes@ == hashes_left(before, ms, i as nat),
            out@.len() == i,
            forall|k: int| 0 <= k < i ==> #[trigger] can_submit(before, order, owners, ms, k),
            forall|k: int|
                0 <= k < i ==> settles_match(
                    #[trigger] out@[k],
                    ms[k],
                    resolved(order, owners, parties(ms[k]).0)->0,
                    resolved(order, owners, parties(ms[k]).1)->0,
                    hashes_left(before, ms, k as nat)[match_key(ms[k])],
                ),
        decreases chunk@.len() - i,
    {
        let m: &Match = &chunk[i];
        proof {
            assert(ms[i as int] == m@);
            assert(terms_fit(ms[i as int]));
            assert(0 <= notional(m@)) by {
                assert(0 <= m.price * m.amount) by (nonlinear_arith);
            }
        }
        let trade_hash: Id32 = match hashes.remove(&(m.maker_order_id, m.taker_order_id)) {
            Some(h) => h,
            None => {
                proof {
                    assert(first_stuck(before, order, owners, ms, i as int));
                    assert(hashes@ == hashes_left(before, ms, (i + 1) as nat));
                }
                return None;
            },
        };
        let (payer, counterparty): (Id32, Id32) = if same_id(&m.fee_payer, &m.maker_trader) {
            (m.maker_trader, m.taker_trader)
        } else {
            (m.taker_trader, m.maker_trader)
        };
        let payer_addr: EthAddress = match escrows.resolve_address(payer) {
            Some(a) => a,
            None => {
                proof {
                    assert(first_stuck(before, order, owners, ms, i as int));
                    assert(hashes@ == hashes_left(before, ms, (i + 1) as nat));
                }
                return None;
            },
        };
        let counterparty_addr: EthAddress = match escrows.resolve_address(counterparty) {
            Some(a) => a,
            None => {
                proof {
                    assert(first_stuck(before, order, owners, ms, i as int));
                    assert(hashes@ == hashes_left(before, ms, (i + 1) as nat));
                }
                return None;
            },
        };
        let amount: u64 = m.price * m.amount;
        proof {
            assert(0 <= amount * m.fee_basis_points) by (nonlinear_arith);
        }
        let fee: u64 = amount * (m.fee_basis_points as u64) / 10_000;
        out.push(
            SettlementTrade {
                maker_order_id: m.maker_order_id,
                taker_order_id: m.taker_order_id,
                trader: address_to_account(payer_addr),
                counterparty: address_to_account(counterparty_addr),
                token: Token::Native,
                amount,
                fee,
                deadline: m.settlement_deadline,
                trade_hash,
                assigned_node: m.assigned_node,
            },
        );
        proof {
            assert(can_submit(before, order, owners, ms, i as int));
        }
        i = i + 1;
    }
    proof {
        assert forall|k: int| 0 <= k < ms.len() implies (#[trigger] out@[k]).trade_hash == before[(
            ms[k].maker_order_id,
            ms[k].taker_order_id,
        )] by {
            assert(can_submit(before, order, owners, ms, k));
            law_only_own_hashes_are_taken(before, ms, k as nat, match_key(ms[k]));
        }
    }
    Some(out)
}

/// What a match's hash was taken for is not submitted again: the hashes of the first `n` matches are
/// gone.
pub proof fn law_hashes_are_taken_once(
    hashes: Map<(Id32, Id32), Id32>,
    chunk: Seq<MatchSpec>,
    n: nat,
    i: int,
)
    requires
        0 <= i < n <= chunk.len(),
    ensures
        !hashes_left(hashes, chunk, n).contains_key(match_key(chunk[i])),
    decreases n,
{
    if i < n - 1 {
        law_hashes_are_taken_once(hashes, chunk, (n - 1) as nat, i);
    }
}

/// The trades that a proof covers: `count` of them from `start` on.
#[derive(Clone, Copy, Debug, PartialEq, Eq, Structural)]
pub struct ChunkRange {
    pub index: usize,
    pub start: usize,
    pub count: usize,
}

/// Every proof covers at least one trade, and together they cover all.
pub open spec fn counts_cover(b: BatchSpec) -> bool {
    &&& count_sum(b.counts) == b.trades.len()
    &&& forall|i: int| 0 <= i < b.counts.len() ==> (#[trigger] b.counts[i]) > 0
}

/// Where the `i`-th chunk starts.
pub open spec fn chunk_start(b: BatchSpec, i: int) -> nat {
    count_sum(b.counts.take(i))
}

/// The chunks among the first `n` that are assigned to a node.
pub open spec fn own_ranges(b: BatchSpec, node: Id32, n: nat) -> Seq<ChunkRange>
    decreases n,
{
    if n == 0 {
        Seq::empty()
    } else {
        let before = own_ranges(b, node, (n - 1) as nat);
        if b.trades[chunk_start(b, n - 1) as int].assigned_node == node {
            before.push(
                ChunkRange {
                    index: (n - 1) as usize,
                    start: chunk_start(b, n - 1) as usize,
                    count: b.counts[n - 1],
                },
            )
        } else {
            before
        }
    }
}

proof fn lemma_count_sum_grows(s: Seq<usize>, n: int)
    requires
        0 <= n <= s.len(),
    ensures
        count_sum(s.take(n)) <= count_sum(s),
    decreases s.len() - n,
{
    if n < s.len() {
        lemma_count_sum_grows(s, n + 1);
        assert(s.take(n + 1).drop_last() =~= s.take(n));
    } else {
        assert(s.take(n) =~= s);
    }
}

/// The chunks of a batch that are for this node to submit. A chunk is assigned as its first trade
/// is; the others are for other nodes.
pub fn own_chunks(batch: &SettlementBatch, node: &Id32) -> (r: Vec<ChunkRange>)
    requires
        counts_cover(batch@),
    ensures
        r@ == own_ranges(batch@, *node, batch@.counts.len()),
        forall|i: int|
            0 <= i < r@.len() ==> (#[trigger] r@[i]).count > 0 && r@[i].start + r@[i].count
                <= batch@.trades.len(),
{
    let ghost b = batch@;
    let total: usize = batch.trades.len();
    let mut out: Vec<ChunkRange> = Vec::new();
    let mut start: usize = 0;
    let mut i: usize = 0;
    while i < batch.proof_trade_counts.len()
        invariant
            i <= batch.proof_trade_counts@.len(),
            b == batch@,
            total == b.trades.len(),
            counts_cover(b),
            start == chunk_start(b, i as int),
            out@ == own_ranges(b, *node, i as nat),
            forall|k: int|
                0 <= k < out@.len() ==> (#[trigger] out@[k]).count > 0 && out@[k].start
                    + out@[k].count <= b.trades.len(),
        decreases batch.proof_trade_counts@.len() - i,
    {
        let count: usize = batch.proof_trade_counts[i];
        proof {
            assert(b.counts[i as int] == count);
            assert(b.counts.take(i + 1).drop_last() =~= b.counts.take(i as int));
            lemma_count_sum_grows(b.counts, i + 1);
            assert(b.trades[start as int] == batch.trades@[start as int]@);
        }
        if same_id(&batch.trades[start].assigned_node, node) {
            out.push(ChunkRange { index: i, start, count });
        }
        start = start + count;
        i = i + 1;
    }
    out
}

/// A settled batch's counts cover its trades.
pub proof fn law_settled_counts_cover(b: BatchSpec)
    requires
        consistent(b),
    ensures
        counts_cover(b),
{
    law_counts_add_up(b);
    assert forall|i: int| 0 <= i < b.counts.len() implies (#[trigger] b.counts[i]) > 0 by {
        assert(b.trade_batches[i].trades.len() > 0);
    }
}

/// The keys of trades.
pub open spec fn trade_keys(s: Seq<SettlementTrade>) -> Seq<(Id32, Id32)> {
    Seq::new(s.len(), |i: int| (s[i].maker_order_id, s[i].taker_order_id))
}

/// What is recorded once trades are settled: their keys.
pub fn checkpoint_keys(trades: &Vec<SettlementTrade>) -> (r: Vec<(Id32, Id32)>)
    ensures
        r@ == trade_keys(trades@),
{
    let mut out: Vec<(Id32, Id32)> = Vec::new();
    let mut i: usize = 0;
    while i < trades.len()
        invariant
            i <= trades@.len(),
            out@ == trade_keys(trades@).take(i as int),
        decreases trades@.len() - i,
    {
        out.push((trades[i].maker_order_id, trades[i].taker_order_id));
        proof {
            assert(out@ =~= trade_keys(trades@).take(i + 1));
        }
        i = i + 1;
    }
    proof {
        assert(trade_keys(trades@).take(trades@.len() as int) =~= trade_keys(trades@));
    }
    out
}

/// What follows a submission: where it went through, the keys to be recorded as settled, before the
/// proof goes out to peers. Where it did not, nothing is recorded and nothing goes out.
pub fn after_submission(
    trades: &Vec<SettlementTrade>,
    submitted: &Result<String, String>,
) -> (r: Option<Vec<(Id32, Id32)>>)
    ensures
        match r {
            Some(keys) => submitted is Ok && keys@ == trade_keys(trades@),
            None => submitted is Err,
        },
{
    match submitted {
        Ok(_) => Some(checkpoint_keys(trades)),
        Err(_) => None,
    }
}

/// What a chain says of a node: whether it is active, and its stake.
#[derive(Clone, Copy, Debug, PartialEq, Eq, Structural)]
pub struct ChainNodeStatus {
    pub active: bool,
    pub stake: u64,
}

/// What is noted of a node from the chain's answers: nothing where it is not known to be active or
/// not, and no stake where the stake is not known.
pub open spec fn noted_status(
    active: Result<bool, String>,
    stake: Result<u64, String>,
) -> Option<ChainNodeStatus> {
    match active {
        Ok(active) => Some(
            ChainNodeStatus {
                active,
                stake: match stake {
                    Ok(s) => s,
                    Err(_) => 0,
                },
            },
        ),
        Err(_) => None,
    }
}

/// Notes what a chain answered about a node.
pub fn note_status(
    snapshot: &mut AssocMap<Id32, ChainNodeStatus>,
    pubkey: Id32,
    active: Result<bool, String>,
    stake: Result<u64, String>,
)
    ensures
        final(snapshot)@ == (match noted_status(active, stake) {
            Some(s) => old(snapshot)@.insert(pubkey, s),
            None => old(snapshot)@,
        }),
{
    match active {
        Ok(active) => {
            let stake: u64 = match stake {
                Ok(s) => s,
                Err(_) => 0,
            };
            snapshot.insert(pubkey, ChainNodeStatus { active, stake });
        },
        Err(_) => {},
    }
}

/// Who pays whom. A trade that settles a match between its parties' accounts is paid from the account
/// of the trader who pays the match's fee, to the account of the match's other trader, whichever of
/// the two made it.
pub proof fn law_fee_payer_pays(
    t: SettlementTrade,
    m: MatchSpec,
    order: Seq<EthAddress>,
    owners: Map<EthAddress, EscrowOwner>,
    trade_hash: Id32,
    other: Id32,
)
    requires
        settles_match(
            t,
            m,
            resolved(order, owners, parties(m).0)->0,
            resolved(order, owners, parties(m).1)->0,
            trade_hash,
        ),
        m.fee_payer == m.maker_trader && other == m.taker_trader || m.fee_payer == m.taker_trader
            && other == m.maker_trader,
    ensures
        t.trader@.take(12) == zeros(12),
        t.trader@.skip(12) == resolved(order, owners, m.fee_payer)->0@,
        t.counterparty@.take(12) == zeros(12),
        t.counterparty@.skip(12) == resolved(order, owners, other)->0@,
{
    let a = resolved(order, owners, parties(m).0)->0;
    let b = resolved(order, owners, parties(m).1)->0;
    assert(t.trader@.take(12) =~= zeros(12));
    assert(t.counterparty@.take(12) =~= zeros(12));
    assert(t.trader@.skip(12) =~= a@);
    assert(t.counterparty@.skip(12) =~= b@);
}

/// What is paid: price times amount in the chain's own coin, and of that the match's basis points,
/// rounded down, as the fee. The trade names the match's orders, its node, its deadline and its hash.
pub proof fn law_terms_carry_over(
    t: SettlementTrade,
    m: MatchSpec,
    payer: EthAddress,
    counterparty: EthAddress,
    trade_hash: Id32,
)
    requires
        settles_match(t, m, payer, counterparty, trade_hash),
    ensures
        t.amount == m.price * m.amount,
        t.fee * 10_000 <= m.price * m.amount * m.fee_basis_points < (t.fee + 1) * 10_000,
        t.token == Token::Native,
        t.maker_order_id == m.maker_order_id,
        t.taker_order_id == m.taker_order_id,
        t.assigned_node == m.assigned_node,
        t.deadline == m.settlement_deadline,
        t.trade_hash == trade_hash,
{
}

/// The hashes that are left when those of the first `n` matches of a chunk are taken: each taken one
/// is gone, and every other is there as it was. So a match whose hash is still there when its turn
/// comes has the hash that was confirmed for it.
pub proof fn law_only_own_hashes_are_taken(
    hashes: Map<(Id32, Id32), Id32>,
    chunk: Seq<MatchSpec>,
    n: nat,
    key: (Id32, Id32),
)
    requires
        n <= chunk.len(),
    ensures
        ({
            let left = hashes_left(hashes, chunk, n);
            let taken = exists|i: int|
                0 <= i < n && (#[trigger] chunk[i]).maker_order_id == key.0
                    && chunk[i].taker_order_id == key.1;
            &&& left.contains_key(key) == (hashes.contains_key(key) && !taken)
            &&& left.contains_key(key) ==> left[key] == hashes[key]
        }),
    decreases n,
{
    if n > 0 {
        law_only_own_hashes_are_taken(hashes, chunk, (n - 1) as nat, key);
        let m = chunk[n - 1];
        if m.maker_order_id == key.0 && m.taker_order_id == key.1 {
            assert(match_key(m) == key);
        }
    }
}

/// When a chunk can be submitted: each of its matches can, where its hash was confirmed, no match
/// before it in the chunk is of the same two orders, and both of its traders have an account.
pub proof fn law_submittable_matches(
    hashes: Map<(Id32, Id32), Id32>,
    order: Seq<EthAddress>,
    owners: Map<EthAddress, EscrowOwner>,
    chunk: Seq<MatchSpec>,
    i: int,
)
    requires
        0 <= i < chunk.len(),
    ensures
        can_submit(hashes, order, owners, chunk, i) <==> {
            &&& hashes.contains_key((chunk[i].maker_order_id, chunk[i].taker_order_id))
            &&& forall|j: int|
                0 <= j < i ==> (#[trigger] chunk[j]).maker_order_id != chunk[i].maker_order_id
                    || chunk[j].taker_order_id != chunk[i].taker_order_id
            &&& resolved(order, owners, chunk[i].maker_trader) is Some
            &&& resolved(order, owners, chunk[i].taker_trader) is Some
        },
{
    law_only_own_hashes_are_taken(
        hashes,
        chunk,
        i as nat,
        (chunk[i].maker_order_id, chunk[i].taker_order_id),
    );
}

/// Where the chunks of a batch stand: the first at the start, each next one right behind the one
/// before it.
pub proof fn law_chunks_stand_in_a_row(b: BatchSpec, i: int)
    requires
        0 <= i < b.counts.len(),
    ensures
        chunk_start(b, 0) == 0,
        chunk_start(b, i + 1) == chunk_start(b, i) + b.counts[i],
        counts_cover(b) ==> chunk_start(b, b.counts.len() as int) == b.trades.len(),
{
    assert(b.counts.take(0) =~= Seq::empty());
    assert(b.counts.take(i + 1).drop_last() =~= b.counts.take(i));
    assert(b.counts.take(b.counts.len() as int) =~= b.counts);
}

/// Each chunk of a batch is for exactly one node to submit, the one that its first trade is assigned
/// to: that node's list holds the chunk, once, with its place and its length, and no other list does.
pub proof fn law_each_chunk_has_one_submitter(b: BatchSpec, node: Id32, n: nat, k: int)
    requires
        n <= b.counts.len() <= usize::MAX,
        b.trades.len() <= usize::MAX,
        counts_cover(b),
        0 <= k < n,
    ensures
        ({
            let own = own_ranges(b, node, n);
            let range = ChunkRange {
                index: k as usize,
                start: chunk_start(b, k) as usize,
                count: b.counts[k],
            };
            let first = b.trades[chunk_start(b, k) as int].assigned_node;
            &&& own.contains(range) <==> first == node
            &&& forall|i: int|
                0 <= i < own.len() && (#[trigger] own[i]).index == k ==> own[i] == range
            &&& forall|i: int, j: int|
                0 <= i < j < own.len() ==> (#[trigger] own[i]).index < (#[trigger] own[j]).index
            &&& forall|i: int| 0 <= i < own.len() ==> (#[trigger] own[i]).index < n
        }),
    decreases n,
{
    let m = (n - 1) as nat;
    let own = own_ranges(b, node, n);
    let before = own_ranges(b, node, m);
    let range = ChunkRange {
        index: k as usize,
        start: chunk_start(b, k) as usize,
        count: b.counts[k],
    };
    if m > 0 {
        law_each_chunk_has_one_submitter(
            b,
            node,
            m,
            if k < m {
                k
            } else {
                0
            },
        );
    }
    if k < m {
        if before.contains(range) {
            let i = choose|i: int| 0 <= i < before.len() && before[i] == range;
            assert(own[i] == range);
        }
        if own.contains(range) {
            let i = choose|i: int| 0 <= i < own.len() && own[i] == range;
            if i < before.len() {
                assert(before[i] == range);
            }
        }
    } else {
        if b.trades[chunk_start(b, k) as int].assigned_node == node {
            assert(own[before.len() as int] == range);
        } else {
            if own.contains(range) {
                let i = choose|i: int| 0 <= i < own.len() && own[i] == range;
                assert(before[i].index < m);
            }
        }
    }
}

/// What is recorded of settled trades names, for each, the maker's and the taker's order.
pub proof fn law_checkpoints_name_every_trade(s: Seq<SettlementTrade>, i: int)
    requires
        0 <= i < s.len(),
    ensures
        trade_keys(s).len() == s.len(),
        trade_keys(s)[i].0 == s[i].maker_order_id,
        trade_keys(s)[i].1 == s[i].taker_order_id,
{
}

/// What a chain says of a node is noted where it says whether the node is active, with the stake that
/// it gives, or none where it gives no stake.
pub proof fn law_status_is_what_the_chain_says(active: bool, stake: u64, e: String, f: String)
    ensures
        noted_status(Ok(active), Ok(stake)) == Some(ChainNodeStatus { active, stake }),
        noted_status(Ok(active), Err(e)) == Some(ChainNodeStatus { active, stake: 0 }),
        noted_status(Err(e), Ok(stake)) is None,
        noted_status(Err(e), Err(f)) is None,
{
}

} // verus!
