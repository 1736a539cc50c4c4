//! The venue's state: what an accepted order, a confirmed commit and a restart do to it.

use crate::assoc::{entry_is, AssocMap, Key};
use crate::batcher::{enqueued, new_batcher, trade_value, BatcherSpec, SettlementBatcher};
use crate::book::{book_after, matches_after, BookSpec, OrderBook};
use crate::bytes::{
    be8, id_from_slice, law_be8_injective, lemma_be8_len, push_be8, push_bytes, zeros, Id32,
};
use crate::clock::unix_micros;
use crate::fees::default_rates;
use crate::ledger::{balance, credited, Balances};
use crate::receipts::{receipt_at, receipts_view, sign_receipt_at, OrderReceipt, ReceiptSpec};
use crate::sync::opt_text;
use crate::text::joined;
use crate::types::{
    matches_view, Match, MatchSpec, NodeId, Order, OrderSide, OrderSpec, SettlementPreference,
    SettlementRequester,
};
use vstd::prelude::*;

verus! {

/// A set of identifiers.
#[derive(Debug)]
pub struct IdSet {
    members: AssocMap<Id32, ()>,
}

impl View for IdSet {
    type V = Set<Id32>;

    closed spec fn view(&self) -> Set<Id32> {
        self.members@.dom()
    }
}

impl IdSet {
    pub fn new() -> (r: Self)
        ensures
            r@ == Set::<Id32>::empty(),
    {
        let r = IdSet { members: AssocMap::new() };
        assert(r@ =~= Set::empty());
        r
    }

    pub fn contains(&self, id: &Id32) -> (r: bool)
        ensures
            r == self@.contains(*id),
    {
        self.members.contains_key(id)
    }

    pub fn insert(&mut self, id: Id32)
        ensures
            final(self)@ == old(self)@.insert(id),
    {
        self.members.insert(id, ());
        assert(self@ =~= old(self)@.insert(id));
    }

    /// The members, in the order in which they came.
    pub fn ids(&self) -> (r: Vec<Id32>)
        ensures
            r@.to_set() == self@,
            r@.no_duplicates(),
    {
        let mut out: Vec<Id32> = Vec::new();
        let n: usize = self.members.len();
        let ghost list = self.members.list();
        let mut i: usize = 0;
        while i < n
            invariant
                i <= n,
                n == list.len(),
                list == self.members.list(),
                out@.len() == i,
                forall|k: int| 0 <= k < i ==> #[trigger] out@[k] == list[k].0,
            decreases n - i,
        {
            out.push(*self.members.key_at(i));
            i = i + 1;
        }
        proof {
            assert forall|a: int, b: int|
                0 <= a < out@.len() && 0 <= b < out@.len() && a != b implies out@[a] != out@[b] by {
                if a < b {
                    assert(list[a].0.key() != list[b].0.key());
                } else {
                    assert(list[b].0.key() != list[a].0.key());
                }
            }
            assert forall|id: Id32| #[trigger] out@.contains(id) <==> self@.contains(id) by {
                if out@.contains(id) {
                    let k = choose|k: int| 0 <= k < out@.len() && out@[k] == id;
                    assert(entry_is(list, id, k));
                }
                if self@.contains(id) {
                    let k = choose|k: int| #[trigger] entry_is(list, id, k);
                    assert(out@[k] == id);
                }
            }
            assert(out@.to_set() =~= self@);
        }
        out
    }
}

/// An order as it is submitted.
#[derive(Clone, Debug)]
pub struct SubmitOrderRequest {
    pub trader: Id32,
    pub symbol: String,
    pub side: OrderSide,
    pub price: u64,
    pub amount: u64,
    pub signature: Vec<u8>,
    pub nonce: u64,
    pub expiry: u64,
    pub settlement_preference: SettlementPreference,
    pub settlement_requester: SettlementRequester,
}

/// What became of a submitted order.
#[derive(Clone, Debug)]
pub struct SubmitOrderResponse {
    pub success: bool,
    pub order_id: Id32,
    pub matches: Vec<Match>,
    pub error: Option<String>,
    pub receipt: Option<OrderReceipt>,
    pub pending: bool,
}

/// What a [`SubmitOrderResponse`] stands for.
pub struct ResponseSpec {
    pub success: bool,
    pub order_id: Id32,
    pub matches: Seq<MatchSpec>,
    pub error: Option<Seq<char>>,
    pub receipt: Option<ReceiptSpec>,
    pub pending: bool,
}

impl View for SubmitOrderResponse {
    type V = ResponseSpec;

    open spec fn view(&self) -> ResponseSpec {
        ResponseSpec {
            success: self.success,
            order_id: self.order_id,
            matches: matches_view(self.matches@),
            error: match self.error {
                Some(e) => Some(e@),
                None => None,
            },
            receipt: match self.receipt {
                Some(r) => Some(r@),
                None => None,
            },
            pending: self.pending,
        }
    }
}

/// An order was refused.
pub open spec fn refused(order_id: Id32, error: Seq<char>) -> ResponseSpec {
    ResponseSpec {
        success: false,
        order_id,
        matches: Seq::empty(),
        error: Some(error),
        receipt: None,
        pending: false,
    }
}

/// A trader's word that a match has been committed to.
#[derive(Clone, Debug)]
pub struct ConfirmCommitRequest {
    pub maker_order_id: Id32,
    pub taker_order_id: Id32,
    pub trade_hash: Id32,
}

/// What became of it.
#[derive(Clone, Debug)]
pub struct ConfirmCommitResponse {
    pub success: bool,
    pub error: Option<String>,
}

/// What is recorded, before it takes effect, so that a restart can redo it.
#[derive(Clone, Debug)]
pub enum WalEntry {
    OrderAccepted { order: Order, receipt: OrderReceipt, match_timestamp_us: Option<u64> },
    CommitConfirmed { m: Match, trade_hash: Id32 },
    BatchSubmitted { keys: Vec<(Id32, Id32)> },
    OrderQueued { order: Order, receipt: OrderReceipt },
}

/// What a [`WalEntry`] stands for.
pub enum WalSpec {
    OrderAccepted { order: OrderSpec, receipt: ReceiptSpec, match_timestamp_us: Option<u64> },
    CommitConfirmed { m: MatchSpec, trade_hash: Id32 },
    BatchSubmitted { keys: Seq<(Id32, Id32)> },
    OrderQueued { order: OrderSpec, receipt: ReceiptSpec },
}

impl View for WalEntry {
    type V = WalSpec;

    open spec fn view(&self) -> WalSpec {
        match self {
            WalEntry::OrderAccepted { order, receipt, match_timestamp_us } => {
                WalSpec::OrderAccepted {
                    order: order@,
                    receipt: receipt@,
                    match_timestamp_us: *match_timestamp_us,
                }
            },
            WalEntry::CommitConfirmed { m, trade_hash } => {
                WalSpec::CommitConfirmed { m: m@, trade_hash: *trade_hash }
            },
            WalEntry::BatchSubmitted { keys } => WalSpec::BatchSubmitted { keys: keys@ },
            WalEntry::OrderQueued { order, receipt } => {
                WalSpec::OrderQueued { order: order@, receipt: receipt@ }
            },
        }
    }
}

/// Entries, each by its view.
pub open spec fn wal_view(s: Seq<WalEntry>) -> Seq<WalSpec> {
    Seq::new(s.len(), |i: int| s[i]@)
}

/// The venue's state. A match waits in `pending_commits` until its fee payer has committed to it;
/// then its hash is kept in `confirmed_trade_hashes` and it waits in the batcher to be settled.
/// With sequencing on, an accepted order waits in `sequence` and `pending_order_data` until its
/// turn among its peers is known.
pub struct AppState {
    pub node_id: NodeId,
    pub order_book: OrderBook,
    pub pending_commits: AssocMap<(Id32, Id32), Match>,
    pub confirmed_trade_hashes: AssocMap<(Id32, Id32), Id32>,
    pub batcher: SettlementBatcher,
    pub receipt_signing_key: Id32,
    pub order_log: Vec<OrderReceipt>,
    pub match_log: Vec<Match>,
    pub sequencing: bool,
    pub sequence: Vec<Id32>,
    pub pending_order_data: AssocMap<Id32, (Order, OrderReceipt)>,
    pub applied_order_ids: IdSet,
}

/// What an [`AppState`] stands for.
#[verifier::ext_equal]
pub struct AppSpec {
    pub node_id: NodeId,
    pub book: BookSpec,
    pub pending: Map<(Id32, Id32), MatchSpec>,
    pub confirmed: Map<(Id32, Id32), Id32>,
    pub batcher: BatcherSpec,
    pub key: Id32,
    pub order_log: Seq<ReceiptSpec>,
    pub match_log: Seq<MatchSpec>,
    pub sequencing: bool,
    pub sequence: Seq<Id32>,
    pub queued: Map<Id32, (OrderSpec, ReceiptSpec)>,
    pub applied: Set<Id32>,
}

impl View for AppState {
    type V = AppSpec;

    open spec fn view(&self) -> AppSpec {
        AppSpec {
            node_id: self.node_id,
            book: self.order_book@,
            pending: self.pending_commits@.map_values(|m: Match| m@),
            confirmed: self.confirmed_trade_hashes@,
            batcher: self.batcher@,
            key: self.receipt_signing_key,
            order_log: receipts_view(self.order_log@),
            match_log: matches_view(self.match_log@),
            sequencing: self.sequencing,
            sequence: self.sequence@,
            queued: self.pending_order_data@.map_values(
                |d: (Order, OrderReceipt)| (d.0@, d.1@),
            ),
            applied: self.applied_order_ids@,
        }
    }
}

/// A venue with nothing in it.
pub open spec fn fresh_state(
    node_id: NodeId,
    symbol: Seq<char>,
    key: Id32,
    sequencing: bool,
) -> AppSpec {
    AppSpec {
        node_id,
        book: BookSpec {
            symbol,
            bids: Map::empty(),
            asks: Map::empty(),
            node_rewards: 0,
            rates: default_rates(),
            nodes: Seq::empty(),
            cursor: 0,
        },
        pending: Map::empty(),
        confirmed: Map::empty(),
        batcher: new_batcher(),
        key,
        order_log: Seq::empty(),
        match_log: Seq::empty(),
        sequencing,
        sequence: Seq::empty(),
        queued: Map::empty(),
        applied: Set::empty(),
    }
}

/// The key of a match.
pub open spec fn match_key(m: MatchSpec) -> (Id32, Id32) {
    (m.maker_order_id, m.taker_order_id)
}

/// The first `n` matches wait for their commits.
pub open spec fn pend_all(
    p: Map<(Id32, Id32), MatchSpec>,
    ms: Seq<MatchSpec>,
    n: nat,
) -> Map<(Id32, Id32), MatchSpec>
    decreases n,
{
    if n == 0 {
        p
    } else {
        pend_all(p, ms, (n - 1) as nat).insert(match_key(ms[n - 1]), ms[n - 1])
    }
}

/// The state after an accepted order has been applied: it is in the log, it has been matched, and
/// its matches are in their log and wait for their commits.
pub open spec fn accepted(s: AppSpec, o: OrderSpec, r: ReceiptSpec, timestamp_us: u64) -> AppSpec {
    let ms = matches_after(s.book, o, timestamp_us);
    AppSpec {
        book: book_after(s.book, o),
        applied: s.applied.insert(o.id),
        order_log: s.order_log.push(r),
        match_log: s.match_log + ms,
        pending: pend_all(s.pending, ms, ms.len()),
        ..s
    }
}

/// The state after an accepted order has been put in the queue.
pub open spec fn queued_up(s: AppSpec, o: OrderSpec, r: ReceiptSpec) -> AppSpec {
    AppSpec { sequence: s.sequence.push(o.id), queued: s.queued.insert(o.id, (o, r)), ..s }
}

/// The state after a commit has been confirmed: the match's hash is kept, its value is credited to
/// the payer in the batcher's ledger, and it waits to be settled.
pub open spec fn confirmed(s: AppSpec, m: MatchSpec, trade_hash: Id32) -> AppSpec {
    AppSpec {
        confirmed: s.confirmed.insert(match_key(m), trade_hash),
        batcher: enqueued(
            BatcherSpec {
                balances: credited(
                    s.batcher.balances,
                    (m.taker_trader, m.symbol),
                    trade_value(m) as u64,
                ),
                ..s.batcher
            },
            m,
        ),
        ..s
    }
}

/// The match's value, and the balance that it makes, can be held.
pub open spec fn confirm_fits(b: Balances, m: MatchSpec) -> bool {
    trade_value(m) <= u64::MAX && balance(b, (m.taker_trader, m.symbol)) + trade_value(m)
        <= u64::MAX
}

/// The id of a trader's order: half of the trader's key, then the nonce, then zeros.
pub open spec fn order_id_bytes(trader: Id32, nonce: u64) -> Seq<u8> {
    trader@.take(16) + be8(nonce) + zeros(8)
}

/// The id of a trader's order with this nonce.
pub fn derive_order_id(trader: &Id32, nonce: u64) -> (r: Id32)
    ensures
        r@ == order_id_bytes(*trader, nonce),
{
    let mut buf: Vec<u8> = Vec::new();
    let half: &[u8] = vstd::slice::slice_subrange(trader.as_slice(), 0, 16);
    push_bytes(&mut buf, half);
    push_be8(&mut buf, nonce);
    let mut i: usize = 0;
    proof {
        assert(buf@ =~= trader@.take(16) + be8(nonce) + zeros(0));
    }
    while i < 8
        invariant
            i <= 8,
            buf@ == trader@.take(16) + be8(nonce) + zeros(i as nat),
        decreases 8 - i,
    {
        buf.push(0u8);
        proof {
            assert(buf@ =~= trader@.take(16) + be8(nonce) + zeros((i + 1) as nat));
        }
        i = i + 1;
    }
    proof {
        lemma_be8_len(nonce);
    }
    let r: Id32 = id_from_slice(buf.as_slice());
    assert(buf@.take(32) =~= buf@);
    r
}

/// A trader's orders with different nonces have different ids.
pub proof fn law_order_ids_tell_nonces_apart(trader: Id32, a: u64, b: u64)
    requires
        order_id_bytes(trader, a) == order_id_bytes(trader, b),
    ensures
        a == b,
{
    let x = order_id_bytes(trader, a);
    let y = order_id_bytes(trader, b);
    lemma_be8_len(a);
    lemma_be8_len(b);
    assert(x.subrange(16, 24) =~= be8(a));
    assert(y.subrange(16, 24) =~= be8(b));
    law_be8_injective(a, b);
}

/// `id` has the bytes that [`order_id_bytes`] gives.
pub open spec fn is_order_id(id: Id32, trader: Id32, nonce: u64) -> bool {
    id@ == order_id_bytes(trader, nonce)
}

/// The order that a request makes.
pub open spec fn requested_order(p: SubmitOrderRequest, id: Id32) -> OrderSpec {
    OrderSpec {
        id,
        trader: p.trader,
        symbol: p.symbol@,
        side: p.side,
        price: p.price,
        amount: p.amount,
        signature: p.signature@,
        nonce: p.nonce,
        expiry: p.expiry,
        settlement_preference: p.settlement_preference,
        settlement_requester: p.settlement_requester,
    }
}

/// The receipt of an order that came in at the given time.
pub open spec fn receipt_for(key: Id32, o: OrderSpec, received_at_us: u64) -> ReceiptSpec {
    receipt_at(
        key@,
        o.id,
        o.trader,
        o.symbol,
        o.side,
        o.price,
        o.amount,
        o.nonce,
        o.expiry,
        received_at_us,
    )
}

/// What is to be done with a submitted order once it has been recorded.
pub enum Submission {
    Refused { response: SubmitOrderResponse },
    Queue { order: Order, receipt: OrderReceipt },
    Apply { order: Order, receipt: OrderReceipt },
}

/// The order has been queued or applied before.
pub open spec fn known_order(s: AppSpec, id: Id32) -> bool {
    s.queued.contains_key(id) || s.applied.contains(id)
}

/// What is to be done with a submitted order: one with a bad signature is refused, and with
/// sequencing on one that was seen before is refused and a new one waits its turn; with
/// sequencing off an order is applied at once.
pub open spec fn decided(
    s: AppSpec,
    p: SubmitOrderRequest,
    signature_valid: bool,
    received_at_us: u64,
    d: Submission,
) -> bool {
    exists|id: Id32|
        #![trigger is_order_id(id, p.trader, p.nonce)]
        is_order_id(id, p.trader, p.nonce) && ({
            let o = requested_order(p, id);
            if !signature_valid {
                d matches Submission::Refused { response } && response@ == refused(
                    id,
                    "Invalid order signature"@,
                )
            } else if s.sequencing && known_order(s, id) {
                d matches Submission::Refused { response } && response@ == refused(
                    id,
                    "Order already submitted"@,
                )
            } else if s.sequencing {
                d matches Submission::Queue { order, receipt } && order@ == o && receipt@
                    == receipt_for(s.key, o, received_at_us)
            } else {
                d matches Submission::Apply { order, receipt } && order@ == o && receipt@
                    == receipt_for(s.key, o, received_at_us)
            }
        })
}

/// The words for an order that could not be recorded.
pub open spec fn unrecorded_text(e: Seq<char>) -> Seq<char> {
    "internal error: could not durably record order: "@ + e
}

/// What an order that was to be applied or queued comes to, once recording it has succeeded or
/// failed. Where it failed nothing changes.
pub open spec fn completed(
    s: AppSpec,
    d: Submission,
    recorded: Option<Seq<char>>,
    timestamp_us: u64,
) -> (AppSpec, ResponseSpec) {
    match d {
        Submission::Refused { response } => (s, response@),
        Submission::Queue { order, receipt } => match recorded {
            Some(e) => (s, refused(order.id, unrecorded_text(e))),
            None => (
                queued_up(s, order@, receipt@),
                ResponseSpec {
                    success: true,
                    order_id: order.id,
                    matches: Seq::empty(),
                    error: None,
                    receipt: Some(receipt@),
                    pending: true,
                },
            ),
        },
        Submission::Apply { order, receipt } => match recorded {
            Some(e) => (s, refused(order.id, unrecorded_text(e))),
            None => (
                accepted(s, order@, receipt@, timestamp_us),
                ResponseSpec {
                    success: true,
                    order_id: order.id,
                    matches: matches_after(s.book, order@, timestamp_us),
                    error: None,
                    receipt: Some(receipt@),
                    pending: false,
                },
            ),
        },
    }
}

/// Why recording failed, if it did.
pub open spec fn failure(recorded: Result<(), String>) -> Option<Seq<char>> {
    match recorded {
        Ok(_) => None,
        Err(e) => Some(e@),
    }
}

fn refusal(order_id: Id32, error: String) -> (r: SubmitOrderResponse)
    ensures
        r@ == refused(order_id, error@),
{
    let r = SubmitOrderResponse {
        success: false,
        order_id,
        matches: Vec::new(),
        error: Some(error),
        receipt: None,
        pending: false,
    };
    assert(matches_view(r.matches@) =~= Seq::empty());
    r
}

/// Signs the receipt of an order.
fn receipt_of(key: &Id32, order: &Order, received_at_us: u64) -> (r: OrderReceipt)
    ensures
        r@ == receipt_for(*key, order@, received_at_us),
{
    sign_receipt_at(
        key,
        order.id,
        order.trader,
        order.symbol.as_str(),
        order.side,
        order.price,
        order.amount,
        order.nonce,
        order.expiry,
        received_at_us,
    )
}

impl AppState {
    /// A venue with nothing in it.
    pub fn new(node_id: NodeId, symbol: String, receipt_signing_key: Id32, sequencing: bool) -> (r:
        Self)
        ensures
            r@ == fresh_state(node_id, symbol@, receipt_signing_key, sequencing),
    {
        let r = AppState {
            node_id,
            order_book: OrderBook::new(symbol),
            pending_commits: AssocMap::new(),
            confirmed_trade_hashes: AssocMap::new(),
            batcher: SettlementBatcher::new(),
            receipt_signing_key,
            order_log: Vec::new(),
            match_log: Vec::new(),
            sequencing,
            sequence: Vec::new(),
            pending_order_data: AssocMap::new(),
            applied_order_ids: IdSet::new(),
        };
        proof {
            assert(r@.pending =~= Map::empty());
            assert(r@.queued =~= Map::empty());
            assert(r@.order_log =~= Seq::empty());
            assert(r@.match_log =~= Seq::empty());
            assert(r@ =~= fresh_state(node_id, symbol@, receipt_signing_key, sequencing));
        }
        r
    }

    /// Applies an accepted order at the given time.
    pub fn apply_accepted_order_at(
        &mut self,
        order: Order,
        receipt: OrderReceipt,
        timestamp_us: u64,
    ) -> (r: Vec<Match>)
        ensures
            final(self)@ == accepted(old(self)@, order@, receipt@, timestamp_us),
            matches_view(r@) == matches_after(old(self)@.book, order@, timestamp_us),
    {
        let ghost s = self@;
        let ghost o = order@;
        let ghost rv = receipt@;
        self.applied_order_ids.insert(order.id);
        let ghost l0 = self.order_log@;
        self.order_log.push(receipt);
        let matches: Vec<Match> = self.order_book.add_order_at(order, timestamp_us);
        let ghost ms = matches_view(matches@);
        let ghost p0 = s.pending;
        proof {
            assert(receipts_view(self.order_log@) =~= receipts_view(l0).push(rv));
            assert(matches_view(self.match_log@) =~= s.match_log + ms.take(0));
        }
        let mut i: usize = 0;
        while i < matches.len()
            invariant
                i <= matches@.len(),
                ms == matches_view(matches@),
                p0 == s.pending,
                self@ == (AppSpec {
                    book: book_after(s.book, o),
                    applied: s.applied.insert(o.id),
                    order_log: s.order_log.push(rv),
                    match_log: s.match_log + ms.take(i as int),
                    pending: pend_all(p0, ms, i as nat),
                    ..s
                }),
            decreases matches@.len() - i,
        {
            let m: &Match = &matches[i];
            proof {
                assert(ms[i as int] == m@);
            }
            let ghost g0 = self.match_log@;
            let ghost q0 = self.pending_commits@;
            let logged: Match = m.duplicate();
            let waiting: Match = m.duplicate();
            self.match_log.push(logged);
            self.pending_commits.insert((m.maker_order_id, m.taker_order_id), waiting);
            proof {
                assert(matches_view(self.match_log@) =~= matches_view(g0).push(m@));
                assert(ms.take(i + 1) =~= ms.take(i as int).push(m@));
                assert(s.match_log + ms.take(i + 1) =~= (s.match_log + ms.take(i as int)).push(
                    m@,
                ));
                assert(self@.pending =~= pend_all(p0, ms, (i + 1) as nat));
            }
            i = i + 1;
        }
        proof {
            assert(ms.take(ms.len() as int) =~= ms);
        }
        matches
    }

    /// Applies an accepted order, at the given time or, where none is given, now.
    pub fn apply_accepted_order(
        &mut self,
        order: Order,
        receipt: OrderReceipt,
        match_timestamp_us: Option<u64>,
    ) -> (r: Vec<Match>)
        ensures
            exists|t: u64|
                (match_timestamp_us is Some ==> t == match_timestamp_us->0) && final(self)@
                    == #[trigger] accepted(old(self)@, order@, receipt@, t) && matches_view(r@)
                    == matches_after(old(self)@.book, order@, t),
    {
        let t: u64 = match match_timestamp_us {
            Some(t) => t,
            None => unix_micros(),
        };
        self.apply_accepted_order_at(order, receipt, t)
    }

    /// Puts an accepted order in the queue.
    pub fn queue_for_sequencing(&mut self, order: Order, receipt: OrderReceipt)
        ensures
            final(self)@ == queued_up(old(self)@, order@, receipt@),
    {
        let ghost s = self@;
        let ghost o = order@;
        let ghost r = receipt@;
        let id: Id32 = order.id;
        self.sequence.push(id);
        self.pending_order_data.insert(id, (order, receipt));
        proof {
            assert(self@.queued =~= s.queued.insert(o.id, (o, r)));
        }
    }

    /// Decides what is to be done with a submitted order, and signs its receipt. Whether the
    /// order's own signature is good is for the caller to find out. Nothing changes yet.
    pub fn begin_submit(
        &self,
        payload: SubmitOrderRequest,
        signature_valid: bool,
        received_at_us: u64,
    ) -> (r: Submission)
        ensures
            decided(self@, payload, signature_valid, received_at_us, r),
    {
        let id: Id32 = derive_order_id(&payload.trader, payload.nonce);
        let ghost p = payload;
        proof {
            assert(is_order_id(id, p.trader, p.nonce));
        }
        let order = Order {
            id,
            trader: payload.trader,
            symbol: payload.symbol,
            side: payload.side,
            price: payload.price,
            amount: payload.amount,
            signature: payload.signature,
            nonce: payload.nonce,
            expiry: payload.expiry,
            settlement_preference: payload.settlement_preference,
            settlement_requester: payload.settlement_requester,
        };
        proof {
            assert(order@ == requested_order(p, id));
        }
        if !signature_valid {
            return Submission::Refused {
                response: refusal(id, "Invalid order signature".to_owned()),
            };
        }
        let receipt: OrderReceipt = receipt_of(&self.receipt_signing_key, &order, received_at_us);
        if self.sequencing {
            if self.pending_order_data.contains_key(&id) || self.applied_order_ids.contains(&id) {
                return Submission::Refused {
                    response: refusal(id, "Order already submitted".to_owned()),
                };
            }
            return Submission::Queue { order, receipt };
        }
        Submission::Apply { order, receipt }
    }

    /// Does what was decided, given whether recording it has succeeded. An order that is applied
    /// is matched at the given time.
    pub fn finish_submit_at(
        &mut self,
        decision: Submission,
        recorded: Result<(), String>,
        timestamp_us: u64,
    ) -> (r: SubmitOrderResponse)
        ensures
            (final(self)@, r@) == completed(
                old(self)@,
                decision,
                failure(recorded),
                timestamp_us,
            ),
    {
        match decision {
            Submission::Refused { response } => response,
            Submission::Queue { order, receipt } => match recorded {
                Err(e) => refusal(
                    order.id,
                    joined("internal error: could not durably record order: ", e.as_str()),
                ),
                Ok(_) => {
                    let order_id: Id32 = order.id;
                    let kept: OrderReceipt = receipt.duplicate();
                    self.queue_for_sequencing(order, kept);
                    let r = SubmitOrderResponse {
                        success: true,
                        order_id,
                        matches: Vec::new(),
                        error: None,
                        receipt: Some(receipt),
                        pending: true,
                    };
                    assert(matches_view(r.matches@) =~= Seq::empty());
                    r
                },
            },
            Submission::Apply { order, receipt } => match recorded {
                Err(e) => refusal(
                    order.id,
                    joined("internal error: could not durably record order: ", e.as_str()),
                ),
                Ok(_) => {
                    let order_id: Id32 = order.id;
                    let kept: OrderReceipt = receipt.duplicate();
                    let matches: Vec<Match> = self.apply_accepted_order_at(
                        order,
                        kept,
                        timestamp_us,
                    );
                    SubmitOrderResponse {
                        success: true,
                        order_id,
                        matches,
                        error: None,
                        receipt: Some(receipt),
                        pending: false,
                    }
                },
            },
        }
    }

    /// Takes a submitted order in, where nothing needs recording: it is received and matched now.
    pub fn submit_order(&mut self, payload: SubmitOrderRequest, signature_valid: bool) -> (r:
        SubmitOrderResponse)
        ensures
            exists|d: Submission, received_at_us: u64, timestamp_us: u64|
                #![trigger decided(old(self)@, payload, signature_valid, received_at_us, d), completed(old(self)@, d, None, timestamp_us)]
                decided(old(self)@, payload, signature_valid, received_at_us, d) && (
                final(self)@, r@) == completed(old(self)@, d, None, timestamp_us),
    {
        let received_at_us: u64 = unix_micros();
        let decision: Submission = self.begin_submit(payload, signature_valid, received_at_us);
        let timestamp_us: u64 = unix_micros();
        let ghost d = decision;
        let r: SubmitOrderResponse = self.finish_submit_at(decision, Ok(()), timestamp_us);
        proof {
            assert((self@, r@) == completed(old(self)@, d, None, timestamp_us));
        }
        r
    }

    /// Decides whether an order that came by gossip is to be queued, and signs its receipt if so.
    /// It is not where sequencing is off, where it was seen before, or where its signature is bad.
    pub fn begin_gossip(&self, order: &Order, signature_valid: bool, received_at_us: u64) -> (r:
        Option<OrderReceipt>)
        ensures
            match r {
                Some(receipt) => self@.sequencing && !known_order(self@, order.id)
                    && signature_valid && receipt@ == receipt_for(
                    self@.key,
                    order@,
                    received_at_us,
                ),
                None => !self@.sequencing || known_order(self@, order.id) || !signature_valid,
            },
    {
        if !self.sequencing {
            return None;
        }
        if self.pending_order_data.contains_key(&order.id) || self.applied_order_ids.contains(
            &order.id,
        ) {
            return None;
        }
        if !signature_valid {
            return None;
        }
        Some(receipt_of(&self.receipt_signing_key, order, received_at_us))
    }

    /// Takes the queue, to be put in the order that peers agree on.
    pub fn take_sequence(&mut self) -> (r: Vec<Id32>)
        ensures
            r@ == old(self)@.sequence,
            final(self)@ == (AppSpec { sequence: Seq::empty(), ..old(self)@ }),
    {
        let mut out: Vec<Id32> = Vec::new();
        std::mem::swap(&mut out, &mut self.sequence);
        assert(self@ =~= (AppSpec { sequence: Seq::empty(), ..old(self)@ }));
        out
    }

    /// Takes a queued order out, to be applied.
    pub fn take_queued(&mut self, order_id: &Id32) -> (r: Option<(Order, OrderReceipt)>)
        ensures
            match r {
                Some((o, c)) => old(self)@.queued.contains_key(*order_id)
                    && old(self)@.queued[*order_id] == (o@, c@),
                None => !old(self)@.queued.contains_key(*order_id),
            },
            final(self)@ == (AppSpec { queued: old(self)@.queued.remove(*order_id), ..old(self)@ }),
    {
        let ghost s = self@;
        let r: Option<(Order, OrderReceipt)> = self.pending_order_data.remove(order_id);
        proof {
            assert(self@.queued =~= s.queued.remove(*order_id));
        }
        r
    }

    /// Applies queued orders in the order given, each at its time. An id that nothing is queued
    /// under is passed over.
    pub fn apply_sequence(&mut self, resolved: &Vec<(Id32, u64)>) -> (r: Vec<Match>)
        ensures
            final(self)@ == sequenced(old(self)@, resolved@, resolved@.len()).0,
            matches_view(r@) == sequenced(old(self)@, resolved@, resolved@.len()).1,
    {
        let ghost s = self@;
        let mut out: Vec<Match> = Vec::new();
        let mut i: usize = 0;
        proof {
            assert(matches_view(out@) =~= Seq::empty());
        }
        while i < resolved.len()
            invariant
                i <= resolved@.len(),
                self@ == sequenced(s, resolved@, i as nat).0,
                matches_view(out@) == sequenced(s, resolved@, i as nat).1,
            decreases resolved@.len() - i,
        {
            let (id, t): (Id32, u64) = resolved[i];
            let ghost mid = self@;
            let ghost o0 = matches_view(out@);
            match self.take_queued(&id) {
                Some((order, receipt)) => {
                    let mut ms: Vec<Match> = self.apply_accepted_order_at(order, receipt, t);
                    let ghost mv = matches_view(ms@);
                    out.append(&mut ms);
                    proof {
                        assert(matches_view(out@) =~= o0 + mv);
                    }
                },
                None => {
                    proof {
                        assert(mid.queued.remove(id) =~= mid.queued);
                        assert(self@ =~= mid);
                    }
                },
            }
            i = i + 1;
        }
        out
    }

    /// A trader confirms that a match has been committed to. `recorded` says whether recording the
    /// confirmation has succeeded; where it has not, the match waits on.
    pub fn confirm_committed(
        &mut self,
        payload: &ConfirmCommitRequest,
        recorded: Result<(), String>,
    ) -> (r: ConfirmCommitResponse)
        requires
            ({
                let key = (payload.maker_order_id, payload.taker_order_id);
                old(self)@.pending.contains_key(key) && recorded is Ok ==> confirm_fits(
                    old(self)@.batcher.balances,
                    old(self)@.pending[key],
                )
            }),
        ensures
            (final(self)@, opt_text(r.error)) == confirm_outcome(
                old(self)@,
                (payload.maker_order_id, payload.taker_order_id),
                payload.trade_hash,
                failure(recorded),
            ),
            r.success == (r.error is None),
    {
        let ghost s = self@;
        let key: (Id32, Id32) = (payload.maker_order_id, payload.taker_order_id);
        let m: Match = match self.pending_commits.remove(&key) {
            Some(m) => m,
            None => {
                proof {
                    assert(self@.pending =~= s.pending);
                    assert(self@ =~= s);
                }
                return ConfirmCommitResponse {
                    success: false,
                    error: Some(
                        "no pending match for that (maker_order_id, taker_order_id)".to_owned(),
                    ),
                };
            },
        };
        proof {
            assert(s.pending.contains_key(key));
            assert(s.pending[key] == m@);
        }
        match recorded {
            Err(e) => {
                self.pending_commits.insert(key, m);
                proof {
                    assert(self@.pending =~= s.pending);
                    assert(self@ =~= s);
                }
                ConfirmCommitResponse {
                    success: false,
                    error: Some(
                        joined(
                            "internal error: could not durably record confirmation: ",
                            e.as_str(),
                        ),
                    ),
                }
            },
            Ok(_) => {
                proof {
                    assert(self@.pending =~= s.pending.remove(key));
                }
                self.confirm_committed_locally(m, payload.trade_hash);
                ConfirmCommitResponse { success: true, error: None }
            },
        }
    }

    /// What a recorded confirmation does: the match, no longer pending, waits to be settled.
    pub fn confirm_committed_locally(&mut self, m: Match, trade_hash: Id32)
        requires
            confirm_fits(old(self)@.batcher.balances, m@),
        ensures
            final(self)@ == confirmed(old(self)@, m@, trade_hash),
    {
        proof {
            assert(0 <= m.price * m.amount) by (nonlinear_arith);
        }
        self.confirmed_trade_hashes.insert((m.maker_order_id, m.taker_order_id), trade_hash);
        let value: u64 = m.price * m.amount;
        self.batcher.deposit(m.taker_trader, m.symbol.as_str(), value);
        self.batcher.enqueue(m);
    }
}

/// The match that waited under a key has been committed to.
pub open spec fn confirmed_pending(s: AppSpec, key: (Id32, Id32), trade_hash: Id32) -> AppSpec {
    confirmed(AppSpec { pending: s.pending.remove(key), ..s }, s.pending[key], trade_hash)
}

/// What a confirmation does to the state, and the error that answers it, if any: a match that does
/// not wait cannot be confirmed, and one whose confirmation could not be recorded waits on.
pub open spec fn confirm_outcome(
    s: AppSpec,
    key: (Id32, Id32),
    trade_hash: Id32,
    failed: Option<Seq<char>>,
) -> (AppSpec, Option<Seq<char>>) {
    if !s.pending.contains_key(key) {
        (s, Some("no pending match for that (maker_order_id, taker_order_id)"@))
    } else {
        match failed {
            Some(e) => (
                s,
                Some("internal error: could not durably record confirmation: "@ + e),
            ),
            None => (confirmed_pending(s, key, trade_hash), None),
        }
    }
}

/// The state and the matches after the first `n` of a list of queued orders have been applied.
pub open spec fn sequenced(s: AppSpec, resolved: Seq<(Id32, u64)>, n: nat) -> (
    AppSpec,
    Seq<MatchSpec>,
)
    decreases n,
{
    if n == 0 {
        (s, Seq::empty())
    } else {
        let (mid, ms) = sequenced(s, resolved, (n - 1) as nat);
        let (id, t) = resolved[n - 1];
        if mid.queued.contains_key(id) {
            let (o, r) = mid.queued[id];
            let taken = AppSpec { queued: mid.queued.remove(id), ..mid };
            (accepted(taken, o, r, t), ms + matches_after(mid.book, o, t))
        } else {
            (mid, ms)
        }
    }
}

proof fn lemma_pend_none(
    p: Map<(Id32, Id32), MatchSpec>,
    ms: Seq<MatchSpec>,
    i: nat,
    n: nat,
    key: (Id32, Id32),
)
    requires
        i <= n <= ms.len(),
        forall|j: int| i <= j < n ==> match_key(#[trigger] ms[j]) != key,
    ensures
        pend_all(p, ms, n).contains_key(key) == pend_all(p, ms, i).contains_key(key),
        pend_all(p, ms, n)[key] == pend_all(p, ms, i)[key],
    decreases n,
{
    if i < n {
        lemma_pend_none(p, ms, i, (n - 1) as nat, key);
        assert(match_key(ms[n - 1]) != key);
    }
}

proof fn lemma_pend_stays(
    p: Map<(Id32, Id32), MatchSpec>,
    ms: Seq<MatchSpec>,
    i: nat,
    n: nat,
    key: (Id32, Id32),
)
    requires
        i < n <= ms.len(),
        match_key(ms[i as int]) == key,
    ensures
        pend_all(p, ms, n).contains_key(key),
    decreases n,
{
    if i < n - 1 {
        lemma_pend_stays(p, ms, i, (n - 1) as nat, key);
    }
}

/// What an accepted order does: it is matched in the book, its id counts as applied, its receipt ends
/// the log of orders, its matches end the log of matches in their order, and each of them waits for
/// its commit under its two orders. Nothing waits that did not before but these, and what is confirmed,
/// settled or queued stays as it is.
pub proof fn law_accepted_order_takes_effect(
    s: AppSpec,
    o: OrderSpec,
    r: ReceiptSpec,
    timestamp_us: u64,
    key: (Id32, Id32),
    i: int,
)
    ensures
        ({
            let a = accepted(s, o, r, timestamp_us);
            let ms = matches_after(s.book, o, timestamp_us);
            let waits = |k: int| ms[k].maker_order_id == key.0 && ms[k].taker_order_id == key.1;
            &&& a.book == book_after(s.book, o)
            &&& a.applied == s.applied.insert(o.id)
            &&& a.order_log == s.order_log.push(r)
            &&& a.match_log == s.match_log + ms
            &&& 0 <= i < ms.len() && waits(i) ==> a.pending.contains_key(key)
            &&& 0 <= i < ms.len() && waits(i) && (forall|j: int|
                i < j < ms.len() ==> !#[trigger] waits(j)) ==> a.pending[key] == ms[i]
            &&& (forall|j: int| 0 <= j < ms.len() ==> !#[trigger] waits(j))
                ==> a.pending.contains_key(key) == s.pending.contains_key(key) && a.pending[key]
                == s.pending[key]
            &&& a.confirmed == s.confirmed
            &&& a.batcher == s.batcher
            &&& a.queued == s.queued
            &&& a.sequence == s.sequence
            &&& a.sequencing == s.sequencing
            &&& a.key == s.key
            &&& a.node_id == s.node_id
        }),
{
    let ms = matches_after(s.book, o, timestamp_us);
    let waits = |k: int| ms[k].maker_order_id == key.0 && ms[k].taker_order_id == key.1;
    let n = ms.len();
    if forall|j: int| 0 <= j < n ==> !#[trigger] waits(j) {
        assert forall|j: int| 0 <= j < n implies match_key(#[trigger] ms[j]) != key by {
            assert(!waits(j));
        }
        lemma_pend_none(s.pending, ms, 0, n, key);
    }
    if 0 <= i < n && waits(i) {
        assert(match_key(ms[i]) == key);
        lemma_pend_stays(s.pending, ms, i as nat, n, key);
        if forall|j: int| i < j < n ==> !#[trigger] waits(j) {
            assert forall|j: int| i + 1 <= j < n implies match_key(#[trigger] ms[j]) != key by {
                assert(!waits(j));
            }
            lemma_pend_none(s.pending, ms, (i + 1) as nat, n, key);
        }
    }
}

/// What is decided about a submitted order. A bad signature is always refused. With sequencing on an
/// order that was queued or applied before is refused and any other one is to be queued; with
/// sequencing off every one is to be applied. What is queued or applied is the order that was asked
/// for, under the id of its trader and nonce, and its receipt says the same, signed by this node.
pub proof fn law_submissions_are_decided(
    s: AppSpec,
    p: SubmitOrderRequest,
    signature_valid: bool,
    received_at_us: u64,
    d: Submission,
    id: Id32,
)
    requires
        decided(s, p, signature_valid, received_at_us, d),
        id@ == p.trader@.take(16) + be8(p.nonce) + zeros(8),
    ensures
        ({
            let seen = s.queued.contains_key(id) || s.applied.contains(id);
            match d {
                Submission::Refused { response } => {
                    &&& !signature_valid || s.sequencing && seen
                    &&& !response.success
                    &&& response.order_id == id
                    &&& response.matches@.len() == 0
                    &&& response.receipt is None
                    &&& !response.pending
                    &&& response.error is Some
                },
                Submission::Queue { order, receipt } => {
                    &&& signature_valid && s.sequencing && !seen
                    &&& is_requested(order@, receipt@, p, id, s.key, received_at_us)
                },
                Submission::Apply { order, receipt } => {
                    &&& signature_valid && !s.sequencing
                    &&& is_requested(order@, receipt@, p, id, s.key, received_at_us)
                },
            }
        }),
{
    let x = choose|x: Id32|
        #![trigger is_order_id(x, p.trader, p.nonce)]
        is_order_id(x, p.trader, p.nonce) && ({
            let o = requested_order(p, x);
            if !signature_valid {
                d matches Submission::Refused { response } && response@ == refused(
                    x,
                    "Invalid order signature"@,
                )
            } else if s.sequencing && known_order(s, x) {
                d matches Submission::Refused { response } && response@ == refused(
                    x,
                    "Order already submitted"@,
                )
            } else if s.sequencing {
                d matches Submission::Queue { order, receipt } && order@ == o && receipt@
                    == receipt_for(s.key, o, received_at_us)
            } else {
                d matches Submission::Apply { order, receipt } && order@ == o && receipt@
                    == receipt_for(s.key, o, received_at_us)
            }
        });
    assert(is_order_id(x, p.trader, p.nonce));
    assert(x@ == id@);
    assert(forall|i: int| 0 <= i < 32 ==> x@[i] == id@[i]);
    assert(x =~= id);
    match d {
        Submission::Refused { response } => {
            assert(response@.matches.len() == response.matches@.len());
        },
        _ => {},
    }
}

/// An order and its receipt say what was asked for.
pub open spec fn is_requested(
    o: OrderSpec,
    r: ReceiptSpec,
    p: SubmitOrderRequest,
    id: Id32,
    key: Id32,
    received_at_us: u64,
) -> bool {
    &&& o.id == id && r.order_id == id
    &&& o.trader == p.trader && r.trader == p.trader
    &&& o.symbol == p.symbol@ && r.symbol == p.symbol@
    &&& o.side == p.side && r.side == p.side
    &&& o.price == p.price && r.price == p.price
    &&& o.amount == p.amount && r.amount == p.amount
    &&& o.nonce == p.nonce && r.nonce == p.nonce
    &&& o.expiry == p.expiry && r.expiry == p.expiry
    &&& o.signature == p.signature@
    &&& o.settlement_preference == p.settlement_preference
    &&& o.settlement_requester == p.settlement_requester
    &&& r.received_at_us == received_at_us
    &&& r.node_pubkey == crate::receipts::ed25519_public(key@)
    &&& r.signature == crate::receipts::ed25519_signature(key@, crate::receipts::message_of(r))
}

/// What a decided order comes to. Refused, or not recorded, it changes nothing and does not succeed.
/// Recorded, an order to be queued waits last in line and has no matches yet; an order to be applied
/// is applied, and its matches are those that it adds to the log.
pub proof fn law_decisions_are_carried_out(
    s: AppSpec,
    d: Submission,
    recorded: Option<Seq<char>>,
    timestamp_us: u64,
)
    ensures
        ({
            let (a, r) = completed(s, d, recorded, timestamp_us);
            match d {
                Submission::Refused { response } => a == s && r == response@,
                Submission::Queue { order, receipt } => if recorded is Some {
                    a == s && !r.success && r.error is Some && r.matches.len() == 0 && r.order_id
                        == order.id && r.receipt is None
                } else {
                    &&& a.sequence == s.sequence.push(order.id)
                    &&& a.queued == s.queued.insert(order.id, (order@, receipt@))
                    &&& a == (AppSpec { sequence: a.sequence, queued: a.queued, ..s })
                    &&& r.success && r.pending && r.error is None && r.matches.len() == 0
                    &&& r.order_id == order.id
                    &&& r.receipt == Some(receipt@)
                },
                Submission::Apply { order, receipt } => if recorded is Some {
                    a == s && !r.success && r.error is Some && r.matches.len() == 0 && r.order_id
                        == order.id && r.receipt is None
                } else {
                    &&& a.match_log == s.match_log + r.matches
                    &&& a.order_log == s.order_log.push(receipt@)
                    &&& a.applied.contains(order.id)
                    &&& a.book == book_after(s.book, order@)
                    &&& r.success && !r.pending && r.error is None
                    &&& r.order_id == order.id
                    &&& r.receipt == Some(receipt@)
                },
            }
        }),
{
}

/// Applying a sequence. Each listed order that waits is applied, once, and no longer waits; one that
/// is not listed keeps waiting. What matched is what is added to the log.
pub proof fn law_sequences_apply_what_waits(
    s: AppSpec,
    resolved: Seq<(Id32, u64)>,
    n: nat,
    id: Id32,
)
    requires
        n <= resolved.len(),
        forall|x: Id32| #[trigger] s.queued.contains_key(x) ==> s.queued[x].0.id == x,
    ensures
        ({
            let (a, ms) = sequenced(s, resolved, n);
            let listed = exists|i: int| 0 <= i < n && (#[trigger] resolved[i]).0 == id;
            &&& a.queued.contains_key(id) == (s.queued.contains_key(id) && !listed)
            &&& a.queued.contains_key(id) ==> a.queued[id] == s.queued[id]
            &&& a.applied.contains(id) == (s.applied.contains(id) || listed
                && s.queued.contains_key(id))
            &&& a.match_log == s.match_log + ms
            &&& a.confirmed == s.confirmed
            &&& a.batcher == s.batcher
            &&& forall|x: Id32| #[trigger] a.queued.contains_key(x) ==> a.queued[x].0.id == x
        }),
    decreases n,
{
    if n > 0 {
        let k = (n - 1) as nat;
        law_sequences_apply_what_waits(s, resolved, k, id);
        let (mid, ms) = sequenced(s, resolved, k);
        let (x, t) = resolved[n - 1];
        let (a, all) = sequenced(s, resolved, n);
        if mid.queued.contains_key(x) {
            assert(a.match_log =~= s.match_log + all);
        }
        if x == id {
            assert(resolved[n - 1].0 == id);
        }
    } else {
        assert(s.match_log + Seq::<MatchSpec>::empty() =~= s.match_log);
    }
}

/// A confirmation of what does not wait, or one that could not be recorded, is an error and changes
/// nothing; every other one succeeds.
pub proof fn law_unrecorded_confirmation_changes_nothing(
    s: AppSpec,
    key: (Id32, Id32),
    trade_hash: Id32,
    failed: Option<Seq<char>>,
)
    ensures
        ({
            let (a, error) = confirm_outcome(s, key, trade_hash, failed);
            let done = s.pending.contains_key(key) && failed is None;
            &&& error is None <==> done
            &&& !done ==> a == s
        }),
{
}

/// What a confirmation does: the match no longer waits for one, its hash is kept under its two orders, the
/// taker is credited with what it is worth, so that the settlement can be paid, and it waits last in the
/// queue of its tier. Nobody else's balance, no other match and nothing else changes.
pub proof fn law_confirmation_credits_the_taker(
    s: AppSpec,
    key: (Id32, Id32),
    trade_hash: Id32,
    other: (Id32, Seq<char>),
)
    requires
        s.pending.contains_key(key),
        match_key(s.pending[key]) == key,
        confirm_fits(s.batcher.balances, s.pending[key]),
    ensures
        ({
            let m = s.pending[key];
            let (a, e) = confirm_outcome(s, key, trade_hash, None);
            let b = s.batcher;
            let c = a.batcher;
            let payer = (m.taker_trader, m.symbol);
            &&& e is None
            &&& a.pending == s.pending.remove(key)
            &&& a.confirmed == s.confirmed.insert(
                (m.maker_order_id, m.taker_order_id),
                trade_hash,
            )
            &&& balance(c.balances, payer) == balance(b.balances, payer) + m.price * m.amount
            &&& other != payer ==> balance(c.balances, other) == balance(b.balances, other)
            &&& c.instant == if m.settlement_tier == SettlementPreference::Instant {
                b.instant.push(m)
            } else {
                b.instant
            }
            &&& c.express == if m.settlement_tier == SettlementPreference::Express {
                b.express.push(m)
            } else {
                b.express
            }
            &&& c.standard == if m.settlement_tier == SettlementPreference::Standard {
                b.standard.push(m)
            } else {
                b.standard
            }
            &&& c == (BatcherSpec {
                instant: c.instant,
                express: c.express,
                standard: c.standard,
                balances: c.balances,
                ..b
            })
            &&& a == (AppSpec {
                pending: a.pending,
                confirmed: a.confirmed,
                batcher: a.batcher,
                ..s
            })
        }),
{
}

} // verus!
