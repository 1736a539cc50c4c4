//! What is seen on the chain, and what it does to the ledger.

use crate::accounts::{keccak, keccak256, EthAddress};
use crate::bytes::{be_value, id_from_slice, lemma_be_value_grows, same_id, Id32};
use crate::hexes::{hex_encode, hex_text};
use crate::ledger::{balance, credited, debited, BalanceLedger, Balances};
use crate::registry::{EscrowOwner, EscrowRegistry, TokenRegistry};
use crate::text::joined;
use vstd::prelude::*;
use vstd::slice::slice_subrange;
use vstd::utf8::encode_utf8;

verus! {

/// Something seen on the chain, resolved as far as the registries allow.
#[derive(Clone, Debug, PartialEq, Eq)]
pub enum ChainEvent {
    EscrowCreated { trader: EthAddress, escrow: EthAddress, offchain_pubkey: Id32 },
    Deposited {
        escrow: EthAddress,
        trader: EthAddress,
        offchain_pubkey: Id32,
        token: EthAddress,
        symbol: Option<String>,
        amount: u128,
        block_number: u64,
    },
    Withdrawn {
        escrow: EthAddress,
        trader: EthAddress,
        offchain_pubkey: Id32,
        token: EthAddress,
        symbol: Option<String>,
        amount: u128,
        block_number: u64,
    },
}

/// What a [`ChainEvent`] stands for.
pub enum EventSpec {
    EscrowCreated { trader: EthAddress, escrow: EthAddress, offchain_pubkey: Id32 },
    Deposited {
        escrow: EthAddress,
        trader: EthAddress,
        offchain_pubkey: Id32,
        token: EthAddress,
        symbol: Option<Seq<char>>,
        amount: u128,
        block_number: u64,
    },
    Withdrawn {
        escrow: EthAddress,
        trader: EthAddress,
        offchain_pubkey: Id32,
        token: EthAddress,
        symbol: Option<Seq<char>>,
        amount: u128,
        block_number: u64,
    },
}

/// A text that may be missing.
pub open spec fn opt_text(s: Option<String>) -> Option<Seq<char>> {
    match s {
        Some(t) => Some(t@),
        None => None,
    }
}

impl View for ChainEvent {
    type V = EventSpec;

    open spec fn view(&self) -> EventSpec {
        match *self {
            ChainEvent::EscrowCreated { trader, escrow, offchain_pubkey } => {
                EventSpec::EscrowCreated { trader, escrow, offchain_pubkey }
            },
            ChainEvent::Deposited {
                escrow,
                trader,
                offchain_pubkey,
                token,
                symbol,
                amount,
                block_number,
            } => EventSpec::Deposited {
                escrow,
                trader,
                offchain_pubkey,
                token,
                symbol: opt_text(symbol),
                amount,
                block_number,
            },
            ChainEvent::Withdrawn {
                escrow,
                trader,
                offchain_pubkey,
                token,
                symbol,
                amount,
                block_number,
            } => EventSpec::Withdrawn {
                escrow,
                trader,
                offchain_pubkey,
                token,
                symbol: opt_text(symbol),
                amount,
                block_number,
            },
        }
    }
}

/// Events, each by its view.
pub open spec fn events_view(s: Seq<ChainEvent>) -> Seq<EventSpec> {
    Seq::new(s.len(), |i: int| s[i]@)
}

/// The ledger after an event. A deposit or a withdrawal counts where its token has a symbol and its
/// amount fits a balance; a withdrawal of more than is there does nothing.
pub open spec fn ledger_after(b: Balances, e: EventSpec) -> Balances {
    match e {
        EventSpec::EscrowCreated { .. } => b,
        EventSpec::Deposited { offchain_pubkey, symbol, amount, .. } => match symbol {
            Some(s) => if amount <= u64::MAX {
                credited(b, (offchain_pubkey, s), amount as u64)
            } else {
                b
            },
            None => b,
        },
        EventSpec::Withdrawn { offchain_pubkey, symbol, amount, .. } => match symbol {
            Some(s) => if amount <= balance(b, (offchain_pubkey, s)) {
                debited(b, (offchain_pubkey, s), amount as u64)
            } else {
                b
            },
            None => b,
        },
    }
}

/// The balance that a deposit makes can be held.
pub open spec fn event_fits(b: Balances, e: EventSpec) -> bool {
    match e {
        EventSpec::Deposited { offchain_pubkey, symbol: Some(s), amount, .. } => amount
            <= u64::MAX ==> balance(b, (offchain_pubkey, s)) + amount <= u64::MAX,
        _ => true,
    }
}

/// The ledger after the first `n` events.
pub open spec fn ledger_after_all(b: Balances, events: Seq<EventSpec>, n: nat) -> Balances
    decreases n,
{
    if n == 0 {
        b
    } else {
        ledger_after(ledger_after_all(b, events, (n - 1) as nat), events[n - 1])
    }
}

/// Every deposit can be held when its turn comes.
pub open spec fn events_fit(b: Balances, events: Seq<EventSpec>) -> bool {
    forall|i: int|
        0 <= i < events.len() ==> event_fits(
            ledger_after_all(b, events, i as nat),
            #[trigger] events[i],
        )
}

/// What the ledger can take of an event: a symbol, and an amount that fits a balance.
fn resolve_amount(symbol: &Option<String>, amount: u128) -> (r: Option<(String, u64)>)
    ensures
        match r {
            Some((s, a)) => opt_text(*symbol) == Some(s@) && a == amount,
            None => *symbol is None || amount > u64::MAX,
        },
{
    match symbol {
        Some(s) => if amount <= u64::MAX as u128 {
            Some((s.clone(), amount as u64))
        } else {
            None
        },
        None => None,
    }
}

fn apply_credit(ledger: &mut BalanceLedger, trader: Id32, symbol: &Option<String>, amount: u128)
    requires
        amount <= u64::MAX && *symbol is Some ==> balance(
            old(ledger)@,
            (trader, opt_text(*symbol)->0),
        ) + amount <= u64::MAX,
    ensures
        final(ledger)@ == (match opt_text(*symbol) {
            Some(s) => if amount <= u64::MAX {
                credited(old(ledger)@, (trader, s), amount as u64)
            } else {
                old(ledger)@
            },
            None => old(ledger)@,
        }),
{
    match resolve_amount(symbol, amount) {
        Some((s, a)) => ledger.credit(trader, s.as_str(), a),
        None => {},
    }
}

fn apply_debit(ledger: &mut BalanceLedger, trader: Id32, symbol: &Option<String>, amount: u128)
    ensures
        final(ledger)@ == (match opt_text(*symbol) {
            Some(s) => if amount <= balance(old(ledger)@, (trader, s)) {
                debited(old(ledger)@, (trader, s), amount as u64)
            } else {
                old(ledger)@
            },
            None => old(ledger)@,
        }),
{
    match resolve_amount(symbol, amount) {
        Some((s, a)) => {
            match ledger.debit(trader, s.as_str(), a) {
                Ok(_) => {},
                Err(_) => {},
            }
        },
        None => {},
    }
}

/// Applies an event to the ledger.
pub fn apply_event(ledger: &mut BalanceLedger, event: &ChainEvent)
    requires
        event_fits(old(ledger)@, event@),
    ensures
        final(ledger)@ == ledger_after(old(ledger)@, event@),
{
    match event {
        ChainEvent::EscrowCreated { .. } => {},
        ChainEvent::Deposited { offchain_pubkey, symbol, amount, .. } => {
            apply_credit(ledger, *offchain_pubkey, symbol, *amount);
        },
        ChainEvent::Withdrawn { offchain_pubkey, symbol, amount, .. } => {
            apply_debit(ledger, *offchain_pubkey, symbol, *amount);
        },
    }
}

/// Replaying a log in two parts is replaying it whole.
pub proof fn law_replay_in_parts(b: Balances, first: Seq<EventSpec>, rest: Seq<EventSpec>)
    ensures
        ledger_after_all(
            ledger_after_all(b, first, first.len()),
            rest,
            rest.len(),
        ) == ledger_after_all(b, first + rest, (first + rest).len()),
{
    lemma_replay_prefix(b, first, rest, first.len());
    lemma_replay_rest(b, first, rest, rest.len());
}

proof fn lemma_replay_prefix(b: Balances, first: Seq<EventSpec>, rest: Seq<EventSpec>, n: nat)
    requires
        n <= first.len(),
    ensures
        ledger_after_all(b, first + rest, n) == ledger_after_all(b, first, n),
    decreases n,
{
    if n > 0 {
        lemma_replay_prefix(b, first, rest, (n - 1) as nat);
        assert((first + rest)[n - 1] == first[n - 1]);
    }
}

proof fn lemma_replay_rest(b: Balances, first: Seq<EventSpec>, rest: Seq<EventSpec>, n: nat)
    requires
        n <= rest.len(),
    ensures
        ledger_after_all(b, first + rest, first.len() + n) == ledger_after_all(
            ledger_after_all(b, first, first.len()),
            rest,
            n,
        ),
    decreases n,
{
    if n == 0 {
        lemma_replay_prefix(b, first, rest, first.len());
    } else {
        lemma_replay_rest(b, first, rest, (n - 1) as nat);
        assert((first + rest)[first.len() + n - 1] == rest[n - 1]);
    }
}

/// A log entry as the chain hands it out.
#[derive(Clone, Debug)]
pub struct RawLog {
    pub address: EthAddress,
    pub topics: Vec<Id32>,
    pub data: Vec<u8>,
    pub block_number: Option<u64>,
}

/// What the first topic of an event is: the digest of its signature.
pub open spec fn topic_of(signature: Seq<char>) -> Seq<u8> {
    keccak(encode_utf8(signature))
}

/// An event with one indexed argument: its signature's topic, and the argument's.
pub open spec fn has_signature(log: RawLog, signature: Seq<char>) -> bool {
    log.topics@.len() == 2 && log.topics@[0]@ == topic_of(signature)
}

/// The `i`-th word of a log's data.
pub open spec fn data_word(log: RawLog, i: int) -> Seq<u8> {
    log.data@.subrange(32 * i, 32 * i + 32)
}

/// The address in a word: its last twenty bytes.
pub open spec fn word_address(w: Seq<u8>) -> Seq<u8> {
    w.skip(12)
}

/// `EscrowCreated(address indexed trader, address escrowAddress, bytes32 offchainPubkey)`.
pub open spec fn is_created_log(log: RawLog) -> bool {
    has_signature(log, "EscrowCreated(address,address,bytes32)"@) && log.data@.len() >= 64
}

/// `Deposited(address indexed token, uint256 amount)`.
pub open spec fn is_deposit_log(log: RawLog) -> bool {
    has_signature(log, "Deposited(address,uint256)"@) && log.data@.len() >= 32
}

/// `Withdrawn(address indexed token, uint256 amount)`.
pub open spec fn is_withdrawal_log(log: RawLog) -> bool {
    has_signature(log, "Withdrawn(address,uint256)"@) && log.data@.len() >= 32
}

/// The address in the last twenty bytes of a word.
fn address_in(word: &[u8]) -> (r: EthAddress)
    requires
        word@.len() == 32,
    ensures
        r@ == word_address(word@),
{
    let mut out: EthAddress = [0u8; 20];
    let mut i: usize = 0;
    while i < 20
        invariant
            i <= 20,
            word@.len() == 32,
            forall|k: int| 0 <= k < i ==> out@[k] == word@[k + 12],
        decreases 20 - i,
    {
        out[i] = word[i + 12];
        i = i + 1;
    }
    assert(out@ =~= word_address(word@));
    out
}

/// The number in a word.
fn number_in(word: &[u8]) -> (r: u128)
    requires
        word@.len() == 32,
        be_value(word@) <= u128::MAX,
    ensures
        r == be_value(word@),
{
    let mut v: u128 = 0;
    let mut i: usize = 0;
    proof {
        assert(word@.take(0) =~= Seq::empty());
    }
    while i < 32
        invariant
            i <= 32,
            word@.len() == 32,
            be_value(word@) <= u128::MAX,
            v == be_value(word@.take(i as int)),
        decreases 32 - i,
    {
        proof {
            assert(word@.take(i + 1).drop_last() =~= word@.take(i as int));
            lemma_be_value_grows(word@, i + 1);
        }
        v = v * 256 + word[i] as u128;
        i = i + 1;
    }
    proof {
        assert(word@.take(32) =~= word@);
    }
    v
}

/// Whether the number in a word fits 128 bits.
fn fits_wide(word: &[u8]) -> (r: bool)
    requires
        word@.len() == 32,
    ensures
        r == (be_value(word@) <= u128::MAX),
{
    let mut v: u128 = 0;
    let mut i: usize = 0;
    proof {
        assert(word@.take(0) =~= Seq::empty());
    }
    while i < 32
        invariant
            i <= 32,
            word@.len() == 32,
            v == be_value(word@.take(i as int)),
        decreases 32 - i,
    {
        proof {
            assert(word@.take(i + 1).drop_last() =~= word@.take(i as int));
            lemma_be_value_grows(word@, i + 1);
        }
        if v > (u128::MAX - word[i] as u128) / 256 {
            return false;
        }
        v = v * 256 + word[i] as u128;
        i = i + 1;
    }
    proof {
        assert(word@.take(32) =~= word@);
    }
    true
}

fn signed_as(log: &RawLog, signature: &str) -> (r: bool)
    ensures
        r == has_signature(*log, signature@),
{
    if log.topics.len() != 2 {
        return false;
    }
    let topic: Id32 = keccak256(signature.as_bytes());
    proof {
        if log.topics@[0]@ == topic@ {
            assert(log.topics@[0] =~= topic);
        }
    }
    same_id(&log.topics[0], &topic)
}

/// Whether a log is of a new escrow.
pub(crate) fn announces_escrow(log: &RawLog) -> (r: bool)
    ensures
        r == is_created_log(*log),
{
    signed_as(log, "EscrowCreated(address,address,bytes32)") && log.data.len() >= 64
}

/// Why a log is not of a new escrow: the number of its topics, the first of them, or data that end
/// too early, whichever comes first.
pub open spec fn created_fault(log: RawLog) -> Seq<char> {
    let signature = "EscrowCreated(address,address,bytes32)"@;
    if log.topics@.len() != 2 {
        "topic list length mismatch"@
    } else if log.topics@[0]@ != topic_of(signature) {
        "invalid signature hash for event \""@ + signature + "\": got 0x"@ + hex_text(
            log.topics@[0]@,
        ) + ", expected 0x"@ + hex_text(topic_of(signature))
    } else {
        "ABI decoding failed: buffer overrun while deserializing"@
    }
}

/// Says why a log is not of a new escrow.
fn created_fault_text(log: &RawLog) -> (r: String)
    ensures
        r@ == created_fault(*log),
{
    if log.topics.len() != 2 {
        return "topic list length mismatch".to_owned();
    }
    let signature: &str = "EscrowCreated(address,address,bytes32)";
    let topic: Id32 = keccak256(signature.as_bytes());
    proof {
        if log.topics@[0]@ == topic@ {
            assert(log.topics@[0] =~= topic);
        }
    }
    if same_id(&log.topics[0], &topic) {
        return "ABI decoding failed: buffer overrun while deserializing".to_owned();
    }
    let got: String = hex_encode(log.topics[0].as_slice());
    let expected: String = hex_encode(topic.as_slice());
    let mut out: String = "invalid signature hash for event \"".to_owned();
    out.append(signature);
    out.append("\": got 0x");
    out.append(got.as_str());
    out.append(", expected 0x");
    out.append(expected.as_str());
    out
}

/// Whether the amount in a log of an escrow, if it holds one, fits 128 bits.
pub(crate) fn holds_amount(log: &RawLog) -> (r: bool)
    ensures
        r == amount_fits(*log),
{
    let moves: bool = log.data.len() >= 32 && (signed_as(log, "Deposited(address,uint256)")
        || signed_as(log, "Withdrawn(address,uint256)"));
    if !moves {
        return true;
    }
    let word: &[u8] = slice_subrange(log.data.as_slice(), 0, 32);
    proof {
        assert(word@ =~= data_word(*log, 0));
    }
    fits_wide(word)
}

/// The event in a log of a new escrow.
pub(crate) fn created_log_event(log: &RawLog) -> (r: ChainEvent)
    requires
        is_created_log(*log),
    ensures
        r@ == created_event(*log),
{
    let first: &[u8] = slice_subrange(log.data.as_slice(), 0, 32);
    let second: &[u8] = slice_subrange(log.data.as_slice(), 32, 64);
    let trader: EthAddress = address_in(log.topics[1].as_slice());
    let escrow: EthAddress = address_in(first);
    let offchain_pubkey: Id32 = id_from_slice(second);
    proof {
        assert(first@ =~= data_word(*log, 0));
        assert(second@.take(32) =~= data_word(*log, 1));
        lemma_address_of(trader, word_address(log.topics@[1]@));
        lemma_address_of(escrow, word_address(data_word(*log, 0)));
        lemma_id_of(offchain_pubkey, data_word(*log, 1));
    }
    ChainEvent::EscrowCreated { trader, escrow, offchain_pubkey }
}

/// What the chain's progress is, and what is known of escrows and tokens.
#[derive(Debug)]
pub struct ChainSync {
    factory_address: EthAddress,
    confirmations: u64,
    last_synced_block: u64,
    escrows: EscrowRegistry,
    tokens: TokenRegistry,
}

/// What a [`ChainSync`] stands for.
pub struct SyncSpec {
    pub factory_address: EthAddress,
    pub confirmations: u64,
    pub last_synced_block: u64,
    pub owners: Map<EthAddress, EscrowOwner>,
    pub order: Seq<EthAddress>,
    pub tokens: Map<EthAddress, Seq<char>>,
}

impl View for ChainSync {
    type V = SyncSpec;

    closed spec fn view(&self) -> SyncSpec {
        SyncSpec {
            factory_address: self.factory_address,
            confirmations: self.confirmations,
            last_synced_block: self.last_synced_block,
            owners: self.escrows@,
            order: self.escrows.order(),
            tokens: self.tokens@,
        }
    }
}

/// An escrow has been seen.
pub open spec fn escrow_seen(
    s: SyncSpec,
    trader: EthAddress,
    escrow: EthAddress,
    offchain_pubkey: Id32,
) -> SyncSpec {
    SyncSpec {
        owners: s.owners.insert(escrow, EscrowOwner { trader, offchain_pubkey }),
        order: if s.owners.contains_key(escrow) {
            s.order
        } else {
            s.order.push(escrow)
        },
        ..s
    }
}

/// What an event adds to what is known.
pub open spec fn known_after(s: SyncSpec, e: EventSpec) -> SyncSpec {
    match e {
        EventSpec::EscrowCreated { trader, escrow, offchain_pubkey } => escrow_seen(
            s,
            trader,
            escrow,
            offchain_pubkey,
        ),
        _ => s,
    }
}

/// What the first `n` events add.
pub open spec fn known_after_all(s: SyncSpec, events: Seq<EventSpec>, n: nat) -> SyncSpec
    decreases n,
{
    if n == 0 {
        s
    } else {
        known_after(known_after_all(s, events, (n - 1) as nat), events[n - 1])
    }
}

/// The blocks that are to be scanned when the chain's head is at `latest`: from the one after the
/// last scanned up to the last that has enough confirmations.
pub open spec fn range_at(s: SyncSpec, latest: u64) -> Option<(u64, u64)> {
    if latest < s.confirmations || latest - s.confirmations <= s.last_synced_block {
        None
    } else {
        Some(((s.last_synced_block + 1) as u64, (latest - s.confirmations) as u64))
    }
}

/// The event in a log of the factory.
pub open spec fn created_event(log: RawLog) -> EventSpec {
    EventSpec::EscrowCreated {
        trader: address_of(word_address(log.topics@[1]@)),
        escrow: address_of(word_address(data_word(log, 0))),
        offchain_pubkey: id_of(data_word(log, 1)),
    }
}

pub open spec fn is_address(a: EthAddress, s: Seq<u8>) -> bool {
    a@ == s
}

/// The address with these bytes.
pub open spec fn address_of(s: Seq<u8>) -> EthAddress {
    choose|a: EthAddress| #[trigger] is_address(a, s)
}

pub open spec fn is_id(a: Id32, s: Seq<u8>) -> bool {
    a@ == s
}

/// The identifier with these bytes.
pub open spec fn id_of(s: Seq<u8>) -> Id32 {
    choose|a: Id32| #[trigger] is_id(a, s)
}

proof fn lemma_address_of(a: EthAddress, s: Seq<u8>)
    requires
        a@ == s,
    ensures
        a == address_of(s),
{
    assert(is_address(a, s));
    let x = address_of(s);
    assert(is_address(x, s));
    assert(x@ == a@);
    assert(forall|i: int| 0 <= i < 20 ==> x@[i] == a@[i]);
    assert(x =~= a);
}

proof fn lemma_id_of(a: Id32, s: Seq<u8>)
    requires
        a@ == s,
    ensures
        a == id_of(s),
{
    assert(is_id(a, s));
    let x = id_of(s);
    assert(is_id(x, s));
    assert(x@ == a@);
    assert(forall|i: int| 0 <= i < 32 ==> x@[i] == a@[i]);
    assert(x =~= a);
}

/// The event in a log of an escrow, if it holds one: a deposit or a withdrawal on an escrow that is
/// known. A log without a block number counts as of the end of the range.
pub open spec fn escrow_event(s: SyncSpec, log: RawLog, to_block: u64) -> Option<EventSpec> {
    if !s.owners.contains_key(log.address) {
        None
    } else {
        let owner = s.owners[log.address];
        let token = address_of(word_address(log.topics@[1]@));
        let symbol = if s.tokens.contains_key(token) {
            Some(s.tokens[token])
        } else {
            None
        };
        let amount = be_value(data_word(log, 0)) as u128;
        let block_number = match log.block_number {
            Some(n) => n,
            None => to_block,
        };
        if is_deposit_log(log) {
            Some(
                EventSpec::Deposited {
                    escrow: log.address,
                    trader: owner.trader,
                    offchain_pubkey: owner.offchain_pubkey,
                    token,
                    symbol,
                    amount,
                    block_number,
                },
            )
        } else if is_withdrawal_log(log) {
            Some(
                EventSpec::Withdrawn {
                    escrow: log.address,
                    trader: owner.trader,
                    offchain_pubkey: owner.offchain_pubkey,
                    token,
                    symbol,
                    amount,
                    block_number,
                },
            )
        } else {
            None
        }
    }
}

/// The events in the first `n` logs of escrows.
pub open spec fn escrow_events(s: SyncSpec, logs: Seq<RawLog>, to_block: u64, n: nat) -> Seq<
    EventSpec,
>
    decreases n,
{
    if n == 0 {
        Seq::empty()
    } else {
        match escrow_event(s, logs[n - 1], to_block) {
            Some(e) => escrow_events(s, logs, to_block, (n - 1) as nat).push(e),
            None => escrow_events(s, logs, to_block, (n - 1) as nat),
        }
    }
}

/// The amount in a log of an escrow fits 128 bits.
pub open spec fn amount_fits(log: RawLog) -> bool {
    is_deposit_log(log) || is_withdrawal_log(log) ==> be_value(data_word(log, 0)) <= u128::MAX
}

/// The amounts that are to be taken in fit: those in logs of escrows that are known.
pub open spec fn amounts_fit(s: SyncSpec, logs: Seq<RawLog>) -> bool {
    forall|i: int|
        0 <= i < logs.len() && s.owners.contains_key((#[trigger] logs[i]).address) ==> amount_fits(
            logs[i],
        )
}

/// The events in logs of the factory.
pub open spec fn created_events(logs: Seq<RawLog>) -> Seq<EventSpec> {
    Seq::new(logs.len(), |i: int| created_event(logs[i]))
}

/// The first `k` logs are of new escrows, and the next, where there is one, is not.
pub open spec fn created_prefix(logs: Seq<RawLog>, k: int) -> bool {
    &&& 0 <= k <= logs.len()
    &&& forall|i: int| 0 <= i < k ==> is_created_log(#[trigger] logs[i])
    &&& k < logs.len() ==> !is_created_log(logs[k])
}

impl ChainSync {
    pub fn new(
        factory_address: EthAddress,
        tokens: TokenRegistry,
        confirmations: u64,
        start_block: u64,
    ) -> (r: Self)
        ensures
            r@ == (SyncSpec {
                factory_address,
                confirmations,
                last_synced_block: start_block,
                owners: Map::empty(),
                order: Seq::empty(),
                tokens: tokens@,
            }),
    {
        ChainSync {
            factory_address,
            confirmations,
            last_synced_block: start_block,
            escrows: EscrowRegistry::new(),
            tokens,
        }
    }

    pub fn factory_address(&self) -> (r: EthAddress)
        ensures
            r == self@.factory_address,
    {
        self.factory_address
    }

    pub fn escrows(&self) -> (r: &EscrowRegistry)
        ensures
            r@ == self@.owners,
            r.order() == self@.order,
    {
        &self.escrows
    }

    /// Whether an escrow is known.
    pub(crate) fn knows(&self, escrow: EthAddress) -> (r: bool)
        ensures
            r == self@.owners.contains_key(escrow),
    {
        self.escrows.owner_of(escrow).is_some()
    }

    pub fn last_synced_block(&self) -> (r: u64)
        ensures
            r == self@.last_synced_block,
    {
        self.last_synced_block
    }

    /// Takes in an event that was seen before, without asking the chain again.
    pub fn replay(&mut self, event: &ChainEvent)
        ensures
            final(self)@ == known_after(old(self)@, event@),
    {
        match event {
            ChainEvent::EscrowCreated { trader, escrow, offchain_pubkey } => {
                self.escrows.record_escrow_created(*trader, *escrow, *offchain_pubkey);
            },
            _ => {},
        }
    }

    /// Takes in events that were seen before: what they say of escrows here, and the rest in the
    /// ledger. Returns how many there were.
    pub fn replay_all(&mut self, ledger: &mut BalanceLedger, events: &Vec<ChainEvent>) -> (r: usize)
        requires
            events_fit(old(ledger)@, events_view(events@)),
        ensures
            r == events@.len(),
            final(self)@ == known_after_all(old(self)@, events_view(events@), events@.len()),
            final(ledger)@ == ledger_after_all(
                old(ledger)@,
                events_view(events@),
                events@.len(),
            ),
    {
        let ghost b = ledger@;
        let ghost s = self@;
        let ghost ev = events_view(events@);
        let mut i: usize = 0;
        while i < events.len()
            invariant
                i <= events@.len(),
                ev == events_view(events@),
                events_fit(b, ev),
                ledger@ == ledger_after_all(b, ev, i as nat),
                self@ == known_after_all(s, ev, i as nat),
            decreases events@.len() - i,
        {
            proof {
                assert(ev[i as int] == events@[i as int]@);
            }
            self.replay(&events[i]);
            apply_event(ledger, &events[i]);
            i = i + 1;
        }
        events.len()
    }

    /// The blocks to scan when the chain's head is at `latest`, if there are any.
    pub fn scan_range(&self, latest: u64) -> (r: Option<(u64, u64)>)
        ensures
            r == range_at(self@, latest),
    {
        if latest < self.confirmations {
            return None;
        }
        let safe_head: u64 = latest - self.confirmations;
        if safe_head <= self.last_synced_block {
            return None;
        }
        Some((self.last_synced_block + 1, safe_head))
    }

    /// Takes in what the factory has logged in the range. A log that is not of a new escrow is an
    /// error that says why; what came before it has been taken in.
    pub fn absorb_factory_logs(&mut self, logs: &Vec<RawLog>) -> (r: Result<
        Vec<ChainEvent>,
        String,
    >)
        ensures
            match r {
                Ok(events) => created_prefix(logs@, logs@.len() as int) && events_view(events@)
                    == created_events(logs@) && final(self)@ == known_after_all(
                    old(self)@,
                    created_events(logs@),
                    logs@.len(),
                ),
                Err(e) => exists|k: int| #[trigger]
                    created_prefix(logs@, k) && k < logs@.len() && e@
                        == "decode EscrowCreated failed: "@ + created_fault(logs@[k])
                        && final(self)@ == known_after_all(
                        old(self)@,
                        created_events(logs@),
                        k as nat,
                    ),
            },
    {
        let ghost s = self@;
        let ghost ce = created_events(logs@);
        let mut events: Vec<ChainEvent> = Vec::new();
        let mut i: usize = 0;
        proof {
            assert(events_view(events@) =~= ce.take(0));
        }
        while i < logs.len()
            invariant
                i <= logs@.len(),
                s == old(self)@,
                ce == created_events(logs@),
                forall|k: int| 0 <= k < i ==> is_created_log(#[trigger] logs@[k]),
                events_view(events@) == ce.take(i as int),
                self@ == known_after_all(s, ce, i as nat),
            decreases logs@.len() - i,
        {
            let log: &RawLog = &logs[i];
            if !announces_escrow(log) {
                proof {
                    assert(!is_created_log(logs@[i as int]));
                    assert(created_prefix(logs@, i as int));
                    assert(self@ == known_after_all(old(self)@, created_events(logs@), i as nat));
                }
                let fault: String = created_fault_text(log);
                return Err(joined("decode EscrowCreated failed: ", fault.as_str()));
            }
            let event: ChainEvent = created_log_event(log);
            proof {
                assert(event@ == ce[i as int]);
                assert(ce.take(i + 1) =~= ce.take(i as int).push(event@));
            }
            self.replay(&event);
            let ghost e0 = events@;
            events.push(event);
            proof {
                assert(events_view(events@) =~= events_view(e0).push(ce[i as int]));
            }
            i = i + 1;
        }
        proof {
            assert(ce.take(logs@.len() as int) =~= ce);
        }
        Ok(events)
    }

    /// The deposits and withdrawals that escrows have logged in the range.
    pub fn escrow_log_events(&self, logs: &Vec<RawLog>, to_block: u64) -> (r: Vec<ChainEvent>)
        requires
            amounts_fit(self@, logs@),
        ensures
            events_view(r@) == escrow_events(self@, logs@, to_block, logs@.len()),
    {
        let mut events: Vec<ChainEvent> = Vec::new();
        let mut i: usize = 0;
        proof {
            assert(events_view(events@) =~= escrow_events(self@, logs@, to_block, 0));
        }
        while i < logs.len()
            invariant
                i <= logs@.len(),
                amounts_fit(self@, logs@),
                events_view(events@) == escrow_events(self@, logs@, to_block, i as nat),
            decreases logs@.len() - i,
        {
            let ghost e0 = events@;
            match self.escrow_log_event(&logs[i], to_block) {
                Some(event) => {
                    events.push(event);
                    proof {
                        assert(events_view(events@) =~= events_view(e0).push(event@));
                    }
                },
                None => {},
            }
            i = i + 1;
        }
        events
    }

    pub(crate) fn escrow_log_event(&self, log: &RawLog, to_block: u64) -> (r: Option<ChainEvent>)
        requires
            self@.owners.contains_key(log.address) ==> amount_fits(*log),
        ensures
            match r {
                Some(e) => escrow_event(self@, *log, to_block) == Some(e@),
                None => escrow_event(self@, *log, to_block) is None,
            },
    {
        let owner: EscrowOwner = match self.escrows.owner_of(log.address) {
            Some(o) => o,
            None => {
                return None;
            },
        };
        let deposit: bool = signed_as(log, "Deposited(address,uint256)") && log.data.len() >= 32;
        let withdrawal: bool = signed_as(log, "Withdrawn(address,uint256)") && log.data.len()
            >= 32;
        if !deposit && !withdrawal {
            return None;
        }
        let first: &[u8] = slice_subrange(log.data.as_slice(), 0, 32);
        proof {
            assert(first@ =~= data_word(*log, 0));
        }
        let token: EthAddress = address_in(log.topics[1].as_slice());
        proof {
            lemma_address_of(token, word_address(log.topics@[1]@));
        }
        let amount: u128 = number_in(first);
        let symbol: Option<String> = match self.tokens.symbol_of(token) {
            Some(s) => Some(s.to_owned()),
            None => None,
        };
        let block_number: u64 = match log.block_number {
            Some(n) => n,
            None => to_block,
        };
        if deposit {
            Some(
                ChainEvent::Deposited {
                    escrow: log.address,
                    trader: owner.trader,
                    offchain_pubkey: owner.offchain_pubkey,
                    token,
                    symbol,
                    amount,
                    block_number,
                },
            )
        } else {
            Some(
                ChainEvent::Withdrawn {
                    escrow: log.address,
                    trader: owner.trader,
                    offchain_pubkey: owner.offchain_pubkey,
                    token,
                    symbol,
                    amount,
                    block_number,
                },
            )
        }
    }

    /// The range up to `to_block` has been scanned.
    pub fn finish_scan(&mut self, to_block: u64)
        ensures
            final(self)@ == (SyncSpec { last_synced_block: to_block, ..old(self)@ }),
    {
        self.last_synced_block = to_block;
    }
}

/// Scans leave no gap and no overlap: a range begins right after the last scanned block, moves it
/// forward, stays behind the head by the confirmations asked for, and the next one begins after it.
pub proof fn law_scans_are_contiguous(s: SyncSpec, latest: u64, later: u64)
    requires
        range_at(s, latest) is Some,
    ensures
        ({
            let (from, to) = range_at(s, latest)->0;
            let after = SyncSpec { last_synced_block: to, ..s };
            &&& from == s.last_synced_block + 1
            &&& from <= to
            &&& to + s.confirmations == latest
            &&& range_at(after, latest) is None
            &&& range_at(after, later) matches Some(r) ==> r.0 == to + 1
        }),
{
}

/// What an event does to the ledger. A deposit of a token with a symbol raises its owner's balance on
/// that symbol by its amount, and a withdrawal lowers it, where the balance has that much. An event of
/// a token without a symbol, of a new escrow, or of more than a balance can hold or has, does nothing,
/// and no event touches any other balance.
pub proof fn law_events_move_their_owners_balance(
    b: Balances,
    e: EventSpec,
    account: (Id32, Seq<char>),
)
    requires
        event_fits(b, e),
    ensures
        ({
            let before = balance(b, account);
            let after = balance(ledger_after(b, e), account);
            match e {
                EventSpec::EscrowCreated { .. } => ledger_after(b, e) == b,
                EventSpec::Deposited { offchain_pubkey, symbol, amount, .. } => {
                    if symbol is Some && account == (offchain_pubkey, symbol->0) && amount
                        <= u64::MAX {
                        after == before + amount
                    } else {
                        after == before
                    }
                },
                EventSpec::Withdrawn { offchain_pubkey, symbol, amount, .. } => {
                    if symbol is Some && account == (offchain_pubkey, symbol->0) && amount
                        <= before {
                        after == before - amount
                    } else {
                        after == before
                    }
                },
            }
        }),
{
}

/// What a log of the factory says: the trader is the address in its second topic, the escrow that in
/// the first word of its data, and the key is the second word.
pub proof fn law_created_logs_are_read(
    log: RawLog,
    trader: EthAddress,
    escrow: EthAddress,
    key: Id32,
)
    requires
        log.topics@.len() == 2,
        log.data@.len() >= 64,
        trader@ == log.topics@[1]@.subrange(12, 32),
        escrow@ == log.data@.subrange(12, 32),
        key@ == log.data@.subrange(32, 64),
    ensures
        created_event(log) == (EventSpec::EscrowCreated { trader, escrow, offchain_pubkey: key }),
{
    assert(word_address(log.topics@[1]@) =~= trader@);
    assert(word_address(data_word(log, 0)) =~= escrow@);
    assert(data_word(log, 1) =~= key@);
    lemma_address_of(trader, word_address(log.topics@[1]@));
    lemma_address_of(escrow, word_address(data_word(log, 0)));
    lemma_id_of(key, data_word(log, 1));
}

/// What a log of an escrow says. On an escrow that is known, a log with a deposit's or a withdrawal's
/// signature and a word of data is that event, of the escrow's owner, of the token in its second topic
/// with the symbol that is known for it, of the amount in its first word, and of its block, or of the
/// end of the range where it has none. A log of another escrow, or with another signature, is none.
pub proof fn law_escrow_logs_are_read(
    s: SyncSpec,
    log: RawLog,
    to_block: u64,
    token: EthAddress,
    amount: u128,
)
    requires
        log.topics@.len() == 2,
        log.data@.len() >= 32,
        token@ == log.topics@[1]@.subrange(12, 32),
        be_value(log.data@.subrange(0, 32)) == amount,
    ensures
        ({
            let deposit = keccak(encode_utf8("Deposited(address,uint256)"@));
            let withdrawal = keccak(encode_utf8("Withdrawn(address,uint256)"@));
            let signature = log.topics@[0]@;
            let known = s.owners.contains_key(log.address);
            let owner = s.owners[log.address];
            let symbol = if s.tokens.contains_key(token) {
                Some(s.tokens[token])
            } else {
                None
            };
            let block_number = if log.block_number is Some {
                log.block_number->0
            } else {
                to_block
            };
            let e = escrow_event(s, log, to_block);
            &&& !known || signature != deposit && signature != withdrawal ==> e is None
            &&& known && signature == deposit ==> e == Some(
                EventSpec::Deposited {
                    escrow: log.address,
                    trader: owner.trader,
                    offchain_pubkey: owner.offchain_pubkey,
                    token,
                    symbol,
                    amount,
                    block_number,
                },
            )
            &&& known && signature == withdrawal && signature != deposit ==> e == Some(
                EventSpec::Withdrawn {
                    escrow: log.address,
                    trader: owner.trader,
                    offchain_pubkey: owner.offchain_pubkey,
                    token,
                    symbol,
                    amount,
                    block_number,
                },
            )
        }),
{
    assert(word_address(log.topics@[1]@) =~= token@);
    assert(data_word(log, 0) =~= log.data@.subrange(0, 32));
    lemma_address_of(token, word_address(log.topics@[1]@));
}

/// A new escrow is known from its event on, bound to its trader and key, and listed last unless it was
/// listed before. No event changes what is known of another escrow, of tokens or of blocks.
pub proof fn law_new_escrows_are_known(s: SyncSpec, e: EventSpec, other: EthAddress)
    ensures
        ({
            let a = known_after(s, e);
            match e {
                EventSpec::EscrowCreated { trader, escrow, offchain_pubkey } => {
                    &&& a.owners.contains_key(escrow)
                    &&& a.owners[escrow] == (EscrowOwner { trader, offchain_pubkey })
                    &&& !s.owners.contains_key(escrow) ==> a.order == s.order.push(escrow)
                    &&& s.owners.contains_key(escrow) ==> a.order == s.order
                    &&& other != escrow ==> a.owners.contains_key(other) == s.owners.contains_key(
                        other,
                    ) && a.owners[other] == s.owners[other]
                    &&& a.tokens == s.tokens && a.last_synced_block == s.last_synced_block
                    &&& a.confirmations == s.confirmations && a.factory_address
                        == s.factory_address
                },
                _ => a == s,
            }
        }),
{
}

/// Blocks are scanned as soon as they have enough confirmations: there is a range exactly where a block
/// after the last scanned one has as many blocks behind it as are asked for.
pub proof fn law_confirmed_blocks_are_scanned(s: SyncSpec, latest: u64, block: u64)
    ensures
        (range_at(s, latest) matches Some((from, to)) && from <= block <= to) <==> block
            > s.last_synced_block && block + s.confirmations <= latest,
{
}

} // verus!
