//! What each chain is asked to do, and what it answers where nothing needs to be asked.

use crate::accounts::{
    account_to_address, bad_account_text, is_eth_account, law_account_round_trip, parse_address,
    parsed_address,
    resolved_token, str_debug, str_debug_text, trade_to_entry, EthAddress, OnChainAccount,
    SettlementFeeConfig, SettlementTrade, TradeEntry,
};
use crate::bytes::{be_value, same_bytes, word_to_u64, zeros, Id32};
use crate::hexes::{hex_encode, hex_text};
use crate::text::{joined, number_fault_text, number_of, parse_number};
use vstd::prelude::*;

verus! {

/// Score, trust level and time of the last change.
pub type Reputation = (u32, u8, u64);

/// Solana, on which nothing is settled or registered yet.
#[derive(Clone, Copy, Debug)]
pub struct SolanaAdapter;

impl SolanaAdapter {
    pub fn chain_id(&self) -> (r: &'static str)
        ensures
            r@ == "solana"@,
    {
        "solana"
    }

    pub fn native_denomination(&self) -> (r: &'static str)
        ensures
            r@ == "SOL"@,
    {
        "SOL"
    }

    pub fn submit_settlement_batch(
        &self,
        trades: &Vec<SettlementTrade>,
        zk: &Vec<u8>,
        fee_config: &SettlementFeeConfig,
    ) -> (r: Result<String, String>)
        ensures
            r matches Err(e) && e@ == "Solana settlement not yet implemented"@,
    {
        Err("Solana settlement not yet implemented".to_owned())
    }

    pub fn submit_missed_deadline_report(&self, pubkey: &OnChainAccount) -> (r: Result<(), String>)
        ensures
            r matches Err(e) && e@ == "Solana registry not yet implemented"@,
    {
        Err("Solana registry not yet implemented".to_owned())
    }

    pub fn register_node(&self, pubkey: &OnChainAccount, geo: &str, stake: u64) -> (r: Result<
        (),
        String,
    >)
        ensures
            r matches Err(e) && e@ == "Solana registry not yet implemented"@,
    {
        Err("Solana registry not yet implemented".to_owned())
    }

    pub fn get_node_stake(&self, pubkey: &OnChainAccount) -> (r: Result<u64, String>)
        ensures
            r == Result::<u64, String>::Ok(0),
    {
        Ok(0)
    }

    pub fn is_node_active(&self, pubkey: &OnChainAccount) -> (r: Result<bool, String>)
        ensures
            r == Result::<bool, String>::Ok(false),
    {
        Ok(false)
    }

    pub fn get_node_reputation(&self, pubkey: &OnChainAccount) -> (r: Result<Reputation, String>)
        ensures
            r == Result::<Reputation, String>::Ok((5000, 0, 0)),
    {
        Ok((5000, 0, 0))
    }

    pub fn is_trade_settled(&self, trader: &OnChainAccount, trade_hash: &Id32) -> (r: Result<
        bool,
        String,
    >)
        ensures
            r == Result::<bool, String>::Ok(false),
    {
        Ok(false)
    }
}

/// A validator and its bond in decimal text, as FRG lists it.
#[derive(Clone, Debug)]
pub struct ValidatorEntry {
    pub pubkey: Vec<u8>,
    pub bond: String,
}

/// FRG as far as its validators are known. Nothing can be settled or registered there yet.
#[derive(Clone, Debug)]
pub struct FrgAdapter {
    pub validators: Vec<ValidatorEntry>,
}

/// Entry `i` is the first for a key.
pub open spec fn first_validator(s: Seq<ValidatorEntry>, key: Seq<u8>, i: int) -> bool {
    &&& 0 <= i < s.len()
    &&& s[i].pubkey@ == key
    &&& forall|j: int| 0 <= j < i ==> (#[trigger] s[j]).pubkey@ != key
}

/// Some entry is for a key.
pub open spec fn has_validator(s: Seq<ValidatorEntry>, key: Seq<u8>) -> bool {
    exists|i: int| #[trigger] first_validator(s, key, i)
}

/// A bond's text stands for this, or cannot be read for this reason.
pub open spec fn bond_read(bond: Seq<char>, r: Result<u128, String>) -> bool {
    match (r, number_of(bond, u128::MAX as nat)) {
        (Ok(v), Ok(w)) => v == w,
        (Err(e), Err(f)) => e@ == "chain-frg: unparsable bond "@ + str_debug_text(bond) + ": "@
            + number_fault_text(f),
        _ => false,
    }
}

/// The bond of the first entry for a key.
pub open spec fn first_bond(s: Seq<ValidatorEntry>, key: Seq<u8>, r: Result<u128, String>) -> bool {
    exists|i: int| #[trigger] first_validator(s, key, i) && bond_read(s[i].bond@, r)
}

impl FrgAdapter {
    pub fn chain_id(&self) -> (r: &'static str)
        ensures
            r@ == "frg"@,
    {
        "frg"
    }

    pub fn native_denomination(&self) -> (r: &'static str)
        ensures
            r@ == "FRG"@,
    {
        "FRG"
    }

    fn find_validator(&self, pubkey: &OnChainAccount) -> (r: Option<usize>)
        ensures
            match r {
                Some(i) => first_validator(self.validators@, pubkey@, i as int),
                None => !has_validator(self.validators@, pubkey@),
            },
    {
        let mut i: usize = 0;
        while i < self.validators.len()
            invariant
                i <= self.validators@.len(),
                forall|j: int| 0 <= j < i ==> (#[trigger] self.validators@[j]).pubkey@ != pubkey@,
            decreases self.validators@.len() - i,
        {
            if same_bytes(self.validators[i].pubkey.as_slice(), pubkey.as_slice()) {
                return Some(i);
            }
            i = i + 1;
        }
        proof {
            if has_validator(self.validators@, pubkey@) {
                let k = choose|k: int| #[trigger] first_validator(self.validators@, pubkey@, k);
                assert(self.validators@[k].pubkey@ == pubkey@);
            }
        }
        None
    }

    /// What a validator has bonded, nothing where there is no such validator.
    pub fn validator_bond(&self, pubkey: &OnChainAccount) -> (r: Result<u128, String>)
        ensures
            if has_validator(self.validators@, pubkey@) {
                first_bond(self.validators@, pubkey@, r)
            } else {
                r == Result::<u128, String>::Ok(0)
            },
    {
        match self.find_validator(pubkey) {
            None => Ok(0),
            Some(i) => {
                let bond: &str = self.validators[i].bond.as_str();
                proof {
                    assert(first_validator(self.validators@, pubkey@, i as int));
                }
                match parse_number(bond, u128::MAX) {
                    Ok(v) => Ok(v),
                    Err(f) => {
                        let mut e: String = joined(
                            "chain-frg: unparsable bond ",
                            str_debug(bond).as_str(),
                        );
                        e.append(": ");
                        e.append(f.message().as_str());
                        Err(e)
                    },
                }
            },
        }
    }

    pub fn is_validator(&self, pubkey: &OnChainAccount) -> (r: bool)
        ensures
            r == has_validator(self.validators@, pubkey@),
    {
        match self.find_validator(pubkey) {
            Some(i) => {
                assert(first_validator(self.validators@, pubkey@, i as int));
                true
            },
            None => false,
        }
    }

    pub fn submit_settlement_batch(
        &self,
        trades: &Vec<SettlementTrade>,
        zk: &Vec<u8>,
        fee_config: &SettlementFeeConfig,
    ) -> (r: Result<String, String>)
        ensures
            r matches Err(e) && e@
                == "chain-frg: no settlement contract deployed on FRG yet, and FRG's signed-tx encoding (core/tx in the Go repo) isn't reimplemented here"@,
    {
        Err(
            "chain-frg: no settlement contract deployed on FRG yet, and FRG's signed-tx encoding (core/tx in the Go repo) isn't reimplemented here".to_owned(),
        )
    }

    pub fn submit_missed_deadline_report(&self, pubkey: &OnChainAccount) -> (r: Result<(), String>)
        ensures
            r matches Err(e) && e@
                == "chain-frg: MISS_EVIDENCE submission needs FRG's signed-tx encoding, not implemented"@,
    {
        Err(
            "chain-frg: MISS_EVIDENCE submission needs FRG's signed-tx encoding, not implemented".to_owned(),
        )
    }

    pub fn register_node(&self, pubkey: &OnChainAccount, geo: &str, stake: u64) -> (r: Result<
        (),
        String,
    >)
        ensures
            r matches Err(e) && e@
                == "chain-frg: BOND submission needs FRG's signed-tx encoding, not implemented"@,
    {
        Err(
            "chain-frg: BOND submission needs FRG's signed-tx encoding, not implemented".to_owned(),
        )
    }

    pub fn get_node_reputation(&self, pubkey: &OnChainAccount) -> (r: Result<Reputation, String>)
        ensures
            r == Result::<Reputation, String>::Ok((5000, 0, 0)),
    {
        Ok((5000, 0, 0))
    }

    pub fn is_trade_settled(&self, trader: &OnChainAccount, trade_hash: &Id32) -> (r: Result<
        bool,
        String,
    >)
        ensures
            r matches Err(e) && e@ == "chain-frg: no settlement contract deployed on FRG yet"@,
    {
        Err("chain-frg: no settlement contract deployed on FRG yet".to_owned())
    }
}

/// What FRG answered to a transaction.
pub fn submit_outcome(ok: bool, error: &str) -> (r: Result<(), String>)
    ensures
        match r {
            Ok(_) => ok,
            Err(e) => !ok && e@ == "chain-frg: SubmitTx rejected: "@ + error@,
        },
{
    if ok {
        Ok(())
    } else {
        Err(joined("chain-frg: SubmitTx rejected: ", error))
    }
}

/// A proof in the words of the settlement contract, big-endian.
#[derive(Clone, Debug)]
pub struct ProofCalldata {
    pub a: [Id32; 2],
    pub b: [[Id32; 2]; 2],
    pub c: [Id32; 2],
    pub public_inputs: Vec<Id32>,
}

/// A call of the settlement contract.
#[derive(Clone, Debug)]
pub struct SettlementCall {
    pub entries: Vec<TradeEntry>,
    pub calldata: ProofCalldata,
    pub fee_recipient: EthAddress,
    pub tier: u8,
}

/// A trade in the terms of the contract.
pub open spec fn is_entry(t: SettlementTrade, e: TradeEntry) -> bool {
    &&& is_eth_account(t.trader@)
    &&& is_eth_account(t.counterparty@)
    &&& e.trader@ == t.trader@.skip(12)
    &&& e.counterparty@ == t.counterparty@.skip(12)
    &&& resolved_token(t.token) == Result::<Seq<u8>, Seq<char>>::Ok(e.token@)
    &&& e.amount == t.amount
    &&& e.fee == t.fee
    &&& e.deadline == t.deadline
    &&& e.trade_hash == t.trade_hash
    &&& e.assigned_node == t.assigned_node
}

/// A trade can be put in the terms of the contract.
pub open spec fn has_entry(t: SettlementTrade) -> bool {
    is_eth_account(t.trader@) && is_eth_account(t.counterparty@) && resolved_token(t.token) is Ok
}

/// Why a trade cannot be put in the terms of the contract.
pub open spec fn entry_refusal(t: SettlementTrade, e: Seq<char>) -> bool {
    if !is_eth_account(t.trader@) {
        e == bad_account_text(t.trader@)
    } else if !is_eth_account(t.counterparty@) {
        e == bad_account_text(t.counterparty@)
    } else {
        resolved_token(t.token) == Result::<Seq<u8>, Seq<char>>::Err(e)
    }
}

/// `i` is the first trade that cannot be put in the terms of the contract, and `e` says why.
pub open spec fn first_bad_trade(s: Seq<SettlementTrade>, e: Seq<char>, i: int) -> bool {
    &&& 0 <= i < s.len()
    &&& entry_refusal(s[i], e)
    &&& forall|j: int| 0 <= j < i ==> has_entry(#[trigger] s[j])
}

/// Some trade cannot be put in the terms of the contract, and `e` says why of the first such.
pub open spec fn entries_refused(s: Seq<SettlementTrade>, e: Seq<char>) -> bool {
    exists|i: int| #[trigger] first_bad_trade(s, e, i)
}

/// Why a batch cannot be submitted: there is nothing in it, its proof cannot be read, one of its
/// trades cannot be put in the contract's terms, or its fees have no recipient there.
pub open spec fn call_refusal(
    trades: Seq<SettlementTrade>,
    decoded: Result<ProofCalldata, String>,
    fee_config: SettlementFeeConfig,
    e: Seq<char>,
) -> bool {
    if trades.len() == 0 {
        e == "no trades to settle"@
    } else {
        match decoded {
            Err(f) => e == f@,
            Ok(_) => entries_refused(trades, e) || (forall|i: int|
                0 <= i < trades.len() ==> has_entry(#[trigger] trades[i])) && !is_eth_account(
                fee_config.fee_recipient@,
            ) && e == bad_account_text(fee_config.fee_recipient@),
        }
    }
}

/// The trades of a batch in the contract's terms, or why the first that has none has none.
fn trade_entries(trades: &Vec<SettlementTrade>) -> (r: Result<Vec<TradeEntry>, String>)
    ensures
        match r {
            Ok(v) => v@.len() == trades@.len() && forall|i: int|
                0 <= i < v@.len() ==> is_entry(trades@[i], #[trigger] v@[i]),
            Err(e) => entries_refused(trades@, e@),
        },
{
    let mut out: Vec<TradeEntry> = Vec::new();
    let mut i: usize = 0;
    while i < trades.len()
        invariant
            i <= trades@.len(),
            out@.len() == i,
            forall|k: int| 0 <= k < i ==> is_entry(trades@[k], #[trigger] out@[k]),
            forall|k: int| 0 <= k < i ==> has_entry(#[trigger] trades@[k]),
        decreases trades@.len() - i,
    {
        match trade_to_entry(&trades[i]) {
            Ok(entry) => {
                out.push(entry);
            },
            Err(e) => {
                proof {
                    assert(first_bad_trade(trades@, e@, i as int));
                }
                return Err(e);
            },
        }
        i = i + 1;
    }
    Ok(out)
}

/// Makes the call that submits a batch, once its proof has been read.
pub fn settlement_call(
    trades: &Vec<SettlementTrade>,
    decoded: Result<ProofCalldata, String>,
    fee_config: &SettlementFeeConfig,
) -> (r: Result<SettlementCall, String>)
    ensures
        match r {
            Ok(call) => {
                &&& trades@.len() > 0
                &&& decoded == Result::<ProofCalldata, String>::Ok(call.calldata)
                &&& call.entries@.len() == trades@.len()
                &&& forall|i: int|
                    0 <= i < trades@.len() ==> is_entry(trades@[i], #[trigger] call.entries@[i])
                &&& is_eth_account(fee_config.fee_recipient@)
                &&& call.fee_recipient@ == fee_config.fee_recipient@.skip(12)
                &&& call.tier == fee_config.tier
            },
            Err(e) => call_refusal(trades@, decoded, *fee_config, e@),
        },
{
    if trades.len() == 0 {
        return Err("no trades to settle".to_owned());
    }
    let calldata: ProofCalldata = match decoded {
        Ok(c) => c,
        Err(e) => {
            return Err(e);
        },
    };
    let entries: Vec<TradeEntry> = match trade_entries(trades) {
        Ok(v) => v,
        Err(e) => {
            return Err(e);
        },
    };
    proof {
        assert forall|i: int| 0 <= i < trades@.len() implies has_entry(#[trigger] trades@[i]) by {
            assert(is_entry(trades@[i], entries@[i]));
        }
    }
    match account_to_address(fee_config.fee_recipient) {
        Ok(fee_recipient) => Ok(
            SettlementCall { entries, calldata, fee_recipient, tier: fee_config.tier },
        ),
        Err(e) => Err(e),
    }
}

/// How a transaction is named.
pub fn transaction_name(hash: &Id32) -> (r: String)
    ensures
        r@ == "0x"@ + hex_text(hash@),
{
    joined("0x", hex_encode(hash.as_slice()).as_str())
}

/// A stake, given as a word and as text, as far as it can be held.
pub fn stake_from_word(word: &Id32, shown: &str) -> (r: Result<u64, String>)
    ensures
        match r {
            Ok(v) => be_value(word@) == v,
            Err(e) => be_value(word@) > u64::MAX && e@ == "stake "@ + shown@
                + " exceeds u64 range"@,
        },
{
    match word_to_u64(word) {
        Some(v) => Ok(v),
        None => {
            let mut e: String = joined("stake ", shown);
            e.append(" exceeds u64 range");
            Err(e)
        },
    }
}

/// Whether a trader has an escrow that a settlement can be looked up in: an address of zero
/// stands for none, and then nothing has been settled.
pub fn has_escrow(escrow: &EthAddress) -> (r: bool)
    ensures
        r == exists|i: int| 0 <= i < 20 && #[trigger] escrow@[i] != 0,
{
    let mut i: usize = 0;
    while i < 20
        invariant
            i <= 20,
            forall|k: int| 0 <= k < i ==> #[trigger] escrow@[k] == 0,
        decreases 20 - i,
    {
        if escrow[i] != 0 {
            assert(escrow@[i as int] != 0);
            return true;
        }
        i = i + 1;
    }
    false
}

/// The contracts that are called, given what alloy makes of their texts.
pub open spec fn contracts_from(
    factory: Result<Seq<u8>, Seq<char>>,
    registry: Result<Seq<u8>, Seq<char>>,
) -> Result<(Seq<u8>, Seq<u8>), Seq<char>> {
    match factory {
        Err(e) => Err("invalid factory address: "@ + e),
        Ok(f) => match registry {
            Err(e) => Err("invalid registry address: "@ + e),
            Ok(g) => Ok((f, g)),
        },
    }
}

/// An address that was read, by its view.
pub open spec fn address_read(r: Result<EthAddress, String>) -> Result<Seq<u8>, Seq<char>> {
    match r {
        Ok(a) => Ok(a@),
        Err(e) => Err(e@),
    }
}

/// Two addresses that were read, by their views.
pub open spec fn addresses_read(r: Result<(EthAddress, EthAddress), String>) -> Result<
    (Seq<u8>, Seq<u8>),
    Seq<char>,
> {
    match r {
        Ok((a, b)) => Ok((a@, b@)),
        Err(e) => Err(e@),
    }
}

/// The contracts that are called, once their texts have been read.
pub fn contracts_of(
    factory: Result<EthAddress, String>,
    registry: Result<EthAddress, String>,
) -> (r: Result<(EthAddress, EthAddress), String>)
    ensures
        addresses_read(r) == contracts_from(address_read(factory), address_read(registry)),
{
    match factory {
        Err(e) => Err(joined("invalid factory address: ", e.as_str())),
        Ok(f) => match registry {
            Err(e) => Err(joined("invalid registry address: ", e.as_str())),
            Ok(g) => Ok((f, g)),
        },
    }
}

/// The contracts that are called.
pub fn parse_contracts(factory: &str, registry: &str) -> (r: Result<
    (EthAddress, EthAddress),
    String,
>)
    ensures
        addresses_read(r) == contracts_from(parsed_address(factory@), parsed_address(registry@)),
{
    let f: Result<EthAddress, String> = parse_address(factory);
    let g: Result<EthAddress, String> = parse_address(registry);
    contracts_of(f, g)
}

/// An entry of a call has the terms of its trade: whoever pays in the one pays in the other, for the same
/// amount, fee and deadline, and it goes by the same hash.
pub proof fn law_entries_carry_the_terms(t: SettlementTrade, e: TradeEntry)
    requires
        is_entry(t, e),
    ensures
        zeros(12) + e.trader@ == t.trader@,
        zeros(12) + e.counterparty@ == t.counterparty@,
        resolved_token(t.token) == Result::<Seq<u8>, Seq<char>>::Ok(e.token@),
        e.amount == t.amount && e.fee == t.fee && e.deadline == t.deadline,
        e.trade_hash == t.trade_hash && e.assigned_node == t.assigned_node,
{
    let any = Seq::new(20, |i: int| 0u8);
    law_account_round_trip(any, t.trader@);
    law_account_round_trip(any, t.counterparty@);
}

/// A batch is not refused for its trades unless one has an account or a token that is not Ethereum's.
pub proof fn law_good_trades_are_not_refused(s: Seq<SettlementTrade>, e: Seq<char>)
    requires
        entries_refused(s, e),
    ensures
        exists|i: int|
            0 <= i < s.len() && {
                let t = #[trigger] s[i];
                ||| t.trader@.take(12) != zeros(12)
                ||| t.counterparty@.take(12) != zeros(12)
                ||| resolved_token(t.token) is Err
            },
{
    let i = choose|i: int| #[trigger] first_bad_trade(s, e, i);
    assert(entry_refusal(s[i], e));
}

/// The bond of a validator is that of the first entry under its key, whatever comes later.
pub proof fn law_first_entry_gives_the_bond(
    s: Seq<ValidatorEntry>,
    key: Seq<u8>,
    i: int,
    r: Result<u128, String>,
)
    requires
        0 <= i < s.len(),
        s[i].pubkey@ == key,
        forall|j: int| 0 <= j < i ==> (#[trigger] s[j]).pubkey@ != key,
        first_bond(s, key, r),
    ensures
        has_validator(s, key),
        match number_of(s[i].bond@, u128::MAX as nat) {
            Ok(w) => r matches Ok(v) && v == w,
            Err(_) => r is Err,
        },
{
    assert(first_validator(s, key, i));
    let k = choose|k: int| #[trigger] first_validator(s, key, k) && bond_read(s[k].bond@, r);
    if k < i {
        assert(s[k].pubkey@ != key);
    }
    if i < k {
        assert(s[i].pubkey@ != key);
    }
}

/// Who is no validator is in no entry.
pub proof fn law_listed_keys_are_validators(s: Seq<ValidatorEntry>, key: Seq<u8>, i: int)
    requires
        0 <= i < s.len(),
        s[i].pubkey@ == key,
    ensures
        has_validator(s, key),
    decreases i,
{
    if exists|j: int| 0 <= j < i && (#[trigger] s[j]).pubkey@ == key {
        let j = choose|j: int| 0 <= j < i && (#[trigger] s[j]).pubkey@ == key;
        law_listed_keys_are_validators(s, key, j);
    } else {
        assert(first_validator(s, key, i));
    }
}

/// The contracts are called by the addresses that their own texts give; one that gives none is enough to
/// call neither.
pub proof fn law_contracts_are_as_named(
    factory: Result<Seq<u8>, Seq<char>>,
    registry: Result<Seq<u8>, Seq<char>>,
)
    ensures
        contracts_from(factory, registry) is Ok <==> factory is Ok && registry is Ok,
        contracts_from(factory, registry) is Ok ==> contracts_from(factory, registry)->Ok_0 == (
            factory->Ok_0,
            registry->Ok_0,
        ),
{
}

} // verus!
