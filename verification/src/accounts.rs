//! Accounts and tokens as a chain names them, and the commitment to a trade.

use crate::bytes::{be8, be_value, law_u64_word_value, lemma_be8_len, zeros, Id32};
use crate::hexes::{hex_encode, hex_text};
use vstd::prelude::*;

verus! {

/// An Ethereum account or contract.
pub type EthAddress = [u8; 20];

/// An account of any chain in 32 bytes; a shorter native address has zeros in front of it.
pub type OnChainAccount = Id32;

/// What is paid with.
#[derive(Clone, Debug)]
pub enum Token {
    Native,
    Erc20(String),
    Spl(String),
    Cw20(String),
}

/// One trade to be settled on a chain.
#[derive(Clone, Debug)]
pub struct SettlementTrade {
    pub maker_order_id: Id32,
    pub taker_order_id: Id32,
    pub trader: OnChainAccount,
    pub counterparty: OnChainAccount,
    pub token: Token,
    pub amount: u64,
    pub fee: u64,
    pub deadline: u64,
    pub trade_hash: Id32,
    pub assigned_node: OnChainAccount,
}

/// Who receives fees, and by which tier.
#[derive(Clone, Debug)]
pub struct SettlementFeeConfig {
    pub fee_recipient: OnChainAccount,
    pub tier: u8,
}

/// A trade in the terms of the settlement contract.
#[derive(Clone, Debug)]
pub struct TradeEntry {
    pub trader: EthAddress,
    pub counterparty: EthAddress,
    pub token: EthAddress,
    pub amount: u64,
    pub fee: u64,
    pub deadline: u64,
    pub trade_hash: Id32,
    pub assigned_node: Id32,
}

/// Compares two addresses.
pub fn same_address(a: &EthAddress, b: &EthAddress) -> (r: bool)
    ensures
        r == (*a == *b),
{
    let mut i: usize = 0;
    while i < 20
        invariant
            i <= 20,
            forall|k: int| 0 <= k < i ==> a[k] == b[k],
        decreases 20 - i,
    {
        if a[i] != b[i] {
            return false;
        }
        i = i + 1;
    }
    assert(*a =~= *b);
    true
}

impl crate::assoc::Key for EthAddress {
    type V = EthAddress;

    open spec fn key(&self) -> EthAddress {
        *self
    }

    fn same(&self, other: &Self) -> (r: bool) {
        same_address(self, other)
    }
}

/// An account that holds an Ethereum address: twelve zero bytes, then the address.
pub open spec fn is_eth_account(a: Seq<u8>) -> bool {
    a.len() == 32 && a.take(12) == zeros(12)
}

/// Why an account is no Ethereum address.
pub open spec fn bad_account_text(a: Seq<u8>) -> Seq<char> {
    "OnChainAccount "@ + hex_text(a) + " is not a valid left-zero-padded Ethereum address"@
}

/// The Ethereum address that an account holds.
pub fn account_to_address(account: OnChainAccount) -> (r: Result<EthAddress, String>)
    ensures
        match r {
            Ok(a) => is_eth_account(account@) && a@ == account@.skip(12),
            Err(e) => !is_eth_account(account@) && e@ == bad_account_text(account@),
        },
{
    let mut i: usize = 0;
    while i < 12
        invariant
            i <= 12,
            forall|k: int| 0 <= k < i ==> account@[k] == 0,
        decreases 12 - i,
    {
        if account[i] != 0 {
            proof {
                assert(account@.take(12)[i as int] != zeros(12)[i as int]);
            }
            let mut out: String = "OnChainAccount ".to_owned();
            let shown: String = hex_encode(account.as_slice());
            out.append(shown.as_str());
            out.append(" is not a valid left-zero-padded Ethereum address");
            return Err(out);
        }
        i = i + 1;
    }
    proof {
        assert(account@.take(12) =~= zeros(12));
    }
    let mut addr: EthAddress = [0u8; 20];
    let mut j: usize = 0;
    while j < 20
        invariant
            j <= 20,
            forall|k: int| 0 <= k < j ==> addr@[k] == account@[k + 12],
        decreases 20 - j,
    {
        addr[j] = account[j + 12];
        j = j + 1;
    }
    assert(addr@ =~= account@.skip(12));
    Ok(addr)
}

/// The account that holds an Ethereum address.
pub fn address_to_account(addr: EthAddress) -> (r: OnChainAccount)
    ensures
        r@ == zeros(12) + addr@,
{
    let mut out: OnChainAccount = [0u8; 32];
    let mut j: usize = 0;
    while j < 20
        invariant
            j <= 20,
            forall|k: int| 0 <= k < 12 ==> out@[k] == 0,
            forall|k: int| 0 <= k < j ==> out@[k + 12] == addr@[k],
        decreases 20 - j,
    {
        out[j + 12] = addr[j];
        j = j + 1;
    }
    assert(out@ =~= zeros(12) + addr@);
    out
}

/// An address goes into an account and comes out again, and so does every account that holds one.
pub proof fn law_account_round_trip(addr: Seq<u8>, account: Seq<u8>)
    requires
        addr.len() == 20,
        is_eth_account(account),
    ensures
        is_eth_account(zeros(12) + addr),
        (zeros(12) + addr).skip(12) == addr,
        zeros(12) + account.skip(12) == account,
{
    assert((zeros(12) + addr).take(12) =~= zeros(12));
    assert((zeros(12) + addr).skip(12) =~= addr);
    assert(zeros(12) + account.skip(12) =~= account.take(12) + account.skip(12));
    assert(account.take(12) + account.skip(12) =~= account);
}

/// What alloy reads an address out of a text as: the twenty bytes, or the words of its error.
pub uninterp spec fn parsed_address(s: Seq<char>) -> Result<Seq<u8>, Seq<char>>;

/// `str::parse` into `alloy::primitives::Address`: forty hexadecimal digits, with or without a
/// prefix. Which texts those are, and what the error says, is the parser's; the answer depends on
/// the text alone.
#[verifier::external_body]
pub(crate) fn parse_address(s: &str) -> (r: Result<EthAddress, String>)
    ensures
        match r {
            Ok(a) => parsed_address(s@) == Result::<Seq<u8>, Seq<char>>::Ok(a@),
            Err(e) => parsed_address(s@) == Result::<Seq<u8>, Seq<char>>::Err(e@),
        },
{
    match s.parse::<alloy::primitives::Address>() {
        Ok(a) => Ok(a.into_array()),
        Err(e) => Err(e.to_string()),
    }
}

/// What `str`'s `Debug` shows.
pub uninterp spec fn str_debug_text(s: Seq<char>) -> Seq<char>;

/// `format!("{:?}")` on a text: it between double quotes, escaped where need be. What is shown is
/// a function of the text; which one is not claimed.
#[verifier::external_body]
pub(crate) fn str_debug(s: &str) -> (r: String)
    ensures
        r@ == str_debug_text(s@),
{
    format!("{:?}", s)
}

/// The words for a token that is not Ethereum's.
pub open spec fn foreign_token_text(kind: Seq<char>, name: Seq<char>) -> Seq<char> {
    kind + "("@ + str_debug_text(name) + ") is not an Ethereum token type"@
}

/// The address of a token, given what alloy makes of a text.
pub open spec fn token_address(token: Token, parsed: Result<Seq<u8>, Seq<char>>) -> Result<
    Seq<u8>,
    Seq<char>,
> {
    match token {
        Token::Native => Ok(zeros(20)),
        Token::Erc20(addr) => match parsed {
            Ok(a) => Ok(a),
            Err(e) => Err("invalid ERC20 address "@ + addr@ + ": "@ + e),
        },
        Token::Spl(name) => Err(foreign_token_text("Spl"@, name@)),
        Token::Cw20(name) => Err(foreign_token_text("Cw20"@, name@)),
    }
}

/// The text that a token is named by, empty for the native one.
pub open spec fn token_name(token: Token) -> Seq<char> {
    match token {
        Token::Native => Seq::empty(),
        Token::Erc20(s) => s@,
        Token::Spl(s) => s@,
        Token::Cw20(s) => s@,
    }
}

/// What [`token_address`] makes of a token.
pub open spec fn resolved_token(token: Token) -> Result<Seq<u8>, Seq<char>> {
    token_address(token, parsed_address(token_name(token)))
}

fn foreign_token(kind: &str, name: &str) -> (r: String)
    ensures
        r@ == foreign_token_text(kind@, name@),
{
    let mut out: String = kind.to_owned();
    out.append("(");
    let shown: String = str_debug(name);
    out.append(shown.as_str());
    out.append(") is not an Ethereum token type");
    out
}

/// The address of a token once its text, if it has one, has been read.
pub fn token_address_from(token: &Token, parsed: Result<EthAddress, String>) -> (r: Result<
    EthAddress,
    String,
>)
    ensures
        ({
            let p: Result<Seq<u8>, Seq<char>> = match parsed {
                Ok(a) => Ok(a@),
                Err(e) => Err(e@),
            };
            match r {
                Ok(a) => token_address(*token, p) == Result::<Seq<u8>, Seq<char>>::Ok(a@),
                Err(e) => token_address(*token, p) == Result::<Seq<u8>, Seq<char>>::Err(e@),
            }
        }),
{
    match token {
        Token::Native => {
            let z: EthAddress = [0u8; 20];
            assert(z@ =~= zeros(20));
            Ok(z)
        },
        Token::Erc20(addr) => match parsed {
            Ok(a) => Ok(a),
            Err(e) => {
                let mut out: String = "invalid ERC20 address ".to_owned();
                out.append(addr.as_str());
                out.append(": ");
                out.append(e.as_str());
                Err(out)
            },
        },
        Token::Spl(name) => Err(foreign_token("Spl", name.as_str())),
        Token::Cw20(name) => Err(foreign_token("Cw20", name.as_str())),
    }
}

/// The address of a token.
pub fn token_to_address(token: &Token) -> (r: Result<EthAddress, String>)
    ensures
        match r {
            Ok(a) => resolved_token(*token) == Result::<Seq<u8>, Seq<char>>::Ok(a@),
            Err(e) => resolved_token(*token) == Result::<Seq<u8>, Seq<char>>::Err(e@),
        },
{
    match token {
        Token::Erc20(addr) => {
            let parsed: Result<EthAddress, String> = parse_address(addr.as_str());
            token_address_from(token, parsed)
        },
        _ => token_address_from(token, Ok([0u8; 20])),
    }
}

/// A number as a 32-byte word.
pub open spec fn word(v: u64) -> Seq<u8> {
    zeros(24) + be8(v)
}

/// An address as a 32-byte word.
pub open spec fn address_word(a: Seq<u8>) -> Seq<u8> {
    zeros(12) + a
}

/// What a trade commits to, as nine 32-byte words.
pub open spec fn commitment(
    maker_order_id: Seq<u8>,
    taker_order_id: Seq<u8>,
    trader: Seq<u8>,
    counterparty: Seq<u8>,
    token: Seq<u8>,
    amount: u64,
    fee: u64,
    deadline: u64,
    assigned_node: Seq<u8>,
) -> Seq<u8> {
    maker_order_id + taker_order_id + address_word(trader) + address_word(counterparty)
        + address_word(token) + word(amount) + word(fee) + word(deadline) + assigned_node
}

/// `abi_encode` of `alloy::sol_types::SolValue` on a tuple of nine values of fixed size: the ABI
/// encoding of such a tuple is its members' words one after the other, an address with twelve
/// zero bytes in front of it and a number in big-endian order.
#[verifier::external_body]
fn abi_commitment(
    ids: (&Id32, &Id32, &Id32),
    addresses: (&EthAddress, &EthAddress, &EthAddress),
    numbers: (u64, u64, u64),
) -> (r: Vec<u8>)
    ensures
        r@ == commitment(
            ids.0@,
            ids.1@,
            addresses.0@,
            addresses.1@,
            addresses.2@,
            numbers.0,
            numbers.1,
            numbers.2,
            ids.2@,
        ),
{
    let fixed = |b: &Id32| alloy::primitives::B256::from(*b);
    let address = |a: &EthAddress| alloy::primitives::Address::from(*a);
    let number = |v: u64| alloy::primitives::U256::from(v);
    let (a, b, c) = (address(addresses.0), address(addresses.1), address(addresses.2));
    let (x, y, z) = (number(numbers.0), number(numbers.1), number(numbers.2));
    let tuple = (fixed(ids.0), fixed(ids.1), a, b, c, x, y, z, fixed(ids.2));
    alloy::sol_types::SolValue::abi_encode(&tuple)
}

/// The Keccak-256 digest of bytes.
pub uninterp spec fn keccak(s: Seq<u8>) -> Seq<u8>;

/// `alloy::primitives::keccak256`: the digest, which depends on the bytes alone.
#[verifier::external_body]
pub(crate) fn keccak256(data: &[u8]) -> (r: Id32)
    ensures
        r@ == keccak(data@),
{
    alloy::primitives::keccak256(data).0
}

/// What a trade commits to, given its token's address.
pub open spec fn trade_commitment(t: SettlementTrade, token: Seq<u8>) -> Seq<u8> {
    commitment(
        t.maker_order_id@,
        t.taker_order_id@,
        t.trader@.skip(12),
        t.counterparty@.skip(12),
        token,
        t.amount,
        t.fee,
        t.deadline,
        t.assigned_node@,
    )
}

/// The commitment that names a trade by its terms. Both the trader and whoever settles derive it.
pub fn compute_trade_hash(trade: &SettlementTrade) -> (r: Result<Id32, String>)
    ensures
        match r {
            Ok(h) => is_eth_account(trade.trader@) && is_eth_account(trade.counterparty@)
                && resolved_token(trade.token) is Ok && h@ == keccak(
                trade_commitment(*trade, resolved_token(trade.token)->Ok_0),
            ),
            Err(e) => if !is_eth_account(trade.trader@) {
                e@ == bad_account_text(trade.trader@)
            } else if !is_eth_account(trade.counterparty@) {
                e@ == bad_account_text(trade.counterparty@)
            } else {
                resolved_token(trade.token) == Result::<Seq<u8>, Seq<char>>::Err(e@)
            },
        },
{
    let trader: EthAddress = match account_to_address(trade.trader) {
        Ok(a) => a,
        Err(e) => {
            return Err(e);
        },
    };
    let counterparty: EthAddress = match account_to_address(trade.counterparty) {
        Ok(a) => a,
        Err(e) => {
            return Err(e);
        },
    };
    let token: EthAddress = match token_to_address(&trade.token) {
        Ok(a) => a,
        Err(e) => {
            return Err(e);
        },
    };
    let encoded: Vec<u8> = abi_commitment(
        (&trade.maker_order_id, &trade.taker_order_id, &trade.assigned_node),
        (&trader, &counterparty, &token),
        (trade.amount, trade.fee, trade.deadline),
    );
    Ok(keccak256(encoded.as_slice()))
}

/// A trade in the terms of the settlement contract, or why it has none.
pub fn trade_to_entry(trade: &SettlementTrade) -> (r: Result<TradeEntry, String>)
    ensures
        match r {
            Ok(t) => {
                &&& is_eth_account(trade.trader@)
                &&& is_eth_account(trade.counterparty@)
                &&& t.trader@ == trade.trader@.skip(12)
                &&& t.counterparty@ == trade.counterparty@.skip(12)
                &&& resolved_token(trade.token) == Result::<Seq<u8>, Seq<char>>::Ok(t.token@)
                &&& t.amount == trade.amount
                &&& t.fee == trade.fee
                &&& t.deadline == trade.deadline
                &&& t.trade_hash == trade.trade_hash
                &&& t.assigned_node == trade.assigned_node
            },
            Err(e) => if !is_eth_account(trade.trader@) {
                e@ == bad_account_text(trade.trader@)
            } else if !is_eth_account(trade.counterparty@) {
                e@ == bad_account_text(trade.counterparty@)
            } else {
                resolved_token(trade.token) == Result::<Seq<u8>, Seq<char>>::Err(e@)
            },
        },
{
    let trader: EthAddress = match account_to_address(trade.trader) {
        Ok(a) => a,
        Err(e) => {
            return Err(e);
        },
    };
    let counterparty: EthAddress = match account_to_address(trade.counterparty) {
        Ok(a) => a,
        Err(e) => {
            return Err(e);
        },
    };
    let token: EthAddress = match token_to_address(&trade.token) {
        Ok(a) => a,
        Err(e) => {
            return Err(e);
        },
    };
    Ok(
        TradeEntry {
            trader,
            counterparty,
            token,
            amount: trade.amount,
            fee: trade.fee,
            deadline: trade.deadline,
            trade_hash: trade.trade_hash,
            assigned_node: trade.assigned_node,
        },
    )
}

proof fn lemma_word_injective(a: u64, b: u64)
    requires
        word(a) == word(b),
    ensures
        a == b,
{
    assert(word(a).skip(24) =~= be8(a));
    assert(word(b).skip(24) =~= be8(b));
    crate::bytes::law_be8_injective(a, b);
}

/// The `i`-th of the nine words.
spec fn nth_word(s: Seq<u8>, i: int) -> Seq<u8> {
    s.subrange(32 * i, 32 * i + 32)
}

/// A commitment binds every term: two trades that commit to the same bytes agree in all of them.
pub proof fn law_commitment_binds_every_term(
    a: SettlementTrade,
    b: SettlementTrade,
    token_a: Seq<u8>,
    token_b: Seq<u8>,
)
    requires
        is_eth_account(a.trader@) && is_eth_account(a.counterparty@) && token_a.len() == 20,
        is_eth_account(b.trader@) && is_eth_account(b.counterparty@) && token_b.len() == 20,
        trade_commitment(a, token_a) == trade_commitment(b, token_b),
    ensures
        a.maker_order_id == b.maker_order_id,
        a.taker_order_id == b.taker_order_id,
        a.trader == b.trader,
        a.counterparty == b.counterparty,
        token_a == token_b,
        a.amount == b.amount,
        a.fee == b.fee,
        a.deadline == b.deadline,
        a.assigned_node == b.assigned_node,
{
    let x = trade_commitment(a, token_a);
    let y = trade_commitment(b, token_b);
    lemma_be8_len(a.amount);
    lemma_be8_len(a.fee);
    lemma_be8_len(a.deadline);
    lemma_be8_len(b.amount);
    lemma_be8_len(b.fee);
    lemma_be8_len(b.deadline);
    assert(x.len() == 288 && y.len() == 288);
    assert(nth_word(x, 0) =~= a.maker_order_id@ && nth_word(y, 0) =~= b.maker_order_id@);
    assert(nth_word(x, 1) =~= a.taker_order_id@ && nth_word(y, 1) =~= b.taker_order_id@);
    assert(nth_word(x, 2) =~= address_word(a.trader@.skip(12)));
    assert(nth_word(y, 2) =~= address_word(b.trader@.skip(12)));
    assert(nth_word(x, 3) =~= address_word(a.counterparty@.skip(12)));
    assert(nth_word(y, 3) =~= address_word(b.counterparty@.skip(12)));
    assert(nth_word(x, 4) =~= address_word(token_a) && nth_word(y, 4) =~= address_word(token_b));
    assert(nth_word(x, 5) =~= word(a.amount) && nth_word(y, 5) =~= word(b.amount));
    assert(nth_word(x, 6) =~= word(a.fee) && nth_word(y, 6) =~= word(b.fee));
    assert(nth_word(x, 7) =~= word(a.deadline) && nth_word(y, 7) =~= word(b.deadline));
    assert(nth_word(x, 8) =~= a.assigned_node@ && nth_word(y, 8) =~= b.assigned_node@);
    law_account_round_trip(token_a, a.trader@);
    law_account_round_trip(token_a, a.counterparty@);
    law_account_round_trip(token_b, b.trader@);
    law_account_round_trip(token_b, b.counterparty@);
    assert(a.maker_order_id =~= b.maker_order_id);
    assert(a.taker_order_id =~= b.taker_order_id);
    assert(a.assigned_node =~= b.assigned_node);
    assert(a.trader@ == b.trader@);
    assert(a.counterparty@ == b.counterparty@);
    assert(a.trader =~= b.trader);
    assert(a.counterparty =~= b.counterparty);
    lemma_word_injective(a.amount, b.amount);
    lemma_word_injective(a.fee, b.fee);
    lemma_word_injective(a.deadline, b.deadline);
}

/// Two texts that differ have the same digest.
pub open spec fn is_collision(x: Seq<u8>, y: Seq<u8>) -> bool {
    x != y && keccak(x) == keccak(y)
}

/// Two trades agree in every term.
pub open spec fn same_terms(a: SettlementTrade, b: SettlementTrade) -> bool {
    &&& a.maker_order_id == b.maker_order_id
    &&& a.taker_order_id == b.taker_order_id
    &&& a.trader == b.trader
    &&& a.counterparty == b.counterparty
    &&& a.amount == b.amount
    &&& a.fee == b.fee
    &&& a.deadline == b.deadline
    &&& a.assigned_node == b.assigned_node
}

/// The hash is sensitive to every term: trades in the native token that differ in one are hashed
/// apart, unless their commitments collide under Keccak-256.
pub proof fn law_changed_terms_change_the_hash(a: SettlementTrade, b: SettlementTrade)
    requires
        is_eth_account(a.trader@) && is_eth_account(a.counterparty@) && a.token == Token::Native,
        is_eth_account(b.trader@) && is_eth_account(b.counterparty@) && b.token == Token::Native,
        !same_terms(a, b),
    ensures
        ({
            let x = trade_commitment(a, resolved_token(a.token)->Ok_0);
            let y = trade_commitment(b, resolved_token(b.token)->Ok_0);
            keccak(x) != keccak(y) || is_collision(x, y)
        }),
{
    let x = trade_commitment(a, zeros(20));
    let y = trade_commitment(b, zeros(20));
    if x == y {
        law_commitment_binds_every_term(a, b, zeros(20), zeros(20));
    }
}

/// The hash that a trade already carries has no part in its commitment.
pub proof fn law_commitment_ignores_trade_hash(t: SettlementTrade, h: Id32, token: Seq<u8>)
    ensures
        trade_commitment(SettlementTrade { trade_hash: h, ..t }, token) == trade_commitment(
            t,
            token,
        ),
{
}

/// What a trade commits to, word by word: the two orders, the account that pays, its counterparty, the
/// token, the amount, the fee, the deadline, and the node that settles.
pub proof fn law_commitment_is_the_terms_in_order(t: SettlementTrade, token: Seq<u8>)
    requires
        is_eth_account(t.trader@) && is_eth_account(t.counterparty@) && token.len() == 20,
    ensures
        ({
            let c = trade_commitment(t, token);
            &&& c.len() == 288
            &&& c.subrange(0, 32) == t.maker_order_id@
            &&& c.subrange(32, 64) == t.taker_order_id@
            &&& c.subrange(64, 96) == t.trader@
            &&& c.subrange(96, 128) == t.counterparty@
            &&& c.subrange(140, 160) == token
            &&& be_value(c.subrange(160, 192)) == t.amount
            &&& be_value(c.subrange(192, 224)) == t.fee
            &&& be_value(c.subrange(224, 256)) == t.deadline
            &&& c.subrange(256, 288) == t.assigned_node@
        }),
{
    let c = trade_commitment(t, token);
    lemma_be8_len(t.amount);
    lemma_be8_len(t.fee);
    lemma_be8_len(t.deadline);
    law_account_round_trip(token, t.trader@);
    law_account_round_trip(token, t.counterparty@);
    assert(c.subrange(0, 32) =~= t.maker_order_id@);
    assert(c.subrange(32, 64) =~= t.taker_order_id@);
    assert(c.subrange(64, 96) =~= zeros(12) + t.trader@.skip(12));
    assert(c.subrange(96, 128) =~= zeros(12) + t.counterparty@.skip(12));
    assert(c.subrange(140, 160) =~= token);
    assert(c.subrange(160, 192) =~= zeros(24) + be8(t.amount));
    assert(c.subrange(192, 224) =~= zeros(24) + be8(t.fee));
    assert(c.subrange(224, 256) =~= zeros(24) + be8(t.deadline));
    assert(c.subrange(256, 288) =~= t.assigned_node@);
    law_u64_word_value(t.amount);
    law_u64_word_value(t.fee);
    law_u64_word_value(t.deadline);
}

/// The address of a token: twenty zero bytes for the native one, what its text reads as for one of
/// Ethereum's, and none for any other chain's.
pub proof fn law_tokens_have_their_address(token: Token, parsed: Result<Seq<u8>, Seq<char>>)
    ensures
        ({
            let r = token_address(token, parsed);
            &&& token is Native ==> r is Ok && r->Ok_0.len() == 20 && forall|i: int|
                0 <= i < 20 ==> r->Ok_0[i] == 0
            &&& token is Erc20 && parsed is Ok ==> r == parsed
            &&& token is Erc20 && parsed is Err ==> r is Err
            &&& token is Spl || token is Cw20 ==> r is Err
        }),
{
}

} // verus!
