//! What is asked of a wallet over its local interface, and what its answers mean.

use crate::accounts::{str_debug, str_debug_text, OnChainAccount};
use crate::bytes::id_from_slice;
use crate::hexes::{
    fault_text, hex_bytes, hex_decode, hex_encode, hex_fault, hex_text, hex_valid, HexFault,
};
use crate::text::{decimal_text, joined, push_decimal};
use vstd::prelude::*;
use vstd::utf8::encode_utf8;

verus! {

/// An account. Balances are decimal text: they can be larger than any machine word.
#[derive(Clone, Debug)]
pub struct WalletAccount {
    pub pubkey: OnChainAccount,
    pub balance: String,
    pub balance_frg: String,
    pub nonce: u64,
}

/// The state of the wallet's node.
#[derive(Clone, Debug)]
pub struct WalletStatus {
    pub height: u64,
    pub state_root: Vec<u8>,
    pub peer_count: u64,
    pub mempool_len: u64,
    pub validator_count: u64,
    pub consensus_round: u32,
    pub consensus_phase: String,
    pub grpc_only: bool,
}

/// A validator and its bond, in decimal text.
#[derive(Clone, Debug)]
pub struct WalletValidator {
    pub pubkey: OnChainAccount,
    pub bond: String,
    pub bond_frg: String,
}

/// What a contract holds under a key.
#[derive(Clone, Debug)]
pub struct ContractState {
    pub contract_address: OnChainAccount,
    pub exists: bool,
    pub state_root: Vec<u8>,
    pub key: Vec<u8>,
    pub found: bool,
    pub value: Vec<u8>,
}

/// Why a field is no key, if it is none: it is not hexadecimal, or not of thirty-two bytes.
pub open spec fn key_refusal(field: Seq<char>, s: Seq<char>, e: Seq<char>) -> bool {
    let digits = encode_utf8(s);
    if hex_valid(digits) {
        digits.len() != 64 && e == "frg-wallet: "@ + field + " must be 32 bytes, got "@
            + decimal_text(digits.len() / 2)
    } else {
        exists|f: HexFault| #[trigger]
            hex_fault(digits, f) && e == "frg-wallet: "@ + field + " "@ + str_debug_text(s)
                + " is not hex: "@ + fault_text(f)
    }
}

/// The text is this key in hexadecimal.
pub open spec fn is_key_text(s: Seq<char>, key: OnChainAccount) -> bool {
    let digits = encode_utf8(s);
    hex_valid(digits) && digits.len() == 64 && key@ == hex_bytes(digits)
}

/// What a key reads as.
pub open spec fn key_read(
    field: Seq<char>,
    s: Seq<char>,
    r: Result<OnChainAccount, String>,
) -> bool {
    match r {
        Ok(key) => is_key_text(s, key),
        Err(e) => key_refusal(field, s, e@),
    }
}

/// A key in hexadecimal.
pub fn encode_pubkey(pubkey: &OnChainAccount) -> (r: String)
    ensures
        r@ == hex_text(pubkey@),
{
    hex_encode(pubkey.as_slice())
}

/// The key that a field of an answer holds.
pub fn decode_pubkey(field: &str, s: &str) -> (r: Result<OnChainAccount, String>)
    ensures
        key_read(field@, s@, r),
{
    match hex_decode(s.as_bytes()) {
        Err(f) => {
            let mut e: String = joined("frg-wallet: ", field);
            e.append(" ");
            e.append(str_debug(s).as_str());
            e.append(" is not hex: ");
            e.append(f.message().as_str());
            proof {
                assert(hex_fault(encode_utf8(s@), f));
                assert(e@ =~= "frg-wallet: "@ + field@ + " "@ + str_debug_text(s@)
                    + " is not hex: "@ + fault_text(f));
            }
            Err(e)
        },
        Ok(v) => {
            if v.len() != 32 {
                let mut e: String = joined("frg-wallet: ", field);
                e.append(" must be 32 bytes, got ");
                push_decimal(&mut e, v.len() as u64);
                return Err(e);
            }
            proof {
                assert(v@.take(32) =~= v@);
            }
            Ok(id_from_slice(v.as_slice()))
        },
    }
}

/// A key's text reads as that key.
pub proof fn law_key_text_round_trip(key: OnChainAccount)
    ensures
        is_key_text(hex_text(key@), key),
{
    crate::hexes::law_hex_round_trip(key@);
    assert(hex_bytes(encode_utf8(hex_text(key@))).len() == 32);
}

/// Where an account is asked for: the wallet's own where no key is given.
pub fn account_path(pubkey: Option<OnChainAccount>) -> (r: String)
    ensures
        r@ == (match pubkey {
            Some(key) => "/account?pubkey="@ + hex_text(key@),
            None => "/account"@,
        }),
{
    match pubkey {
        Some(key) => joined("/account?pubkey=", encode_pubkey(&key).as_str()),
        None => "/account".to_owned(),
    }
}

/// Where a contract's address is asked for: that of the next deployment where no number is given.
pub fn contract_address_path(nonce: Option<u64>) -> (r: String)
    ensures
        r@ == (match nonce {
            Some(n) => "/contracts/address?nonce="@ + decimal_text(n as nat),
            None => "/contracts/address"@,
        }),
{
    match nonce {
        Some(n) => {
            let mut path: String = "/contracts/address?nonce=".to_owned();
            push_decimal(&mut path, n);
            path
        },
        None => "/contracts/address".to_owned(),
    }
}

/// Where a contract's state is asked for: under a key, or as a whole.
pub fn contract_state_path(contract_address: &OnChainAccount, key: Option<&[u8]>) -> (r: String)
    ensures
        r@ == "/contracts/state?contract_address="@ + hex_text(contract_address@) + (match key {
            Some(k) => "&key_hex="@ + hex_text(k@),
            None => Seq::empty(),
        }),
{
    let mut path: String = joined(
        "/contracts/state?contract_address=",
        encode_pubkey(contract_address).as_str(),
    );
    match key {
        Some(k) => {
            let ghost before = path@;
            path.append("&key_hex=");
            path.append(hex_encode(k).as_str());
            assert(path@ =~= before + ("&key_hex="@ + hex_text(k@)));
        },
        None => {
            assert(path@ =~= path@ + Seq::<char>::empty());
        },
    }
    path
}

/// The wallet's key and chain, from its answer.
pub fn read_pubkey(pubkey: &str, chain_id: String) -> (r: Result<(OnChainAccount, String), String>)
    ensures
        match r {
            Ok((key, chain)) => is_key_text(pubkey@, key) && chain@ == chain_id@,
            Err(e) => key_refusal("pubkey"@, pubkey@, e@),
        },
{
    match decode_pubkey("pubkey", pubkey) {
        Ok(key) => Ok((key, chain_id)),
        Err(e) => Err(e),
    }
}

/// An account, from the wallet's answer.
pub fn read_account(pubkey: &str, balance: String, balance_frg: String, nonce: u64) -> (r: Result<
    WalletAccount,
    String,
>)
    ensures
        match r {
            Ok(a) => is_key_text(pubkey@, a.pubkey) && a.balance@ == balance@ && a.balance_frg@
                == balance_frg@ && a.nonce == nonce,
            Err(e) => key_refusal("pubkey"@, pubkey@, e@),
        },
{
    match decode_pubkey("pubkey", pubkey) {
        Ok(key) => Ok(WalletAccount { pubkey: key, balance, balance_frg, nonce }),
        Err(e) => Err(e),
    }
}

/// What the standard alphabet of base64, with padding, stands for: the bytes, or the words of the
/// decoder's error.
pub uninterp spec fn base64_decoded(s: Seq<char>) -> Result<Seq<u8>, Seq<char>>;

/// `base64::Engine::decode` of `general_purpose::STANDARD`. What a text stands for, and what the
/// error says, is the decoder's; the answer depends on the text alone.
#[verifier::external_body]
fn base64_decode(s: &str) -> (r: Result<Vec<u8>, String>)
    ensures
        match r {
            Ok(v) => base64_decoded(s@) == Result::<Seq<u8>, Seq<char>>::Ok(v@),
            Err(e) => base64_decoded(s@) == Result::<Seq<u8>, Seq<char>>::Err(e@),
        },
{
    base64::Engine::decode(&base64::engine::general_purpose::STANDARD, s).map_err(|e| e.to_string())
}

/// The node's state as the wallet answers it. The root is in base64, and may be missing.
#[derive(Clone, Debug)]
pub struct StatusAnswer {
    pub height: u64,
    pub state_root: String,
    pub peer_count: u64,
    pub mempool_len: u64,
    pub validator_count: u64,
    pub consensus_round: u32,
    pub consensus_phase: String,
    pub grpc_only: bool,
}

/// The root that an answer holds, given what its text stands for.
pub open spec fn root_from(text: Seq<char>, decoded: Result<Seq<u8>, Seq<char>>) -> Result<
    Seq<u8>,
    Seq<char>,
> {
    if text.len() == 0 {
        Ok(Seq::empty())
    } else {
        match decoded {
            Ok(b) => Ok(b),
            Err(e) => Err("frg-wallet: state_root is not base64: "@ + e),
        }
    }
}

/// A decoder's answer by its view.
pub open spec fn bytes_or_text(r: Result<Vec<u8>, String>) -> Result<Seq<u8>, Seq<char>> {
    match r {
        Ok(v) => Ok(v@),
        Err(e) => Err(e@),
    }
}

/// `r` is the status that an answer gives with this root.
pub open spec fn status_is(
    a: StatusAnswer,
    root: Result<Seq<u8>, Seq<char>>,
    r: Result<WalletStatus, String>,
) -> bool {
    match r {
        Ok(s) => {
            &&& root == Result::<Seq<u8>, Seq<char>>::Ok(s.state_root@)
            &&& s.height == a.height
            &&& s.peer_count == a.peer_count
            &&& s.mempool_len == a.mempool_len
            &&& s.validator_count == a.validator_count
            &&& s.consensus_round == a.consensus_round
            &&& s.consensus_phase@ == a.consensus_phase@
            &&& s.grpc_only == a.grpc_only
        },
        Err(e) => root == Result::<Seq<u8>, Seq<char>>::Err(e@),
    }
}

/// The status that an answer gives, once its root has been decoded. The decoder's answer does not
/// matter where there is no root.
pub fn status_from(a: StatusAnswer, decoded: Result<Vec<u8>, String>) -> (r: Result<
    WalletStatus,
    String,
>)
    ensures
        status_is(a, root_from(a.state_root@, bytes_or_text(decoded)), r),
{
    let state_root: Vec<u8> = if a.state_root.as_str().is_empty() {
        let v: Vec<u8> = Vec::new();
        assert(v@ =~= Seq::empty());
        v
    } else {
        match decoded {
            Ok(v) => v,
            Err(e) => {
                return Err(joined("frg-wallet: state_root is not base64: ", e.as_str()));
            },
        }
    };
    Ok(
        WalletStatus {
            height: a.height,
            state_root,
            peer_count: a.peer_count,
            mempool_len: a.mempool_len,
            validator_count: a.validator_count,
            consensus_round: a.consensus_round,
            consensus_phase: a.consensus_phase,
            grpc_only: a.grpc_only,
        },
    )
}

/// The status that an answer gives.
pub fn read_status(a: StatusAnswer) -> (r: Result<WalletStatus, String>)
    ensures
        status_is(a, root_from(a.state_root@, base64_decoded(a.state_root@)), r),
{
    let decoded: Result<Vec<u8>, String> = base64_decode(a.state_root.as_str());
    status_from(a, decoded)
}

/// A validator as the wallet answers it.
#[derive(Clone, Debug)]
pub struct ValidatorAnswer {
    pub pubkey: String,
    pub bond: String,
    pub bond_frg: String,
}

/// `v` is the validator that an answer gives.
pub open spec fn validator_is(a: ValidatorAnswer, v: WalletValidator) -> bool {
    is_key_text(a.pubkey@, v.pubkey) && v.bond@ == a.bond@ && v.bond_frg@ == a.bond_frg@
}

/// The text is a key.
pub open spec fn has_key(s: Seq<char>) -> bool {
    hex_valid(encode_utf8(s)) && encode_utf8(s).len() == 64
}

/// `i` is the first answer whose key cannot be read, and `e` says why.
pub open spec fn first_bad_validator(s: Seq<ValidatorAnswer>, e: Seq<char>, i: int) -> bool {
    &&& 0 <= i < s.len()
    &&& key_refusal("validator pubkey"@, s[i].pubkey@, e)
    &&& forall|j: int| 0 <= j < i ==> has_key((#[trigger] s[j]).pubkey@)
}

/// Some answer's key cannot be read, and `e` says why of the first such.
pub open spec fn validators_refused(s: Seq<ValidatorAnswer>, e: Seq<char>) -> bool {
    exists|i: int| #[trigger] first_bad_validator(s, e, i)
}

/// The validators, from the wallet's answer: all of them, or why the first that cannot be read
/// cannot.
pub fn read_validators(answer: Vec<ValidatorAnswer>) -> (r: Result<Vec<WalletValidator>, String>)
    ensures
        match r {
            Ok(v) => v@.len() == answer@.len() && forall|i: int|
                0 <= i < v@.len() ==> validator_is(answer@[i], #[trigger] v@[i]),
            Err(e) => validators_refused(answer@, e@),
        },
{
    let ghost all = answer@;
    let mut out: Vec<WalletValidator> = Vec::new();
    for a in it: answer.into_iter()
        invariant
            it.seq() == all,
            all == answer@,
            out@.len() == it.index(),
            forall|i: int| 0 <= i < out@.len() ==> validator_is(all[i], #[trigger] out@[i]),
            forall|i: int| 0 <= i < it.index() ==> has_key((#[trigger] all[i]).pubkey@),
    {
        let ghost av = a;
        proof {
            assert(all[it.index()] == av);
        }
        match decode_pubkey("validator pubkey", a.pubkey.as_str()) {
            Ok(pubkey) => {
                out.push(WalletValidator { pubkey, bond: a.bond, bond_frg: a.bond_frg });
            },
            Err(e) => {
                proof {
                    assert(first_bad_validator(all, e@, it.index()));
                }
                return Err(e);
            },
        }
    }
    Ok(out)
}

/// A contract's state as the wallet answers it, its bytes in hexadecimal.
#[derive(Clone, Debug)]
pub struct ContractStateAnswer {
    pub contract_address: String,
    pub exists: bool,
    pub state_root: String,
    pub key: String,
    pub found: bool,
    pub value: String,
}

/// Why a field is not hexadecimal.
pub open spec fn field_refusal(field: Seq<char>, s: Seq<char>, e: Seq<char>) -> bool {
    exists|f: HexFault| #[trigger]
        hex_fault(encode_utf8(s), f) && e == "frg-wallet: "@ + field + " is not hex: "@
            + fault_text(f)
}

fn decode_field(field: &str, s: &str) -> (r: Result<Vec<u8>, String>)
    ensures
        match r {
            Ok(v) => hex_valid(encode_utf8(s@)) && v@ == hex_bytes(encode_utf8(s@)),
            Err(e) => !hex_valid(encode_utf8(s@)) && field_refusal(field@, s@, e@),
        },
{
    match hex_decode(s.as_bytes()) {
        Ok(v) => Ok(v),
        Err(f) => {
            let mut e: String = joined("frg-wallet: ", field);
            e.append(" is not hex: ");
            e.append(f.message().as_str());
            proof {
                assert(hex_fault(encode_utf8(s@), f));
                assert(e@ =~= "frg-wallet: "@ + field@ + " is not hex: "@ + fault_text(f));
            }
            Err(e)
        },
    }
}

/// Why an answer cannot be read: the first of its fields that cannot be.
pub open spec fn state_refusal(a: ContractStateAnswer, e: Seq<char>) -> bool {
    if !has_key(a.contract_address@) {
        key_refusal("contract_address"@, a.contract_address@, e)
    } else if !hex_valid(encode_utf8(a.state_root@)) {
        field_refusal("state_root"@, a.state_root@, e)
    } else if !hex_valid(encode_utf8(a.key@)) {
        field_refusal("key"@, a.key@, e)
    } else {
        !hex_valid(encode_utf8(a.value@)) && field_refusal("value"@, a.value@, e)
    }
}

/// A contract's state, from the wallet's answer.
pub fn read_contract_state(a: ContractStateAnswer) -> (r: Result<ContractState, String>)
    ensures
        match r {
            Ok(s) => {
                &&& is_key_text(a.contract_address@, s.contract_address)
                &&& s.exists == a.exists
                &&& hex_valid(encode_utf8(a.state_root@)) && s.state_root@ == hex_bytes(
                    encode_utf8(a.state_root@),
                )
                &&& hex_valid(encode_utf8(a.key@)) && s.key@ == hex_bytes(encode_utf8(a.key@))
                &&& s.found == a.found
                &&& hex_valid(encode_utf8(a.value@)) && s.value@ == hex_bytes(
                    encode_utf8(a.value@),
                )
            },
            Err(e) => state_refusal(a, e@),
        },
{
    let contract_address: OnChainAccount = match decode_pubkey(
        "contract_address",
        a.contract_address.as_str(),
    ) {
        Ok(k) => k,
        Err(e) => {
            return Err(e);
        },
    };
    let state_root: Vec<u8> = match decode_field("state_root", a.state_root.as_str()) {
        Ok(v) => v,
        Err(e) => {
            return Err(e);
        },
    };
    let key: Vec<u8> = match decode_field("key", a.key.as_str()) {
        Ok(v) => v,
        Err(e) => {
            return Err(e);
        },
    };
    let value: Vec<u8> = match decode_field("value", a.value.as_str()) {
        Ok(v) => v,
        Err(e) => {
            return Err(e);
        },
    };
    Ok(
        ContractState {
            contract_address,
            exists: a.exists,
            state_root,
            key,
            found: a.found,
            value,
        },
    )
}

/// A deployment's transaction and address, from the wallet's answer.
pub fn read_deployment(txid: String, contract_address: &str) -> (r: Result<
    (String, OnChainAccount),
    String,
>)
    ensures
        match r {
            Ok((id, address)) => id@ == txid@ && is_key_text(contract_address@, address),
            Err(e) => key_refusal("contract_address"@, contract_address@, e@),
        },
{
    match decode_pubkey("contract_address", contract_address) {
        Ok(address) => Ok((txid, address)),
        Err(e) => Err(e),
    }
}

/// What to make of an answer's body: it is passed on where the request succeeded, and otherwise
/// the error that it states is, or the body itself where it states none.
pub fn accept_body(success: bool, status: &str, stated: Option<String>, body: String) -> (r: Result<
    String,
    String,
>)
    ensures
        match r {
            Ok(b) => success && b@ == body@,
            Err(e) => !success && e@ == "frg-wallet: "@ + status@ + ": "@ + (match stated {
                Some(s) => s@,
                None => body@,
            }),
        },
{
    if success {
        return Ok(body);
    }
    let mut e: String = joined("frg-wallet: ", status);
    e.append(": ");
    match stated {
        Some(s) => {
            e.append(s.as_str());
        },
        None => {
            e.append(body.as_str());
        },
    }
    Err(e)
}

/// The words for a body that is not what was asked for.
pub fn unexpected_body(body: &str, error: &str) -> (r: String)
    ensures
        r@ == "frg-wallet: unexpected response body ("@ + str_debug_text(body@) + "): "@ + error@,
{
    let mut e: String = joined(
        "frg-wallet: unexpected response body (",
        str_debug(body).as_str(),
    );
    e.append("): ");
    e.append(error);
    e
}

/// A status is what the wallet answered, field by field. It has no root where the answer has none, and
/// else what the root's text stands for; the answer cannot be read where that text stands for nothing.
pub proof fn law_status_is_as_answered(
    a: StatusAnswer,
    decoded: Result<Seq<u8>, Seq<char>>,
    r: Result<WalletStatus, String>,
)
    requires
        status_is(a, root_from(a.state_root@, decoded), r),
    ensures
        r is Err <==> a.state_root@.len() > 0 && decoded is Err,
        r matches Ok(s) ==> {
            &&& a.state_root@.len() == 0 ==> s.state_root@.len() == 0
            &&& a.state_root@.len() > 0 ==> s.state_root@ == decoded->Ok_0
            &&& s.height == a.height && s.peer_count == a.peer_count
            &&& s.mempool_len == a.mempool_len && s.validator_count == a.validator_count
            &&& s.consensus_round == a.consensus_round && s.consensus_phase@ == a.consensus_phase@
            &&& s.grpc_only == a.grpc_only
        },
{
}

/// A validator that is answered under the text of a key has that key, and the bonds that are answered.
pub proof fn law_validators_are_as_answered(
    a: ValidatorAnswer,
    v: WalletValidator,
    key: OnChainAccount,
)
    requires
        validator_is(a, v),
        a.pubkey@ == hex_text(key@),
    ensures
        v.pubkey == key,
        v.bond@ == a.bond@ && v.bond_frg@ == a.bond_frg@,
{
    law_key_text_round_trip(key);
    assert(v.pubkey =~= key);
}

} // verus!
