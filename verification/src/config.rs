//! What a node is told at its start, as text.

use crate::bytes::{id_from_slice, same_id, Id32};
use crate::hexes::{
    fault_text, hex_bytes, hex_decode, hex_fault, hex_text, hex_valid, HexFault,
};
use crate::text::{
    decimal_text, joined, lemma_pieces_len, number_fault_text, number_of, parse_number, pieces,
    push_decimal, split_max, strip_pairs, stripped, texts_view, trim, trimmed,
};
use crate::types::{region_name, Region};
use vstd::prelude::*;
use vstd::utf8::encode_utf8;

verus! {

/// The digits of a key, without the prefixes that its text may begin with.
pub open spec fn digits_of(s: Seq<char>) -> Seq<u8> {
    encode_utf8(stripped(s, '0', 'x'))
}

/// The text is this key.
pub open spec fn is_key(s: Seq<char>, key: Id32) -> bool {
    hex_valid(digits_of(s)) && digits_of(s).len() == 64 && key@ == hex_bytes(digits_of(s))
}

/// The text is some key.
pub open spec fn is_some_key(s: Seq<char>) -> bool {
    hex_valid(digits_of(s)) && digits_of(s).len() == 64
}

/// Why text is no key: `not_hex` and what is wrong with the digits, or `not_long` and how many
/// bytes there are.
pub open spec fn key_fault(
    s: Seq<char>,
    not_hex: Seq<char>,
    not_long: Seq<char>,
    e: Seq<char>,
) -> bool {
    let d = digits_of(s);
    if hex_valid(d) {
        d.len() != 64 && e == not_long + decimal_text(d.len() / 2)
    } else {
        exists|f: HexFault| #[trigger] hex_fault(d, f) && e == not_hex + fault_text(f)
    }
}

fn read_key(s: &str, not_hex: &str, not_long: &str) -> (r: Result<Id32, String>)
    ensures
        match r {
            Ok(key) => is_key(s@, key),
            Err(e) => !is_some_key(s@) && key_fault(s@, not_hex@, not_long@, e@),
        },
{
    let digits: &str = strip_pairs(s, '0', 'x');
    match hex_decode(digits.as_bytes()) {
        Err(f) => {
            proof {
                assert(hex_fault(digits_of(s@), f));
            }
            Err(joined(not_hex, f.message().as_str()))
        },
        Ok(v) => {
            if v.len() != 32 {
                let mut e: String = not_long.to_owned();
                push_decimal(&mut e, v.len() as u64);
                return Err(e);
            }
            proof {
                assert(v@.take(32) =~= v@);
            }
            Ok(id_from_slice(v.as_slice()))
        },
    }
}

/// The words for a setting that is no key.
pub open spec fn not_hex_text(name: Seq<char>) -> Seq<char> {
    name + " is not valid hex: "@
}

pub open spec fn not_long_text(name: Seq<char>) -> Seq<char> {
    name + " must be exactly 32 bytes, got "@
}

/// The key that a setting holds, or why it holds none.
pub fn parse_key(name: &str, s: &str) -> (r: Result<Id32, String>)
    ensures
        match r {
            Ok(key) => is_key(s@, key),
            Err(e) => !is_some_key(s@) && key_fault(
                s@,
                not_hex_text(name@),
                not_long_text(name@),
                e@,
            ),
        },
{
    let not_hex: String = joined(name, " is not valid hex: ");
    let not_long: String = joined(name, " must be exactly 32 bytes, got ");
    read_key(s, not_hex.as_str(), not_long.as_str())
}

/// The number that a setting holds, and the default where it holds none or none that fits.
pub open spec fn number_or_default(s: Option<&str>, max: u64, default: u64) -> u64 {
    match s {
        Some(t) => match number_of(t@, max as nat) {
            Ok(v) => v as u64,
            Err(_) => default,
        },
        None => default,
    }
}

/// The number that a setting holds, or the default.
pub fn setting_or(s: Option<&str>, max: u64, default: u64) -> (r: u64)
    ensures
        r == number_or_default(s, max, default),
{
    match s {
        Some(t) => match parse_number(t, max as u128) {
            Ok(v) => {
                proof {
                    lemma_number_bound(t@, max as nat);
                }
                v as u64
            },
            Err(_) => default,
        },
        None => default,
    }
}

/// A number that is read is at most what was asked for.
pub proof fn lemma_number_bound(s: Seq<char>, max: nat)
    ensures
        number_of(s, max) matches Ok(v) ==> v <= max,
{
    if s.len() > 0 {
        if s[0] == '+' {
            lemma_digits_bound(s.skip(1), (s.len() - 1) as nat, max);
        } else {
            lemma_digits_bound(s, s.len(), max);
        }
    }
}

proof fn lemma_digits_bound(s: Seq<char>, n: nat, max: nat)
    ensures
        crate::text::digits_value(s, n, max) matches Ok(v) ==> v <= max,
    decreases n,
{
    if n > 0 {
        lemma_digits_bound(s, (n - 1) as nat, max);
    }
}

/// The number that a setting holds where it is more than zero, or the default.
pub fn positive_or(s: Option<&str>, max: u64, default: u64) -> (r: u64)
    ensures
        r == (if number_or_default(s, max, 0) > 0 {
            number_or_default(s, max, 0)
        } else {
            default
        }),
{
    let v: u64 = setting_or(s, max, 0);
    if v > 0 {
        v
    } else {
        default
    }
}

/// The number that a setting holds, or why it holds none: it is not a valid number of that `kind`.
pub fn required_number(name: &str, kind: &str, s: &str, max: u64) -> (r: Result<u64, String>)
    ensures
        match (r, number_of(s@, max as nat)) {
            (Ok(v), Ok(w)) => v == w,
            (Err(e), Err(f)) => e@ == name@ + " is not a valid "@ + kind@ + ": "@
                + number_fault_text(f),
            _ => false,
        },
{
    match parse_number(s, max as u128) {
        Ok(v) => {
            proof {
                lemma_number_bound(s@, max as nat);
            }
            Ok(v as u64)
        },
        Err(f) => {
            let mut e: String = joined(name, " is not a valid ");
            e.append(kind);
            e.append(": ");
            e.append(f.message().as_str());
            Err(e)
        },
    }
}

/// How an entry of the list of nodes is spoken of.
pub open spec fn entry_name(entry: Seq<char>) -> Seq<char> {
    "MEX_SETTLEMENT_ACTIVE_NODES entry '"@ + entry + "'"@
}

/// The entries of the list of nodes.
pub open spec fn node_entries(list: Seq<char>) -> Seq<Seq<char>> {
    pieces(list, ',', usize::MAX as nat)
}

/// `i` is the first entry that is no key, and `e` says why.
pub open spec fn first_bad_entry(list: Seq<char>, e: Seq<char>, i: int) -> bool {
    let entries = node_entries(list);
    &&& 0 <= i < entries.len()
    &&& key_fault(
        trimmed(entries[i]),
        not_hex_text(entry_name(entries[i])),
        not_long_text(entry_name(entries[i])),
        e,
    )
    &&& forall|j: int| 0 <= j < i ==> is_some_key(trimmed(#[trigger] entries[j]))
}

/// Some entry is no key, and `e` says why of the first such.
pub open spec fn nodes_refused(list: Seq<char>, e: Seq<char>) -> bool {
    exists|i: int| #[trigger] first_bad_entry(list, e, i)
}

/// The keys that the list of nodes holds.
pub open spec fn are_nodes(list: Seq<char>, nodes: Seq<Id32>) -> bool {
    let entries = node_entries(list);
    nodes.len() == entries.len() && forall|i: int|
        0 <= i < nodes.len() ==> is_key(trimmed(entries[i]), #[trigger] nodes[i])
}

/// The words for a list without the node itself.
pub open spec fn own_missing_text() -> Seq<char> {
    "MEX_SETTLEMENT_ACTIVE_NODES is set but does not contain this node's own MEX_SETTLEMENT_NODE_PUBKEY -- this node would never be assigned any settlement submissions"@
}

/// The nodes that matches are assigned to in turn: those listed, of which this node has to be one,
/// or this node alone where nothing is listed.
pub fn parse_active_nodes(list: Option<&str>, own: &Id32) -> (r: Result<Vec<Id32>, String>)
    ensures
        ({
            let blank = match list {
                Some(t) => trimmed(t@).len() == 0,
                None => true,
            };
            if blank {
                r matches Ok(v) && v@ == seq![*own]
            } else {
                match r {
                    Ok(v) => are_nodes(list->0@, v@) && v@.contains(*own),
                    Err(e) => nodes_refused(list->0@, e@) || (e@ == own_missing_text() && exists|
                        v: Seq<Id32>,
                    | #[trigger]
                        are_nodes(list->0@, v) && !v.contains(*own)),
                }
            }
        }),
{
    let text: &str = match list {
        Some(t) => t,
        None => "",
    };
    proof {
        reveal_strlit("");
    }
    if list.is_none() || trim(text).is_empty() {
        let mut one: Vec<Id32> = Vec::new();
        one.push(*own);
        assert(one@ =~= seq![*own]);
        return Ok(one);
    }
    let entries: Vec<&str> = split_max(text, ',', usize::MAX);
    let ghost ev = node_entries(text@);
    let mut out: Vec<Id32> = Vec::new();
    let mut found: bool = false;
    let mut i: usize = 0;
    while i < entries.len()
        invariant
            i <= entries@.len(),
            texts_view(entries@) == ev,
            ev == node_entries(text@),
            list matches Some(t) && t@ == text@,
            trimmed(text@).len() > 0,
            out@.len() == i,
            found == out@.contains(*own),
            forall|k: int| 0 <= k < i ==> is_key(trimmed(ev[k]), #[trigger] out@[k]),
            forall|k: int| 0 <= k < i ==> is_some_key(trimmed(#[trigger] ev[k])),
        decreases entries@.len() - i,
    {
        let entry: &str = entries[i];
        proof {
            assert(ev[i as int] == entry@);
        }
        let mut name: String = joined("MEX_SETTLEMENT_ACTIVE_NODES entry '", entry);
        name.append("'");
        let ghost before = out@;
        match parse_key(name.as_str(), trim(entry)) {
            Ok(key) => {
                if same_id(&key, own) {
                    found = true;
                }
                out.push(key);
                proof {
                    assert(out@ =~= before.push(key));
                    if before.contains(*own) {
                        let k = choose|k: int| 0 <= k < before.len() && before[k] == *own;
                        assert(out@[k] == *own);
                    }
                    if key == *own {
                        assert(out@[i as int] == *own);
                    }
                    if out@.contains(*own) {
                        let k = choose|k: int| 0 <= k < out@.len() && out@[k] == *own;
                        if k < i {
                            assert(before[k] == *own);
                        }
                    }
                }
            },
            Err(e) => {
                proof {
                    assert(first_bad_entry(text@, e@, i as int));
                }
                return Err(e);
            },
        }
        i = i + 1;
    }
    proof {
        assert(are_nodes(text@, out@));
    }
    if !found {
        return Err(
            "MEX_SETTLEMENT_ACTIVE_NODES is set but does not contain this node's own MEX_SETTLEMENT_NODE_PUBKEY -- this node would never be assigned any settlement submissions".to_owned(),
        );
    }
    Ok(out)
}

/// The region that a setting names, the first where nothing is set.
pub fn parse_region(s: Option<&str>) -> (r: Result<Region, String>)
    ensures
        match s {
            None => r == Result::<Region, String>::Ok(Region::UsEast1),
            Some(t) => match r {
                Ok(region) => t@ == region_name(region),
                Err(e) => (forall|region: Region| t@ != #[trigger] region_name(region)) && e@
                    == "MEX_MESH_REGION must be one of us-east-1/eu-west-1/ap-southeast-1, got "@
                    + t@,
            },
        },
{
    let t: String = match s {
        Some(t) => t.to_owned(),
        None => {
            return Ok(Region::UsEast1);
        },
    };
    if t == "eu-west-1".to_owned() {
        return Ok(Region::EuWest1);
    }
    if t == "ap-southeast-1".to_owned() {
        return Ok(Region::ApSoutheast1);
    }
    if t == "us-east-1".to_owned() {
        return Ok(Region::UsEast1);
    }
    proof {
        assert forall|region: Region| t@ != #[trigger] region_name(region) by {
            match region {
                Region::UsEast1 => {},
                Region::EuWest1 => {},
                Region::ApSoutheast1 => {},
            }
        }
    }
    Err(
        joined(
            "MEX_MESH_REGION must be one of us-east-1/eu-west-1/ap-southeast-1, got ",
            t.as_str(),
        ),
    )
}

/// Texts without the empty ones.
pub open spec fn nonempty(s: Seq<Seq<char>>, n: nat) -> Seq<Seq<char>>
    decreases n,
{
    if n == 0 {
        Seq::empty()
    } else if s[n - 1].len() == 0 {
        nonempty(s, (n - 1) as nat)
    } else {
        nonempty(s, (n - 1) as nat).push(s[n - 1])
    }
}

/// The entries of the list of peers.
pub fn peer_entries(list: &str) -> (r: Vec<&str>)
    ensures
        texts_view(r@) == nonempty(
            pieces(list@, ',', usize::MAX as nat),
            pieces(list@, ',', usize::MAX as nat).len(),
        ),
{
    let all: Vec<&str> = split_max(list, ',', usize::MAX);
    let ghost av = texts_view(all@);
    let mut out: Vec<&str> = Vec::new();
    let mut i: usize = 0;
    proof {
        assert(texts_view(out@) =~= Seq::empty());
    }
    while i < all.len()
        invariant
            i <= all@.len(),
            av == texts_view(all@),
            texts_view(out@) == nonempty(av, i as nat),
        decreases all@.len() - i,
    {
        let ghost before = texts_view(out@);
        let entry: &str = all[i];
        proof {
            assert(av[i as int] == entry@);
        }
        if !entry.is_empty() {
            out.push(entry);
            assert(texts_view(out@) =~= before.push(entry@));
        }
        i = i + 1;
    }
    out
}

/// A peer as an entry gives it: its number, its address in text, and its key in text if any.
#[derive(Clone, Debug)]
pub struct PeerEntry {
    pub id: u32,
    pub address: String,
    pub pubkey: Option<String>,
}

/// The beginning of what is said of an entry.
pub open spec fn peer_name(entry: Seq<char>) -> Seq<char> {
    "MEX_MESH_PEERS entry '"@ + entry + "'"@
}

/// The parts of an entry.
pub open spec fn peer_parts(entry: Seq<char>) -> Seq<Seq<char>> {
    pieces(entry, '@', 3)
}

/// Reads an entry of the list of peers: a number, an address, and perhaps a key, with an `@`
/// between them.
pub fn parse_peer(entry: &str) -> (r: Result<PeerEntry, String>)
    ensures
        ({
            let parts = peer_parts(entry@);
            if parts.len() < 2 || parts[0].len() == 0 {
                r matches Err(e) && e@ == peer_name(entry@)
                    + " must be of the form id@host:port[@pubkeyhex]"@
            } else {
                match number_of(parts[0], u32::MAX as nat) {
                    Err(f) => r matches Err(e) && e@ == peer_name(entry@) + " has an invalid id: "@
                        + number_fault_text(f),
                    Ok(id) => r matches Ok(p) && p.id == id && p.address@ == parts[1] && (
                    if parts.len() == 3 {
                        p.pubkey matches Some(k) && k@ == parts[2]
                    } else {
                        p.pubkey is None
                    }),
                }
            }
        }),
{
    let parts: Vec<&str> = split_max(entry, '@', 3);
    let ghost pv = peer_parts(entry@);
    proof {
        lemma_pieces_len(entry@, '@', 3);
        assert(texts_view(parts@) == pv);
        assert(parts@.len() == pv.len());
        assert forall|i: int| 0 <= i < pv.len() implies parts@[i]@ == #[trigger] pv[i] by {}
    }
    let mut name: String = joined("MEX_MESH_PEERS entry '", entry);
    name.append("'");
    proof {
        assert(pv[0] == parts@[0]@);
    }
    if parts.len() < 2 || parts[0].is_empty() {
        return Err(joined(name.as_str(), " must be of the form id@host:port[@pubkeyhex]"));
    }
    let id: u32 = match parse_number(parts[0], u32::MAX as u128) {
        Ok(v) => {
            proof {
                lemma_number_bound(parts@[0]@, u32::MAX as nat);
            }
            v as u32
        },
        Err(f) => {
            name.append(" has an invalid id: ");
            name.append(f.message().as_str());
            return Err(name);
        },
    };
    proof {
        assert(pv[1] == parts@[1]@);
    }
    let pubkey: Option<String> = if parts.len() == 3 {
        proof {
            assert(pv[2] == parts@[2]@);
        }
        Some(parts[2].to_owned())
    } else {
        None
    };
    Ok(PeerEntry { id, address: parts[1].to_owned(), pubkey })
}

/// The key of a peer, zeros where its entry gives none.
pub fn parse_peer_key(entry: &str, key: Option<&str>) -> (r: Result<Id32, String>)
    ensures
        match key {
            None => r == Result::<Id32, String>::Ok(crate::book::no_node()),
            Some(k) => match r {
                Ok(id) => is_key(k@, id),
                Err(e) => !is_some_key(k@) && key_fault(
                    k@,
                    peer_name(entry@) + " has invalid pubkey hex: "@,
                    peer_name(entry@) + " pubkey must be exactly 32 bytes, got "@,
                    e@,
                ),
            },
        },
{
    match key {
        None => Ok([0u8; 32]),
        Some(k) => {
            let mut name: String = joined("MEX_MESH_PEERS entry '", entry);
            name.append("'");
            let not_hex: String = joined(name.as_str(), " has invalid pubkey hex: ");
            let not_long: String = joined(
                name.as_str(),
                " pubkey must be exactly 32 bytes, got ",
            );
            read_key(k, not_hex.as_str(), not_long.as_str())
        },
    }
}

/// Keys that are not zeros.
pub open spec fn real_keys(s: Seq<Id32>, n: nat) -> Seq<Id32>
    decreases n,
{
    if n == 0 {
        Seq::empty()
    } else if s[n - 1] == crate::book::no_node() {
        real_keys(s, (n - 1) as nat)
    } else {
        real_keys(s, (n - 1) as nat).push(s[n - 1])
    }
}

/// The peers that can be looked up on the chain: those with a key.
pub fn chain_peers(keys: &Vec<Id32>) -> (r: Vec<Id32>)
    ensures
        r@ == real_keys(keys@, keys@.len()),
{
    let none: Id32 = [0u8; 32];
    let mut out: Vec<Id32> = Vec::new();
    let mut i: usize = 0;
    while i < keys.len()
        invariant
            i <= keys@.len(),
            none == crate::book::no_node(),
            out@ == real_keys(keys@, i as nat),
        decreases keys@.len() - i,
    {
        if !same_id(&keys[i], &none) {
            out.push(keys[i]);
        }
        i = i + 1;
    }
    out
}

/// A switch is on: `1`, or `true` in letters of either case.
pub open spec fn switched_on(s: Seq<char>) -> bool {
    ||| s == "1"@
    ||| s.len() == 4 && (s[0] == 't' || s[0] == 'T') && (s[1] == 'r' || s[1] == 'R') && (s[2] == 'u'
        || s[2] == 'U') && (s[3] == 'e' || s[3] == 'E')
}

/// Whether a switch is on; it is not where it is not set.
pub fn parse_switch(s: Option<&str>) -> (r: bool)
    ensures
        r == (match s {
            Some(t) => switched_on(t@),
            None => false,
        }),
{
    match s {
        None => false,
        Some(t) => {
            let n: usize = t.unicode_len();
            proof {
                reveal_strlit("1");
                if t@.len() == 1 && t@[0] == '1' {
                    assert(t@ =~= "1"@);
                }
            }
            if n == 1 {
                return t.get_char(0) == '1';
            }
            if n != 4 {
                return false;
            }
            let a: char = t.get_char(0);
            let b: char = t.get_char(1);
            let c: char = t.get_char(2);
            let d: char = t.get_char(3);
            (a == 't' || a == 'T') && (b == 'r' || b == 'R') && (c == 'u' || c == 'U') && (d == 'e'
                || d == 'E')
        },
    }
}

/// The key that requests have to show. Without one a development build falls back to a default,
/// and a release build does not start.
pub fn choose_api_key(key: Option<String>, development: bool) -> (r: Result<String, String>)
    ensures
        match key {
            Some(k) => if k@.len() > 0 {
                r matches Ok(v) && v@ == k@
            } else {
                no_api_key(development, r)
            },
            None => no_api_key(development, r),
        },
{
    match key {
        Some(k) => {
            if !k.as_str().is_empty() {
                return Ok(k);
            }
        },
        None => {},
    }
    if development {
        Ok("dev-default-key".to_owned())
    } else {
        Err("MEX_API_KEY must be set in a release build".to_owned())
    }
}

/// What happens without a key.
pub open spec fn no_api_key(development: bool, r: Result<String, String>) -> bool {
    if development {
        r matches Ok(v) && v@ == "dev-default-key"@
    } else {
        r matches Err(e) && e@ == "MEX_API_KEY must be set in a release build"@
    }
}

/// Sequencing needs a mesh: without one there is nothing to tell the order of orders by.
pub fn check_sequencing(sequencing: bool, mesh: bool) -> (r: Result<(), String>)
    ensures
        match r {
            Ok(_) => !sequencing || mesh,
            Err(e) => sequencing && !mesh && e@
                == "MEX_ORDER_SEQUENCING_WINDOW_MS is set but no mesh is configured (MEX_MESH_NODE_ID unset) -- order-sequencing needs real network-time evidence, which requires a mesh. Set MEX_MESH_NODE_ID or unset MEX_ORDER_SEQUENCING_WINDOW_MS."@,
        },
{
    if sequencing && !mesh {
        Err(
            "MEX_ORDER_SEQUENCING_WINDOW_MS is set but no mesh is configured (MEX_MESH_NODE_ID unset) -- order-sequencing needs real network-time evidence, which requires a mesh. Set MEX_MESH_NODE_ID or unset MEX_ORDER_SEQUENCING_WINDOW_MS.".to_owned(),
        )
    } else {
        Ok(())
    }
}

/// How a simulation reaches its chain.
#[derive(Clone, Debug)]
pub struct OnChainConfig {
    pub rpc_url: String,
    pub deployer_private_key: String,
    pub factory_address: String,
    pub registry_address: String,
}

/// The words for a variable that is not set.
pub open spec fn unset_text(name: Seq<char>) -> Seq<char> {
    "required environment variable "@ + name + " not set"@
}

fn require(value: Option<String>, name: &str) -> (r: Result<String, String>)
    ensures
        match (value, r) {
            (Some(v), Ok(w)) => v@ == w@,
            (None, Err(e)) => e@ == unset_text(name@),
            _ => false,
        },
{
    match value {
        Some(v) => Ok(v),
        None => {
            let mut e: String = joined("required environment variable ", name);
            e.append(" not set");
            Err(e)
        },
    }
}

impl OnChainConfig {
    /// The configuration that variables give, or which of them is the first that is not set.
    pub fn from_values(
        rpc_url: Option<String>,
        deployer_private_key: Option<String>,
        factory_address: Option<String>,
        registry_address: Option<String>,
    ) -> (r: Result<Self, String>)
        ensures
            match r {
                Ok(c) => {
                    &&& rpc_url matches Some(v) && c.rpc_url@ == v@
                    &&& deployer_private_key matches Some(v) && c.deployer_private_key@ == v@
                    &&& factory_address matches Some(v) && c.factory_address@ == v@
                    &&& registry_address matches Some(v) && c.registry_address@ == v@
                },
                Err(e) => if rpc_url is None {
                    e@ == unset_text("AGENT_SIM_RPC_URL"@)
                } else if deployer_private_key is None {
                    e@ == unset_text("AGENT_SIM_DEPLOYER_KEY"@)
                } else if factory_address is None {
                    e@ == unset_text("AGENT_SIM_FACTORY_ADDRESS"@)
                } else {
                    registry_address is None && e@ == unset_text("AGENT_SIM_REGISTRY_ADDRESS"@)
                },
            },
    {
        let rpc_url: String = match require(rpc_url, "AGENT_SIM_RPC_URL") {
            Ok(v) => v,
            Err(e) => {
                return Err(e);
            },
        };
        let deployer_private_key: String = match require(
            deployer_private_key,
            "AGENT_SIM_DEPLOYER_KEY",
        ) {
            Ok(v) => v,
            Err(e) => {
                return Err(e);
            },
        };
        let factory_address: String = match require(factory_address, "AGENT_SIM_FACTORY_ADDRESS") {
            Ok(v) => v,
            Err(e) => {
                return Err(e);
            },
        };
        let registry_address: String = match require(
            registry_address,
            "AGENT_SIM_REGISTRY_ADDRESS",
        ) {
            Ok(v) => v,
            Err(e) => {
                return Err(e);
            },
        };
        Ok(OnChainConfig { rpc_url, deployer_private_key, factory_address, registry_address })
    }
}

/// The smallest units in one ether.
pub const WEI_PER_ETH: u128 = 1_000_000_000_000_000_000;

/// A whole number of ether in its smallest units.
pub fn parse_eth(amount: &str) -> (r: u128)
    requires
        number_of(amount@, u128::MAX as nat) matches Ok(v) && v * WEI_PER_ETH <= u128::MAX,
    ensures
        r == number_of(amount@, u128::MAX as nat)->Ok_0 * WEI_PER_ETH,
{
    match parse_number(amount, u128::MAX) {
        Ok(v) => v * WEI_PER_ETH,
        Err(_) => 0,
    }
}

/// A stake of a whole number of ether, as far as a node's stake can be.
pub fn stake_of(amount: &str) -> (r: Result<u64, String>)
    requires
        number_of(amount@, u128::MAX as nat) matches Ok(v) && v * WEI_PER_ETH <= u128::MAX,
    ensures
        ({
            let wei = number_of(amount@, u128::MAX as nat)->Ok_0 * WEI_PER_ETH;
            match r {
                Ok(v) => v == wei,
                Err(e) => wei > u64::MAX && e@ == "NODE_STAKE_ETH exceeds u64 range"@,
            }
        }),
{
    let wei: u128 = parse_eth(amount);
    if wei > u64::MAX as u128 {
        Err("NODE_STAKE_ETH exceeds u64 range".to_owned())
    } else {
        Ok(wei as u64)
    }
}

/// The key of the one node that a simulation settles through.
pub fn simulation_node_key() -> (r: Id32)
    ensures
        r@ == seq![83u8, 73u8, 77u8] + crate::bytes::zeros(29),
{
    let mut b: Id32 = [0u8; 32];
    b[0] = 83;
    b[1] = 73;
    b[2] = 77;
    assert(b@ =~= seq![83u8, 73u8, 77u8] + crate::bytes::zeros(29));
    b
}

/// A key that is written in hexadecimal reads as that key, with a prefix or without.
pub proof fn law_keys_read_back(key: Id32, other: Id32)
    ensures
        is_key(hex_text(key@), key),
        is_key(seq!['0', 'x'] + hex_text(key@), key),
        is_key(hex_text(key@), other) ==> other == key,
{
    let t = hex_text(key@);
    crate::hexes::law_hex_round_trip(key@);
    crate::hexes::lemma_hex_text_chars(key@);
    let first = key@[0];
    assert(t[1] == crate::hexes::hex_char(first as nat % 16));
    crate::hexes::lemma_hex_char(first as nat % 16);
    assert(t[1] != 'x');
    crate::text::law_prefixes_come_off(t, '0', 'x');
    assert(hex_bytes(encode_utf8(t)).len() == 32);
    if is_key(t, other) {
        assert(other =~= key);
    }
}

/// A setting counts where it is a number in range, and only where it is none does the default.
pub proof fn law_settings_win_over_defaults(n: nat, t: &str, max: u64, default: u64)
    requires
        n <= max,
        t@ == decimal_text(n),
    ensures
        number_or_default(Some(t), max, default) == n,
        number_or_default(None, max, default) == default,
{
    crate::text::law_numbers_read_back(n, max as nat);
}

/// Of the listed texts all that are not empty are kept, in their order, and of the keys all that are not
/// zeros.
pub proof fn law_given_entries_are_kept(s: Seq<Seq<char>>, keys: Seq<Id32>, n: nat)
    ensures
        n <= s.len() ==> nonempty(s, n) == s.take(n as int).filter(|t: Seq<char>| t.len() > 0),
        n <= keys.len() ==> real_keys(keys, n) == keys.take(n as int).filter(
            |k: Id32| exists|i: int| 0 <= i < 32 && #[trigger] k@[i] != 0,
        ),
    decreases n,
{
    let full = |t: Seq<char>| t.len() > 0;
    let given = |k: Id32| exists|i: int| 0 <= i < 32 && #[trigger] k@[i] != 0;
    reveal(Seq::filter);
    if n > 0 {
        law_given_entries_are_kept(s, keys, (n - 1) as nat);
        if n <= s.len() {
            assert(s.take(n as int).drop_last() =~= s.take(n - 1));
        }
        if n <= keys.len() {
            let k = keys[n - 1];
            assert(keys.take(n as int).drop_last() =~= keys.take(n - 1));
            if !given(k) {
                assert forall|i: int| 0 <= i < 32 implies #[trigger] k@[i] == 0 by {}
                assert(k@ =~= crate::book::no_node()@);
                assert(k =~= crate::book::no_node());
            }
        }
    } else {
        assert(s.take(0) =~= Seq::empty());
        assert(keys.take(0) =~= Seq::empty());
    }
}

} // verus!
