//! Which token goes by which symbol, and which escrow belongs to whom.

use crate::accounts::EthAddress;
use crate::assoc::{entry_keys, AssocMap};
use crate::bytes::{same_id, Id32};
use vstd::prelude::*;

verus! {

/// The symbol of each token contract, as the ledger and the matching engine call it.
#[derive(Debug)]
pub struct TokenRegistry {
    by_address: AssocMap<EthAddress, String>,
}

impl View for TokenRegistry {
    type V = Map<EthAddress, Seq<char>>;

    closed spec fn view(&self) -> Map<EthAddress, Seq<char>> {
        self.by_address@.map_values(|s: String| s@)
    }
}

impl Default for TokenRegistry {
    fn default() -> (r: Self)
        ensures
            r@ == Map::<EthAddress, Seq<char>>::empty(),
    {
        TokenRegistry::new()
    }
}

impl TokenRegistry {
    pub fn new() -> (r: Self)
        ensures
            r@ == Map::<EthAddress, Seq<char>>::empty(),
    {
        let r = TokenRegistry { by_address: AssocMap::new() };
        assert(r@ =~= Map::empty());
        r
    }

    pub fn register(&mut self, token: EthAddress, symbol: &str)
        ensures
            final(self)@ == old(self)@.insert(token, symbol@),
    {
        self.by_address.insert(token, symbol.to_owned());
        assert(self@ =~= old(self)@.insert(token, symbol@));
    }

    pub fn symbol_of(&self, token: EthAddress) -> (r: Option<&str>)
        ensures
            match r {
                Some(s) => self@.contains_key(token) && s@ == self@[token],
                None => !self@.contains_key(token),
            },
    {
        match self.by_address.get(&token) {
            Some(s) => Some(s.as_str()),
            None => None,
        }
    }
}

/// Who an escrow belongs to: an Ethereum account, and the key that it was bound to when the escrow
/// was made.
#[derive(Clone, Copy, Debug, PartialEq, Eq)]
pub struct EscrowOwner {
    pub trader: EthAddress,
    pub offchain_pubkey: Id32,
}

/// The owner of each escrow.
#[derive(Debug)]
pub struct EscrowRegistry {
    owner_of_escrow: AssocMap<EthAddress, EscrowOwner>,
}

impl View for EscrowRegistry {
    type V = Map<EthAddress, EscrowOwner>;

    closed spec fn view(&self) -> Map<EthAddress, EscrowOwner> {
        self.owner_of_escrow@
    }
}

/// The list holds each escrow of the map, and each once.
pub open spec fn lists_escrows(s: Seq<EthAddress>, m: Map<EthAddress, EscrowOwner>) -> bool {
    &&& s.no_duplicates()
    &&& forall|e: EthAddress| #[trigger] s.contains(e) <==> m.contains_key(e)
}

impl Default for EscrowRegistry {
    fn default() -> (r: Self)
        ensures
            r@ == Map::<EthAddress, EscrowOwner>::empty(),
            r.order() == Seq::<EthAddress>::empty(),
    {
        EscrowRegistry::new()
    }
}

impl EscrowRegistry {
    /// The escrows in the order in which they were first recorded.
    pub closed spec fn order(&self) -> Seq<EthAddress> {
        entry_keys(self.owner_of_escrow.list())
    }

    pub fn new() -> (r: Self)
        ensures
            r@ == Map::<EthAddress, EscrowOwner>::empty(),
            r.order() == Seq::<EthAddress>::empty(),
    {
        let r = EscrowRegistry { owner_of_escrow: AssocMap::new() };
        assert(r.order() =~= Seq::empty());
        r
    }

    pub fn record_escrow_created(
        &mut self,
        trader: EthAddress,
        escrow: EthAddress,
        offchain_pubkey: Id32,
    )
        ensures
            final(self)@ == old(self)@.insert(escrow, EscrowOwner { trader, offchain_pubkey }),
            final(self).order() == (if old(self)@.contains_key(escrow) {
                old(self).order()
            } else {
                old(self).order().push(escrow)
            }),
    {
        self.owner_of_escrow.insert(escrow, EscrowOwner { trader, offchain_pubkey });
        proof {
            if !old(self)@.contains_key(escrow) {
                assert(self.order() =~= old(self).order().push(escrow));
            }
        }
    }

    pub fn owner_of(&self, escrow: EthAddress) -> (r: Option<EscrowOwner>)
        ensures
            match r {
                Some(o) => self@.contains_key(escrow) && o == self@[escrow],
                None => !self@.contains_key(escrow),
            },
    {
        match self.owner_of_escrow.get(&escrow) {
            Some(o) => Some(*o),
            None => None,
        }
    }

    /// The escrows that are known, in the order in which they were first recorded.
    pub fn known_escrows(&self) -> (r: Vec<EthAddress>)
        ensures
            r@ == self.order(),
            lists_escrows(r@, self@),
    {
        let n: usize = self.owner_of_escrow.len();
        let ghost list = self.owner_of_escrow.list();
        let mut out: Vec<EthAddress> = Vec::new();
        let mut i: usize = 0;
        while i < n
            invariant
                i <= n,
                n == list.len(),
                list == self.owner_of_escrow.list(),
                out@ == entry_keys(list).take(i as int),
            decreases n - i,
        {
            let k: EthAddress = *self.owner_of_escrow.key_at(i);
            out.push(k);
            proof {
                assert(entry_keys(list).take(i + 1) =~= entry_keys(list).take(i as int).push(k));
            }
            i = i + 1;
        }
        proof {
            assert(entry_keys(list).take(n as int) =~= entry_keys(list));
            assert forall|a: int, b: int| 0 <= a < out@.len() && 0 <= b < out@.len() && a
                != b implies out@[a] != out@[b] by {
                if a < b {
                    assert(list[a].0 != list[b].0);
                } else {
                    assert(list[b].0 != list[a].0);
                }
            }
            assert forall|e: EthAddress| #[trigger] out@.contains(e) <==> self@.contains_key(e) by {
                if out@.contains(e) {
                    let k = choose|k: int| 0 <= k < out@.len() && out@[k] == e;
                    assert(crate::assoc::entry_is(list, e, k));
                }
                if self@.contains_key(e) {
                    let k = choose|k: int| #[trigger] crate::assoc::entry_is(list, e, k);
                    assert(out@[k] == e);
                }
            }
        }
        out
    }

    /// The account that is bound to a key: that of the first recorded escrow whose owner has it.
    pub fn resolve_address(&self, pubkey: Id32) -> (r: Option<EthAddress>)
        ensures
            r == resolved(self.order(), self@, pubkey),
    {
        let escrows: Vec<EthAddress> = self.known_escrows();
        let mut i: usize = 0;
        proof {
            assert(escrows@.skip(0) =~= escrows@);
        }
        while i < escrows.len()
            invariant
                i <= escrows@.len(),
                escrows@ == self.order(),
                lists_escrows(escrows@, self@),
                resolved(escrows@, self@, pubkey) == resolved(
                    escrows@.skip(i as int),
                    self@,
                    pubkey,
                ),
            decreases escrows@.len() - i,
        {
            proof {
                assert(escrows@.contains(escrows@[i as int]));
                assert(escrows@.skip(i as int)[0] == escrows@[i as int]);
                assert(escrows@.skip(i as int).drop_first() =~= escrows@.skip(i + 1));
            }
            match self.owner_of(escrows[i]) {
                Some(owner) => {
                    if same_id(&owner.offchain_pubkey, &pubkey) {
                        return Some(owner.trader);
                    }
                },
                None => {},
            }
            i = i + 1;
        }
        None
    }
}

/// The trader of the first listed escrow whose owner has this key.
pub open spec fn resolved(
    order: Seq<EthAddress>,
    owners: Map<EthAddress, EscrowOwner>,
    pubkey: Id32,
) -> Option<EthAddress>
    decreases order.len(),
{
    if order.len() == 0 {
        None
    } else if owners[order[0]].offchain_pubkey == pubkey {
        Some(owners[order[0]].trader)
    } else {
        resolved(order.drop_first(), owners, pubkey)
    }
}

/// A key resolves to an account that an escrow binds it to, and it resolves whenever one does.
pub proof fn law_resolved_is_bound(
    order: Seq<EthAddress>,
    owners: Map<EthAddress, EscrowOwner>,
    pubkey: Id32,
    e: EthAddress,
)
    ensures
        resolved(order, owners, pubkey) matches Some(a) ==> exists|i: int|
            0 <= i < order.len() && owners[#[trigger] order[i]] == (EscrowOwner {
                trader: a,
                offchain_pubkey: pubkey,
            }),
        order.contains(e) && owners[e].offchain_pubkey == pubkey ==> resolved(
            order,
            owners,
            pubkey,
        ) is Some,
    decreases order.len(),
{
    if order.len() > 0 {
        if owners[order[0]].offchain_pubkey == pubkey {
            assert(owners[order[0]] == EscrowOwner {
                trader: owners[order[0]].trader,
                offchain_pubkey: pubkey,
            });
        } else {
            let rest = order.drop_first();
            law_resolved_is_bound(rest, owners, pubkey, e);
            if let Some(a) = resolved(rest, owners, pubkey) {
                let i = choose|i: int|
                    0 <= i < rest.len() && owners[#[trigger] rest[i]] == (EscrowOwner {
                        trader: a,
                        offchain_pubkey: pubkey,
                    });
                assert(order[i + 1] == rest[i]);
            }
            if order.contains(e) && owners[e].offchain_pubkey == pubkey {
                let k = choose|k: int| 0 <= k < order.len() && order[k] == e;
                assert(rest[k - 1] == e);
            }
        }
    }
}

/// A key resolves to the account of the earliest escrow that is bound to it, whatever came later; a
/// key that no escrow is bound to does not resolve.
pub proof fn law_earliest_escrow_counts(
    order: Seq<EthAddress>,
    owners: Map<EthAddress, EscrowOwner>,
    pubkey: Id32,
    i: int,
)
    requires
        0 <= i <= order.len(),
        forall|j: int|
            0 <= j < i ==> (#[trigger] owners[order[j]]).offchain_pubkey != pubkey,
    ensures
        i < order.len() && owners[order[i]].offchain_pubkey == pubkey ==> resolved(
            order,
            owners,
            pubkey,
        ) == Some(owners[order[i]].trader),
        i == order.len() ==> resolved(order, owners, pubkey) is None,
    decreases i,
{
    if i > 0 {
        let rest = order.drop_first();
        assert forall|j: int| 0 <= j < i - 1 implies (
        #[trigger] owners[rest[j]]).offchain_pubkey != pubkey by {
            assert(owners[order[j + 1]].offchain_pubkey != pubkey);
        }
        assert(owners[order[0]].offchain_pubkey != pubkey);
        law_earliest_escrow_counts(rest, owners, pubkey, i - 1);
        if i < order.len() {
            assert(rest[i - 1] == order[i]);
        }
    }
}

} // verus!
