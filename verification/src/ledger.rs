//! Balances per trader and symbol.

use crate::assoc::AssocMap;
use crate::bytes::Id32;
use crate::text::{decimal_text, push_decimal};
use vstd::prelude::*;

verus! {

/// Balances by trader and symbol.
pub type Balances = Map<(Id32, Seq<char>), u64>;

/// The balance under a key, zero where there is none.
pub open spec fn balance(b: Balances, k: (Id32, Seq<char>)) -> u64 {
    if b.contains_key(k) {
        b[k]
    } else {
        0
    }
}

/// The balances with that under `k` set to `v`. A balance of zero is the same as none.
pub open spec fn put(b: Balances, k: (Id32, Seq<char>), v: u64) -> Balances {
    if v == 0 {
        b.remove(k)
    } else {
        b.insert(k, v)
    }
}

/// A balance has been raised by `amount`.
pub open spec fn credited(b: Balances, k: (Id32, Seq<char>), amount: u64) -> Balances {
    put(b, k, (balance(b, k) + amount) as u64)
}

/// A balance has been lowered by `amount`.
pub open spec fn debited(b: Balances, k: (Id32, Seq<char>), amount: u64) -> Balances {
    put(b, k, (balance(b, k) - amount) as u64)
}

/// The reason for a refused debit.
pub open spec fn insufficient_text(have: u64, need: u64) -> Seq<char> {
    "insufficient balance: have "@ + decimal_text(have as nat) + ", need "@ + decimal_text(
        need as nat,
    )
}

fn insufficient_balance(have: u64, need: u64) -> (r: String)
    ensures
        r@ == insufficient_text(have, need),
{
    let mut out: String = "insufficient balance: have ".to_owned();
    push_decimal(&mut out, have);
    out.append(", need ");
    push_decimal(&mut out, need);
    out
}

/// The entries that are not zero.
spec fn nonzero(m: Balances) -> Balances {
    Map::new(|k: (Id32, Seq<char>)| m.contains_key(k) && m[k] != 0, |k: (Id32, Seq<char>)| m[k])
}

/// An in-memory balance ledger. It is not tied to what is on any chain: it reflects what was
/// deposited into it and the trades that were settled through it.
#[derive(Debug)]
pub struct BalanceLedger {
    balances: AssocMap<(Id32, String), u64>,
}

impl View for BalanceLedger {
    type V = Balances;

    closed spec fn view(&self) -> Balances {
        nonzero(self.balances@)
    }
}

impl Default for BalanceLedger {
    fn default() -> (r: Self)
        ensures
            r@ == Balances::empty(),
    {
        BalanceLedger::new()
    }
}

impl BalanceLedger {
    pub fn new() -> (r: Self)
        ensures
            r@ == Balances::empty(),
    {
        let r = BalanceLedger { balances: AssocMap::new() };
        assert(r@ =~= Balances::empty());
        r
    }

    pub fn balance_of(&self, trader: Id32, symbol: &str) -> (r: u64)
        ensures
            r == balance(self@, (trader, symbol@)),
            no_zero(self@),
    {
        let key: (Id32, String) = (trader, symbol.to_owned());
        match self.balances.get(&key) {
            Some(v) => *v,
            None => 0,
        }
    }

    pub fn deposit(&mut self, trader: Id32, symbol: &str, amount: u64)
        requires
            balance(old(self)@, (trader, symbol@)) + amount <= u64::MAX,
        ensures
            final(self)@ == credited(old(self)@, (trader, symbol@), amount),
    {
        let have: u64 = self.balance_of(trader, symbol);
        self.balances.insert((trader, symbol.to_owned()), have + amount);
        assert(self@ =~= credited(old(self)@, (trader, symbol@), amount));
    }

    pub fn credit(&mut self, trader: Id32, symbol: &str, amount: u64)
        requires
            balance(old(self)@, (trader, symbol@)) + amount <= u64::MAX,
        ensures
            final(self)@ == credited(old(self)@, (trader, symbol@), amount),
    {
        self.deposit(trader, symbol, amount);
    }

    /// Lowers a balance, unless it is too small: then nothing changes.
    pub fn debit(&mut self, trader: Id32, symbol: &str, amount: u64) -> (r: Result<(), String>)
        ensures
            r is Ok <==> balance(old(self)@, (trader, symbol@)) >= amount,
            r is Ok ==> final(self)@ == debited(old(self)@, (trader, symbol@), amount),
            r is Err ==> final(self)@ == old(self)@,
            no_zero(old(self)@),
            r matches Err(e) ==> e@ == insufficient_text(
                balance(old(self)@, (trader, symbol@)),
                amount,
            ),
    {
        let have: u64 = self.balance_of(trader, symbol);
        if have < amount {
            return Err(insufficient_balance(have, amount));
        }
        self.balances.insert((trader, symbol.to_owned()), have - amount);
        assert(self@ =~= debited(old(self)@, (trader, symbol@), amount));
        Ok(())
    }
}

/// Every balance that is there is not zero.
pub open spec fn no_zero(b: Balances) -> bool {
    forall|k: (Id32, Seq<char>)| #[trigger] b.contains_key(k) ==> b[k] != 0
}

/// What is debited and credited again under one key is back as it was.
pub proof fn law_credit_undoes_debit(b: Balances, k: (Id32, Seq<char>), amount: u64)
    requires
        no_zero(b),
        balance(b, k) >= amount,
    ensures
        credited(debited(b, k, amount), k, amount) == b,
{
    assert(credited(debited(b, k, amount), k, amount) =~= b);
}

/// A movement under one trader and symbol leaves every other trader's and every other symbol's
/// balance alone.
pub proof fn law_balances_are_separate(
    b: Balances,
    k: (Id32, Seq<char>),
    amount: u64,
    q: (Id32, Seq<char>),
)
    requires
        q != k,
    ensures
        balance(credited(b, k, amount), q) == balance(b, q),
        balance(debited(b, k, amount), q) == balance(b, q),
{
}

/// A credit raises a balance by its amount and a debit lowers it by its amount, as far as they can be
/// held. A balance is what was put under its key, and zero where nothing was.
pub proof fn law_balances_move_by_the_amount(b: Balances, k: (Id32, Seq<char>), amount: u64)
    ensures
        b.contains_key(k) ==> balance(b, k) == b[k],
        !b.contains_key(k) ==> balance(b, k) == 0,
        balance(b, k) + amount <= u64::MAX ==> balance(credited(b, k, amount), k) == balance(b, k)
            + amount,
        amount <= balance(b, k) ==> balance(debited(b, k, amount), k) == balance(b, k) - amount,
{
}

} // verus!
