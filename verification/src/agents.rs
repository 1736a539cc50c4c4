//! What simulated agents own, owe and have on order.

use crate::assoc::{entry_is, entry_keys, AssocMap, Key};
use crate::bytes::{same_id, Id32};
use crate::hexes::hex_text;
use crate::sim_types::order_id_to_hex;
use crate::types::{orders_view, Order, OrderSide, OrderSpec};
use vstd::prelude::*;
use vstd::utf8::encode_utf8;

verus! {

/// An agent as it is set up.
#[derive(Clone, Debug)]
pub struct AgentConfig {
    pub id: String,
    pub name: String,
    pub persona: String,
    pub initial_capital: u64,
}

/// An open order as it is reported.
#[derive(Clone, Debug)]
pub struct OrderSnapshot {
    pub order_id: String,
    pub symbol: String,
    pub side: String,
    pub price: u64,
    pub amount: u64,
    pub status: String,
}

/// An agent as it is reported.
#[derive(Clone, Debug)]
pub struct AgentStateSnapshot {
    pub id: String,
    pub balance: u64,
    pub position: u64,
    pub open_orders: Vec<OrderSnapshot>,
    pub pnl: i64,
    pub trade_count: u64,
    pub last_action: String,
}

/// What an [`OrderSnapshot`] stands for.
#[verifier::ext_equal]
pub struct OpenOrderSpec {
    pub order_id: Seq<char>,
    pub symbol: Seq<char>,
    pub side: Seq<char>,
    pub price: u64,
    pub amount: u64,
    pub status: Seq<char>,
}

impl View for OrderSnapshot {
    type V = OpenOrderSpec;

    open spec fn view(&self) -> OpenOrderSpec {
        OpenOrderSpec {
            order_id: self.order_id@,
            symbol: self.symbol@,
            side: self.side@,
            price: self.price,
            amount: self.amount,
            status: self.status@,
        }
    }
}

/// What an [`AgentStateSnapshot`] stands for.
#[verifier::ext_equal]
pub struct AgentReportSpec {
    pub id: Seq<char>,
    pub balance: u64,
    pub position: u64,
    pub open_orders: Seq<OpenOrderSpec>,
    pub pnl: i64,
    pub trade_count: u64,
    pub last_action: Seq<char>,
}

impl View for AgentStateSnapshot {
    type V = AgentReportSpec;

    open spec fn view(&self) -> AgentReportSpec {
        AgentReportSpec {
            id: self.id@,
            balance: self.balance,
            position: self.position,
            open_orders: Seq::new(self.open_orders@.len(), |i: int| self.open_orders@[i]@),
            pnl: self.pnl,
            trade_count: self.trade_count,
            last_action: self.last_action@,
        }
    }
}

struct AgentRecord {
    config: AgentConfig,
    balance: u64,
    position: u64,
    position_avg_price: u64,
    open_orders: Vec<Order>,
    realized_pnl: i64,
    trade_count: u64,
    last_action: String,
}

/// What is kept of an agent.
#[verifier::ext_equal]
pub struct AgentSpec {
    pub id: Seq<char>,
    pub balance: u64,
    pub position: u64,
    pub position_avg_price: u64,
    pub open_orders: Seq<OrderSpec>,
    pub realized_pnl: i64,
    pub trade_count: u64,
    pub last_action: Seq<char>,
}

impl View for AgentRecord {
    type V = AgentSpec;

    closed spec fn view(&self) -> AgentSpec {
        AgentSpec {
            id: self.config.id@,
            balance: self.balance,
            position: self.position,
            position_avg_price: self.position_avg_price,
            open_orders: orders_view(self.open_orders@),
            realized_pnl: self.realized_pnl,
            trade_count: self.trade_count,
            last_action: self.last_action@,
        }
    }
}

/// Agents by their ids.
pub struct AgentTracker {
    agents: AssocMap<String, AgentRecord>,
}

impl View for AgentTracker {
    type V = Map<Seq<char>, AgentSpec>;

    closed spec fn view(&self) -> Map<Seq<char>, AgentSpec> {
        self.agents@.map_values(|a: AgentRecord| a@)
    }
}

/// An agent that has just been set up.
pub open spec fn new_agent(id: Seq<char>, initial_capital: u64) -> AgentSpec {
    AgentSpec {
        id,
        balance: initial_capital,
        position: 0,
        position_avg_price: 0,
        open_orders: Seq::empty(),
        realized_pnl: 0,
        trade_count: 0,
        last_action: "none"@,
    }
}

/// The key by which an agent trades: the first bytes of its id, then zeros.
pub open spec fn trader_key(id: Seq<char>) -> Seq<u8> {
    let b = encode_utf8(id);
    Seq::new(
        32,
        |i: int|
            if i < b.len() {
                b[i]
            } else {
                0
            },
    )
}

/// Orders without those that have an id.
pub open spec fn without_id(s: Seq<OrderSpec>, id: Id32) -> Seq<OrderSpec>
    decreases s.len(),
{
    if s.len() == 0 {
        Seq::empty()
    } else if s.last().id == id {
        without_id(s.drop_last(), id)
    } else {
        without_id(s.drop_last(), id).push(s.last())
    }
}

/// Order `i` is the first with an id.
pub open spec fn first_with_id(s: Seq<OrderSpec>, id: Id32, i: int) -> bool {
    &&& 0 <= i < s.len()
    &&& s[i].id == id
    &&& forall|j: int| 0 <= j < i ==> (#[trigger] s[j]).id != id
}

/// Some order has an id.
pub open spec fn has_order(s: Seq<OrderSpec>, id: Id32) -> bool {
    exists|i: int| #[trigger] first_with_id(s, id, i)
}

/// An agent that has placed an order.
pub open spec fn ordered(a: AgentSpec, o: OrderSpec) -> AgentSpec {
    AgentSpec { open_orders: a.open_orders.push(o), last_action: "place_order"@, ..a }
}

/// An agent that has cancelled an order.
pub open spec fn cancelled(a: AgentSpec, id: Id32) -> AgentSpec {
    let i = choose|i: int| #[trigger] first_with_id(a.open_orders, id, i);
    AgentSpec { open_orders: a.open_orders.remove(i), last_action: "cancel_order"@, ..a }
}

/// The lowest 64 bits of a number.
pub open spec fn low64(x: nat) -> u64 {
    (x % 0x1_0000_0000_0000_0000) as u64
}

/// The lowest 64 bits of a number, the highest of them counting as the sign.
pub open spec fn signed64(x: nat) -> int {
    if low64(x) < 0x8000_0000_0000_0000u64 {
        low64(x) as int
    } else {
        low64(x) - 0x1_0000_0000_0000_0000
    }
}

/// A number lowered by another, and zero where that is more.
pub open spec fn less_or_zero(a: u64, b: u64) -> u64 {
    if a >= b {
        (a - b) as u64
    } else {
        0
    }
}

/// A number raised by another, and the greatest number where that is too much.
pub open spec fn more_or_max(a: u64, b: u64) -> u64 {
    if a + b <= u64::MAX {
        (a + b) as u64
    } else {
        u64::MAX
    }
}

/// What was paid on average once more has been bought.
pub open spec fn average(position: u64, avg: u64, amount: u64, price: u64) -> u64 {
    if position + amount > 0 {
        ((position * avg + amount * price) / (position + amount)) as u64
    } else {
        0
    }
}

/// An agent that has bought.
pub open spec fn bought(a: AgentSpec, amount: u64, price: u64, order_id: Id32) -> AgentSpec {
    AgentSpec {
        balance: less_or_zero(a.balance, low64((amount * price) as nat)),
        position: (a.position + amount) as u64,
        position_avg_price: average(a.position, a.position_avg_price, amount, price),
        trade_count: (a.trade_count + 1) as u64,
        open_orders: without_id(a.open_orders, order_id),
        last_action: "trade_executed"@,
        ..a
    }
}

/// Another purchase can be counted.
pub open spec fn can_buy(a: AgentSpec, amount: u64) -> bool {
    a.position + amount <= u64::MAX && a.trade_count < u64::MAX
}

/// What was paid for what is sold.
pub open spec fn cost_basis(a: AgentSpec, amount: u64) -> nat {
    if a.position > 0 {
        (amount * a.position_avg_price) as nat
    } else {
        0
    }
}

/// What a sale earns or loses.
pub open spec fn gain(a: AgentSpec, amount: u64, price: u64) -> int {
    signed64((amount * price) as nat) - signed64(cost_basis(a, amount))
}

/// An agent that has sold.
pub open spec fn sold(a: AgentSpec, amount: u64, price: u64, order_id: Id32) -> AgentSpec {
    AgentSpec {
        balance: more_or_max(a.balance, low64((amount * price) as nat)),
        position: less_or_zero(a.position, amount),
        realized_pnl: (a.realized_pnl + gain(a, amount, price)) as i64,
        trade_count: (a.trade_count + 1) as u64,
        open_orders: without_id(a.open_orders, order_id),
        last_action: "trade_executed"@,
        ..a
    }
}

/// Another sale can be counted.
pub open spec fn can_sell(a: AgentSpec, amount: u64, price: u64) -> bool {
    &&& a.trade_count < u64::MAX
    &&& i64::MIN <= gain(a, amount, price) <= i64::MAX
    &&& i64::MIN <= a.realized_pnl + gain(a, amount, price) <= i64::MAX
}

/// A trade can be counted.
pub open spec fn can_trade(a: AgentSpec, selling: bool, amount: u64, price: u64) -> bool {
    if selling {
        can_sell(a, amount, price)
    } else {
        can_buy(a, amount)
    }
}

/// An agent that has sold or bought.
pub open spec fn traded(
    a: AgentSpec,
    selling: bool,
    amount: u64,
    price: u64,
    order_id: Id32,
) -> AgentSpec {
    if selling {
        sold(a, amount, price, order_id)
    } else {
        bought(a, amount, price, order_id)
    }
}

/// What is reported of an open order.
pub open spec fn open_order_report(o: OrderSpec) -> OpenOrderSpec {
    OpenOrderSpec {
        order_id: hex_text(o.id@),
        symbol: o.symbol,
        side: match o.side {
            OrderSide::Buy => "buy"@,
            OrderSide::Sell => "sell"@,
        },
        price: o.price,
        amount: o.amount,
        status: "open"@,
    }
}

/// What is reported of an agent.
pub open spec fn agent_report(a: AgentSpec) -> AgentReportSpec {
    AgentReportSpec {
        id: a.id,
        balance: a.balance,
        position: a.position,
        open_orders: Seq::new(a.open_orders.len(), |i: int| open_order_report(a.open_orders[i])),
        pnl: a.realized_pnl,
        trade_count: a.trade_count,
        last_action: a.last_action,
    }
}

/// The agents with one of them replaced, if it is there.
pub open spec fn replaced(
    m: Map<Seq<char>, AgentSpec>,
    id: Seq<char>,
    a: AgentSpec,
) -> Map<Seq<char>, AgentSpec> {
    if m.contains_key(id) {
        m.insert(id, a)
    } else {
        m
    }
}

fn wrapped_low(x: u128) -> (r: u64)
    ensures
        r == low64(x as nat),
{
    (x % 0x1_0000_0000_0000_0000) as u64
}

fn wrapped_signed(x: u128) -> (r: i64)
    ensures
        r == signed64(x as nat),
{
    let low: u64 = wrapped_low(x);
    if low < 0x8000_0000_0000_0000 {
        low as i64
    } else {
        (low as i128 - 0x1_0000_0000_0000_0000) as i64
    }
}

/// What counts in a trade.
struct Tally {
    position: u64,
    avg: u64,
    pnl: i64,
    count: u64,
}

spec fn tally_is(t: Tally, a: AgentSpec) -> bool {
    &&& t.position == a.position
    &&& t.avg == a.position_avg_price
    &&& t.pnl == a.realized_pnl
    &&& t.count == a.trade_count
}

/// What counts after a trade, if it can be counted.
fn tally_after(t: &Tally, selling: bool, amount: u64, price: u64, a: Ghost<AgentSpec>) -> (r: Option<
    Tally,
>)
    requires
        tally_is(*t, a@),
    ensures
        match r {
            Some(after) => can_trade(a@, selling, amount, price) && forall|id: Id32|
                tally_is(after, #[trigger] traded(a@, selling, amount, price, id)),
            None => !can_trade(a@, selling, amount, price),
        },
{
    if t.count == u64::MAX {
        return None;
    }
    proof {
        assert(0 <= amount * price <= u128::MAX) by (nonlinear_arith)
            requires
                0 <= amount <= u64::MAX,
                0 <= price <= u64::MAX,
        ;
        assert(0 <= amount * t.avg <= u128::MAX) by (nonlinear_arith)
            requires
                0 <= amount <= u64::MAX,
                0 <= t.avg <= u64::MAX,
        ;
        assert(0 <= t.position * t.avg <= u128::MAX) by (nonlinear_arith)
            requires
                0 <= t.position <= u64::MAX,
                0 <= t.avg <= u64::MAX,
        ;
    }
    let value: u128 = amount as u128 * price as u128;
    if selling {
        let basis: u128 = if t.position > 0 {
            amount as u128 * t.avg as u128
        } else {
            0
        };
        let won: i128 = wrapped_signed(value) as i128 - wrapped_signed(basis) as i128;
        let pnl: i128 = t.pnl as i128 + won;
        if won < i64::MIN as i128 || won > i64::MAX as i128 || pnl < i64::MIN as i128 || pnl
            > i64::MAX as i128 {
            return None;
        }
        Some(
            Tally {
                position: t.position.saturating_sub(amount),
                avg: t.avg,
                pnl: pnl as i64,
                count: t.count + 1,
            },
        )
    } else {
        if t.position > u64::MAX - amount {
            return None;
        }
        proof {
            lemma_average(t.position, t.avg, amount, price);
        }
        let total: u128 = t.position as u128 + amount as u128;
        let avg: u64 = if total > 0 {
            ((t.position as u128 * t.avg as u128 + value) / total) as u64
        } else {
            0
        };
        Some(Tally { position: t.position + amount, avg, pnl: t.pnl, count: t.count + 1 })
    }
}

/// A key has the bytes of another exactly where it is the other.
pub proof fn lemma_keys_equal(key: Id32, other: Id32, id: Seq<char>)
    requires
        key@ == trader_key(id),
    ensures
        (key == other) <==> (other@ == trader_key(id)),
{
    if key@ == other@ {
        assert(key =~= other);
    }
}

/// Takes the orders with an id out.
fn drop_order(orders: &mut Vec<Order>, id: &Id32)
    ensures
        orders_view(final(orders)@) == without_id(orders_view(old(orders)@), *id),
{
    let mut all: Vec<Order> = Vec::new();
    std::mem::swap(&mut all, orders);
    let ghost av = all@;
    let ghost s = orders_view(all@);
    proof {
        assert(orders_view(orders@) =~= without_id(s.take(0), *id));
    }
    for o in it: all.into_iter()
        invariant
            it.seq() == av,
            s == orders_view(av),
            orders_view(orders@) == without_id(s.take(it.index()), *id),
    {
        let ghost before = orders@;
        let ghost i = it.index();
        let ghost ov = o@;
        proof {
            assert(s[i] == ov);
            assert(s.take(i + 1).drop_last() =~= s.take(i));
            assert(s.take(i + 1).last() == ov);
        }
        if !same_id(&o.id, id) {
            orders.push(o);
            proof {
                assert(orders_view(orders@) =~= orders_view(before).push(ov));
            }
        }
    }
    proof {
        assert(s.take(s.len() as int) =~= s);
    }
}

proof fn lemma_average(position: u64, avg: u64, amount: u64, price: u64)
    requires
        position + amount <= u64::MAX,
    ensures
        position * avg + amount * price <= u128::MAX,
        position + amount > 0 ==> 0 <= (position * avg + amount * price) / (position + amount)
            <= u64::MAX,
{
    let p = position as int;
    let a = avg as int;
    let q = amount as int;
    let r = price as int;
    let max = u64::MAX as int;
    assert(p * a <= p * max && q * r <= q * max) by (nonlinear_arith)
        requires
            0 <= p,
            0 <= q,
            a <= max,
            r <= max,
    ;
    assert(p * max + q * max == (p + q) * max) by (nonlinear_arith);
    assert((p + q) * max <= max * max) by (nonlinear_arith)
        requires
            p + q <= max,
            0 <= max,
    ;
    assert(0 <= p * a && 0 <= q * r) by (nonlinear_arith)
        requires
            0 <= p,
            0 <= a,
            0 <= q,
            0 <= r,
    ;
    if p + q > 0 {
        let x = p * a + q * r;
        let d = p + q;
        assert(0 <= x / d <= max) by (nonlinear_arith)
            requires
                0 <= x,
                x <= d * max,
                d > 0,
        ;
    }
}

/// Every agent stands under its own id.
pub open spec fn under_own_ids(m: Map<Seq<char>, AgentSpec>) -> bool {
    forall|id: Seq<char>| #[trigger] m.contains_key(id) ==> m[id].id == id
}

impl AgentTracker {
    #[verifier::type_invariant]
    spec fn inv(self) -> bool {
        under_own_ids(self.agents@.map_values(|a: AgentRecord| a@))
    }

    /// The agents' ids in the order in which they are listed.
    pub closed spec fn order(&self) -> Seq<Seq<char>> {
        entry_keys(self.agents.list())
    }

    pub fn new() -> (r: Self)
        ensures
            r@ == Map::<Seq<char>, AgentSpec>::empty(),
    {
        let r = AgentTracker { agents: AssocMap::new() };
        assert(r@ =~= Map::empty());
        r
    }

    fn put(&mut self, id: String, a: AgentRecord)
        requires
            a@.id == id@,
        ensures
            final(self)@ == old(self)@.insert(id@, a@),
    {
        proof {
            use_type_invariant(&*self);
        }
        let ghost av = a;
        let ghost before = self.agents@;
        let mut agents: AssocMap<String, AgentRecord> = AssocMap::new();
        std::mem::swap(&mut agents, &mut self.agents);
        agents.insert(id, a);
        proof {
            assert(agents@.map_values(|a: AgentRecord| a@) =~= before.map_values(
                |a: AgentRecord| a@,
            ).insert(id@, av@));
        }
        self.agents = agents;
    }

    fn take(&mut self, id: &String) -> (r: Option<AgentRecord>)
        ensures
            final(self)@ == old(self)@.remove(id@),
            match r {
                Some(a) => old(self)@.contains_key(id@) && old(self)@[id@] == a@ && a@.id == id@,
                None => !old(self)@.contains_key(id@),
            },
    {
        proof {
            use_type_invariant(&*self);
        }
        let ghost before = self.agents@;
        let mut agents: AssocMap<String, AgentRecord> = AssocMap::new();
        std::mem::swap(&mut agents, &mut self.agents);
        let r: Option<AgentRecord> = agents.remove(id);
        proof {
            assert(agents@.map_values(|a: AgentRecord| a@) =~= before.map_values(
                |a: AgentRecord| a@,
            ).remove(id@));
        }
        self.agents = agents;
        r
    }

    fn record(&self, agent_id: &str) -> (r: Option<&AgentRecord>)
        ensures
            match r {
                Some(a) => self@.contains_key(agent_id@) && self@[agent_id@] == a@,
                None => !self@.contains_key(agent_id@),
            },
    {
        let key: String = agent_id.to_owned();
        self.agents.get(&key)
    }

    /// Sets an agent up, in place of one with the same id if there is one.
    pub fn register(&mut self, config: AgentConfig)
        ensures
            final(self)@ == old(self)@.insert(
                config.id@,
                new_agent(config.id@, config.initial_capital),
            ),
    {
        let id: String = config.id.clone();
        let a = AgentRecord {
            balance: config.initial_capital,
            position: 0,
            position_avg_price: 0,
            open_orders: Vec::new(),
            realized_pnl: 0,
            trade_count: 0,
            last_action: "none".to_owned(),
            config,
        };
        proof {
            assert(orders_view(a.open_orders@) =~= Seq::empty());
        }
        self.put(id, a);
    }

    /// The key by which an agent trades.
    pub fn get_trader_bytes(&self, agent_id: &str) -> (r: Option<Id32>)
        ensures
            under_own_ids(self@),
            match r {
                Some(b) => self@.contains_key(agent_id@) && b@ == trader_key(agent_id@),
                None => !self@.contains_key(agent_id@),
            },
    {
        proof {
            use_type_invariant(self);
        }
        match self.record(agent_id) {
            Some(a) => {
                let id: &[u8] = a.config.id.as_str().as_bytes();
                let mut bytes: Id32 = [0u8; 32];
                let mut i: usize = 0;
                while i < 32 && i < id.len()
                    invariant
                        i <= 32,
                        i <= id@.len(),
                        forall|k: int| 0 <= k < i ==> bytes@[k] == id@[k],
                        forall|k: int| i <= k < 32 ==> bytes@[k] == 0,
                    decreases 32 - i,
                {
                    bytes[i] = id[i];
                    i = i + 1;
                }
                assert(bytes@ =~= trader_key(a@.id));
                Some(bytes)
            },
            None => None,
        }
    }

    pub fn get_balance(&self, agent_id: &str) -> (r: Option<u64>)
        ensures
            match r {
                Some(b) => self@.contains_key(agent_id@) && b == self@[agent_id@].balance,
                None => !self@.contains_key(agent_id@),
            },
    {
        match self.record(agent_id) {
            Some(a) => Some(a.balance),
            None => None,
        }
    }

    pub fn get_position(&self, agent_id: &str) -> (r: Option<u64>)
        ensures
            match r {
                Some(p) => self@.contains_key(agent_id@) && p == self@[agent_id@].position,
                None => !self@.contains_key(agent_id@),
            },
    {
        match self.record(agent_id) {
            Some(a) => Some(a.position),
            None => None,
        }
    }

    /// Notes an order that an agent has placed.
    pub fn add_order(&mut self, agent_id: &str, order: Order)
        ensures
            final(self)@ == replaced(
                old(self)@,
                agent_id@,
                ordered(old(self)@[agent_id@], order@),
            ),
    {
        let ghost m = self@;
        let key: String = agent_id.to_owned();
        match self.take(&key) {
            Some(mut a) => {
                let ghost av = a@;
                let ghost ov = order@;
                let ghost orders = a.open_orders@;
                a.open_orders.push(order);
                a.last_action = "place_order".to_owned();
                proof {
                    assert(orders_view(a.open_orders@) =~= orders_view(orders).push(ov));
                    assert(a@ =~= ordered(av, ov));
                }
                self.put(key, a);
                proof {
                    assert(self@ =~= m.insert(agent_id@, ordered(av, ov)));
                }
            },
            None => {
                assert(self@ =~= m);
            },
        }
    }

    /// Takes an order back. Returns whether the agent had it open.
    pub fn cancel_order(&mut self, agent_id: &str, order_id: &Id32) -> (r: bool)
        ensures
            r == (old(self)@.contains_key(agent_id@) && has_order(
                old(self)@[agent_id@].open_orders,
                *order_id,
            )),
            final(self)@ == if r {
                old(self)@.insert(agent_id@, cancelled(old(self)@[agent_id@], *order_id))
            } else {
                old(self)@
            },
    {
        let ghost m = self@;
        let key: String = agent_id.to_owned();
        match self.take(&key) {
            Some(mut a) => {
                let ghost av = a@;
                let mut i: usize = 0;
                while i < a.open_orders.len()
                    invariant
                        i <= a.open_orders@.len(),
                        av == a@,
                        m == old(self)@,
                        m.contains_key(agent_id@),
                        m[agent_id@] == av,
                        av.id == agent_id@,
                        key@ == agent_id@,
                        self@ == m.remove(agent_id@),
                        forall|j: int| 0 <= j < i ==> (#[trigger] av.open_orders[j]).id != *order_id,
                    decreases a.open_orders@.len() - i,
                {
                    proof {
                        assert(av.open_orders[i as int] == a.open_orders@[i as int]@);
                    }
                    if same_id(&a.open_orders[i].id, order_id) {
                        let ghost orders = a.open_orders@;
                        a.open_orders.remove(i);
                        a.last_action = "cancel_order".to_owned();
                        proof {
                            assert(first_with_id(av.open_orders, *order_id, i as int));
                            let k = choose|k: int| #[trigger]
                                first_with_id(av.open_orders, *order_id, k);
                            assert(k == i);
                            assert(orders_view(a.open_orders@) =~= orders_view(orders).remove(
                                i as int,
                            ));
                            assert(a@ =~= cancelled(av, *order_id));
                        }
                        self.put(key, a);
                        proof {
                            assert(self@ =~= m.insert(agent_id@, cancelled(av, *order_id)));
                        }
                        return true;
                    }
                    i = i + 1;
                }
                self.put(key, a);
                proof {
                    assert(self@ =~= m);
                    assert(!has_order(av.open_orders, *order_id)) by {
                        if has_order(av.open_orders, *order_id) {
                            let k = choose|k: int| #[trigger]
                                first_with_id(av.open_orders, *order_id, k);
                            assert(av.open_orders[k].id == *order_id);
                        }
                    }
                }
                false
            },
            None => {
                assert(self@ =~= m);
                false
            },
        }
    }

    /// Notes a purchase.
    pub fn record_trade_buy(&mut self, agent_id: &str, amount: u64, price: u64, order_id: &Id32)
        requires
            old(self)@.contains_key(agent_id@) ==> can_buy(old(self)@[agent_id@], amount),
        ensures
            final(self)@ == replaced(
                old(self)@,
                agent_id@,
                bought(old(self)@[agent_id@], amount, price, *order_id),
            ),
    {
        let ghost m = self@;
        let key: String = agent_id.to_owned();
        match self.take(&key) {
            Some(mut a) => {
                let ghost av = a@;
                proof {
                    lemma_average(a.position, a.position_avg_price, amount, price);
                    assert(0 <= amount * price <= u128::MAX) by (nonlinear_arith)
                        requires
                            0 <= amount <= u64::MAX,
                            0 <= price <= u64::MAX,
                    ;
                    assert(0 <= a.position * a.position_avg_price <= u128::MAX) by (nonlinear_arith)
                        requires
                            0 <= a.position <= u64::MAX,
                            0 <= a.position_avg_price <= u64::MAX,
                    ;
                }
                let total_cost: u128 = amount as u128 * price as u128;
                a.balance = a.balance.saturating_sub(wrapped_low(total_cost));
                let old_value: u128 = a.position as u128 * a.position_avg_price as u128;
                let new_total: u128 = a.position as u128 + amount as u128;
                a.position_avg_price = if new_total > 0 {
                    ((old_value + total_cost) / new_total) as u64
                } else {
                    0
                };
                a.position = a.position + amount;
                a.trade_count = a.trade_count + 1;
                drop_order(&mut a.open_orders, order_id);
                a.last_action = "trade_executed".to_owned();
                proof {
                    assert(a@ =~= bought(av, amount, price, *order_id));
                }
                self.put(key, a);
                proof {
                    assert(self@ =~= m.insert(agent_id@, bought(av, amount, price, *order_id)));
                }
            },
            None => {
                assert(self@ =~= m);
            },
        }
    }

    /// Notes a sale.
    pub fn record_trade_sell(&mut self, agent_id: &str, amount: u64, price: u64, order_id: &Id32)
        requires
            old(self)@.contains_key(agent_id@) ==> can_sell(old(self)@[agent_id@], amount, price),
        ensures
            final(self)@ == replaced(
                old(self)@,
                agent_id@,
                sold(old(self)@[agent_id@], amount, price, *order_id),
            ),
    {
        let ghost m = self@;
        let key: String = agent_id.to_owned();
        match self.take(&key) {
            Some(mut a) => {
                let ghost av = a@;
                proof {
                    assert(0 <= amount * price <= u128::MAX) by (nonlinear_arith)
                        requires
                            0 <= amount <= u64::MAX,
                            0 <= price <= u64::MAX,
                    ;
                    assert(0 <= amount * a.position_avg_price <= u128::MAX) by (nonlinear_arith)
                        requires
                            0 <= amount <= u64::MAX,
                            0 <= a.position_avg_price <= u64::MAX,
                    ;
                }
                let revenue: u128 = amount as u128 * price as u128;
                let basis: u128 = if a.position > 0 {
                    amount as u128 * a.position_avg_price as u128
                } else {
                    0
                };
                a.balance = a.balance.saturating_add(wrapped_low(revenue));
                a.position = a.position.saturating_sub(amount);
                a.realized_pnl = a.realized_pnl + (wrapped_signed(revenue) - wrapped_signed(basis));
                a.trade_count = a.trade_count + 1;
                drop_order(&mut a.open_orders, order_id);
                a.last_action = "trade_executed".to_owned();
                proof {
                    assert(a@ =~= sold(av, amount, price, *order_id));
                }
                self.put(key, a);
                proof {
                    assert(self@ =~= m.insert(agent_id@, sold(av, amount, price, *order_id)));
                }
            },
            None => {
                assert(self@ =~= m);
            },
        }
    }

    /// Whether a trade of an agent can be counted, and where it trades twice, whether both can.
    pub(crate) fn trade_counts(
        &self,
        agent_id: &str,
        selling: bool,
        twice: bool,
        amount: u64,
        price: u64,
    ) -> (r: bool)
        requires
            self@.contains_key(agent_id@),
        ensures
            forall|id: Id32|
                r == (can_trade(self@[agent_id@], selling, amount, price) && (twice ==> can_trade(
                    #[trigger] traded(self@[agent_id@], selling, amount, price, id),
                    selling,
                    amount,
                    price,
                ))),
    {
        match self.record(agent_id) {
            Some(a) => {
                let t = Tally {
                    position: a.position,
                    avg: a.position_avg_price,
                    pnl: a.realized_pnl,
                    count: a.trade_count,
                };
                match tally_after(&t, selling, amount, price, Ghost(a@)) {
                    None => false,
                    Some(after) => {
                        if !twice {
                            return true;
                        }
                        let ghost id0: Id32 = arbitrary();
                        let ghost b = traded(a@, selling, amount, price, id0);
                        proof {
                            assert(tally_is(after, b));
                        }
                        let r: bool = match tally_after(&after, selling, amount, price, Ghost(b)) {
                            Some(_) => true,
                            None => false,
                        };
                        proof {
                            assert forall|id: Id32|
                                r == can_trade(
                                    #[trigger] traded(a@, selling, amount, price, id),
                                    selling,
                                    amount,
                                    price,
                                ) by {
                                assert(tally_is(after, traded(a@, selling, amount, price, id)));
                            }
                        }
                        r
                    },
                }
            },
            None => false,
        }
    }

    /// What is reported of an agent.
    pub fn snapshot(&self, agent_id: &str) -> (r: Option<AgentStateSnapshot>)
        ensures
            match r {
                Some(s) => self@.contains_key(agent_id@) && s@ == agent_report(self@[agent_id@]),
                None => !self@.contains_key(agent_id@),
            },
    {
        match self.record(agent_id) {
            Some(a) => Some(report(a)),
            None => None,
        }
    }

    /// What is reported of each agent.
    pub fn all_snapshots(&self) -> (r: Vec<AgentStateSnapshot>)
        ensures
            reports_view(r@) == Seq::new(
                self.order().len(),
                |i: int| agent_report(self@[self.order()[i]]),
            ),
            lists_agents(self.order(), self@),
    {
        let mut out: Vec<AgentStateSnapshot> = Vec::new();
        let n: usize = self.agents.len();
        let ghost list = self.agents.list();
        let mut i: usize = 0;
        while i < n
            invariant
                i <= n,
                n == list.len(),
                list == self.agents.list(),
                self.order() == entry_keys(list),
                out@.len() == i,
                forall|k: int|
                    0 <= k < i ==> (#[trigger] out@[k])@ == agent_report(self@[list[k].0@]),
            decreases n - i,
        {
            let k: &String = self.agents.key_at(i);
            let a: &AgentRecord = self.agents.value_at(i);
            proof {
                assert(self@[list[i as int].0@] == a@);
            }
            out.push(report(a));
            i = i + 1;
        }
        proof {
            self.lemma_order(list);
            assert(reports_view(out@) =~= Seq::new(
                self.order().len(),
                |i: int| agent_report(self@[self.order()[i]]),
            ));
        }
        out
    }

    proof fn lemma_order(&self, list: Seq<(String, AgentRecord)>)
        requires
            list == self.agents.list(),
            crate::assoc::distinct_keys(list),
            self.agents@ == crate::assoc::entries_map(list),
        ensures
            self.order() == entry_keys(list),
            lists_agents(self.order(), self@),
    {
        let ids = self.order();
        assert forall|a: int, b: int| 0 <= a < ids.len() && 0 <= b < ids.len() && a != b implies ids[a]
            != ids[b] by {
            if a < b {
                assert(list[a].0.key() != list[b].0.key());
            } else {
                assert(list[b].0.key() != list[a].0.key());
            }
        }
        assert forall|id: Seq<char>| #[trigger] ids.contains(id) <==> self@.contains_key(id) by {
            if ids.contains(id) {
                let k = choose|k: int| 0 <= k < ids.len() && ids[k] == id;
                assert(entry_is(list, id, k));
            }
            if self@.contains_key(id) {
                let k = choose|k: int| #[trigger] entry_is(list, id, k);
                assert(ids[k] == id);
            }
        }
    }

    /// The agents' ids.
    pub fn agent_ids(&self) -> (r: Vec<String>)
        ensures
            ids_view(r@) == self.order(),
            lists_agents(self.order(), self@),
            under_own_ids(self@),
    {
        proof {
            use_type_invariant(self);
        }
        let mut out: Vec<String> = Vec::new();
        let n: usize = self.agents.len();
        let ghost list = self.agents.list();
        let mut i: usize = 0;
        while i < n
            invariant
                i <= n,
                n == list.len(),
                list == self.agents.list(),
                out@.len() == i,
                forall|k: int| 0 <= k < i ==> (#[trigger] out@[k])@ == list[k].0@,
            decreases n - i,
        {
            out.push(self.agents.key_at(i).clone());
            i = i + 1;
        }
        proof {
            self.lemma_order(list);
            assert(ids_view(out@) =~= self.order());
        }
        out
    }
}

/// Each agent once.
pub open spec fn lists_agents(ids: Seq<Seq<char>>, m: Map<Seq<char>, AgentSpec>) -> bool {
    &&& ids.no_duplicates()
    &&& forall|id: Seq<char>| #[trigger] ids.contains(id) <==> m.contains_key(id)
}

/// Ids, each by its view.
pub open spec fn ids_view(s: Seq<String>) -> Seq<Seq<char>> {
    Seq::new(s.len(), |i: int| s[i]@)
}

/// Reports, each by its view.
pub open spec fn reports_view(s: Seq<AgentStateSnapshot>) -> Seq<AgentReportSpec> {
    Seq::new(s.len(), |i: int| s[i]@)
}

fn report(a: &AgentRecord) -> (r: AgentStateSnapshot)
    ensures
        r@ == agent_report(a@),
{
    let mut open: Vec<OrderSnapshot> = Vec::new();
    let mut i: usize = 0;
    while i < a.open_orders.len()
        invariant
            i <= a.open_orders@.len(),
            open@.len() == i,
            forall|k: int|
                0 <= k < i ==> (#[trigger] open@[k])@ == open_order_report(a.open_orders@[k]@),
        decreases a.open_orders@.len() - i,
    {
        let o: &Order = &a.open_orders[i];
        let side: String = match o.side {
            OrderSide::Buy => "buy".to_owned(),
            OrderSide::Sell => "sell".to_owned(),
        };
        open.push(
            OrderSnapshot {
                order_id: order_id_to_hex(&o.id),
                symbol: o.symbol.clone(),
                side,
                price: o.price,
                amount: o.amount,
                status: "open".to_owned(),
            },
        );
        i = i + 1;
    }
    let r = AgentStateSnapshot {
        id: a.config.id.clone(),
        balance: a.balance,
        position: a.position,
        open_orders: open,
        pnl: a.realized_pnl,
        trade_count: a.trade_count,
        last_action: a.last_action.clone(),
    };
    proof {
        assert(r@.open_orders =~= agent_report(a@).open_orders);
    }
    r
}

/// A trade moves money and goods from one agent to the other, and neither is made nor lost, where
/// the buyer can pay, the seller can deliver and the sums can be held.
pub proof fn law_trade_conserves(
    buyer: AgentSpec,
    seller: AgentSpec,
    amount: u64,
    price: u64,
    bought_by: Id32,
    sold_by: Id32,
)
    requires
        can_buy(buyer, amount),
        amount * price <= buyer.balance,
        amount <= seller.position,
        seller.balance + amount * price <= u64::MAX,
    ensures
        bought(buyer, amount, price, bought_by).balance + sold(
            seller,
            amount,
            price,
            sold_by,
        ).balance == buyer.balance + seller.balance,
        bought(buyer, amount, price, bought_by).position + sold(
            seller,
            amount,
            price,
            sold_by,
        ).position == buyer.position + seller.position,
{
    assert(0 <= amount * price) by (nonlinear_arith);
}

/// What was paid on average lies between what was paid on average before and what is paid now.
pub proof fn law_average_lies_between(position: u64, avg: u64, amount: u64, price: u64)
    requires
        position + amount <= u64::MAX,
        amount > 0,
    ensures
        position == 0 ==> average(position, avg, amount, price) == price,
        avg <= price ==> average(position, avg, amount, price) <= price,
        avg >= price ==> average(position, avg, amount, price) >= price,
        position > 0 && avg <= price ==> avg <= average(position, avg, amount, price),
        position > 0 && avg >= price ==> average(position, avg, amount, price) <= avg,
{
    lemma_average(position, avg, amount, price);
    let p = position as int;
    let a = avg as int;
    let q = amount as int;
    let r = price as int;
    let x = p * a + q * r;
    let d = p + q;
    if a <= r {
        assert(x <= d * r && d * a <= x) by (nonlinear_arith)
            requires
                x == p * a + q * r,
                d == p + q,
                0 <= p,
                0 <= q,
                a <= r,
        ;
        assert(a <= x / d <= r) by (nonlinear_arith)
            requires
                x <= d * r,
                d * a <= x,
                d > 0,
        ;
    }
    if a >= r {
        assert(x <= d * a && d * r <= x) by (nonlinear_arith)
            requires
                x == p * a + q * r,
                d == p + q,
                0 <= p,
                0 <= q,
                r <= a,
        ;
        assert(r <= x / d <= a) by (nonlinear_arith)
            requires
                x <= d * a,
                d * r <= x,
                d > 0,
        ;
    }
    if p == 0 {
        assert(x / d == r) by (nonlinear_arith)
            requires
                x == p * a + q * r,
                d == p + q,
                p == 0,
                q > 0,
        ;
    }
}

/// Once a trade on an order is noted, the order is no longer open.
pub proof fn law_traded_order_is_closed(s: Seq<OrderSpec>, id: Id32)
    ensures
        !has_order(without_id(s, id), id),
        forall|i: int| 0 <= i < without_id(s, id).len() ==> (#[trigger] without_id(s, id)[i]).id != id,
    decreases s.len(),
{
    if s.len() > 0 {
        law_traded_order_is_closed(s.drop_last(), id);
        let t = without_id(s.drop_last(), id);
        let r = without_id(s, id);
        assert forall|i: int| 0 <= i < r.len() implies (#[trigger] r[i]).id != id by {
            if i < t.len() {
                assert(r[i] == t[i]);
            }
        }
    }
    if has_order(without_id(s, id), id) {
        let r = without_id(s, id);
        let k = choose|k: int| #[trigger] first_with_id(r, id, k);
        assert(r[k].id == id);
    }
}

/// What a sale does, where it is covered and the products can be held: the money comes in, the goods
/// go out, and the profit grows by what was earned over what the goods had cost. Selling without
/// holding anything earns all that is paid.
pub proof fn law_sale_earns_over_cost(a: AgentSpec, amount: u64, price: u64, order_id: Id32)
    requires
        can_sell(a, amount, price),
        amount * price <= i64::MAX,
        amount * a.position_avg_price <= i64::MAX,
    ensures
        ({
            let s = sold(a, amount, price, order_id);
            &&& 0 < amount <= a.position ==> s.realized_pnl - a.realized_pnl == amount * (price
                - a.position_avg_price)
            &&& a.position == 0 ==> s.realized_pnl - a.realized_pnl == amount * price
            &&& a.position > 0 ==> s.realized_pnl - a.realized_pnl == amount * price - amount
                * a.position_avg_price
            &&& amount <= a.position ==> s.position == a.position - amount
            &&& amount > a.position ==> s.position == 0
            &&& a.balance + amount * price <= u64::MAX ==> s.balance == a.balance + amount * price
            &&& a.balance + amount * price > u64::MAX ==> s.balance == u64::MAX
            &&& s.position_avg_price == a.position_avg_price
            &&& s.trade_count == a.trade_count + 1
            &&& s.id == a.id
        }),
{
    let q = amount as int;
    let p = price as int;
    let c = a.position_avg_price as int;
    assert(0 <= q * p && 0 <= q * c && q * (p - c) == q * p - q * c) by (nonlinear_arith)
        requires
            0 <= q,
            0 <= p,
            0 <= c,
    ;
}

/// What a purchase does, where it can be paid and the product can be held: the money goes out, the
/// goods come in, nothing is earned yet, and the average cost is what all goods have cost over how
/// many there are, rounded down.
pub proof fn law_purchase_costs(a: AgentSpec, amount: u64, price: u64, order_id: Id32)
    requires
        can_buy(a, amount),
        amount * price <= u64::MAX,
    ensures
        ({
            let s = bought(a, amount, price, order_id);
            let paid = a.position * a.position_avg_price + amount * price;
            &&& amount * price <= a.balance ==> s.balance == a.balance - amount * price
            &&& amount * price > a.balance ==> s.balance == 0
            &&& s.position == a.position + amount
            &&& s.realized_pnl == a.realized_pnl
            &&& s.position > 0 ==> s.position * s.position_avg_price <= paid < s.position * (
            s.position_avg_price + 1)
            &&& s.position == 0 ==> s.position_avg_price == 0
            &&& s.trade_count == a.trade_count + 1
            &&& s.id == a.id
        }),
{
    lemma_average(a.position, a.position_avg_price, amount, price);
    let d = a.position + amount;
    let x = a.position * a.position_avg_price + amount * price;
    assert(0 <= amount * price) by (nonlinear_arith);
    if d > 0 {
        let g = x / d;
        assert(d * g <= x < d * (g + 1)) by (nonlinear_arith)
            requires
                g == x / d,
                d > 0,
        ;
    }
}

/// A round trip: an agent that holds nothing, buys, and sells all of it again in two parts at
/// whatever prices has earned exactly what its balance has grown by, and holds nothing.
pub proof fn law_round_trip_profit_is_cash(
    a: AgentSpec,
    amount: u64,
    price: u64,
    part: u64,
    first: u64,
    second: u64,
    id: Id32,
)
    requires
        a.position == 0,
        0 < part <= amount,
        can_buy(a, amount),
        amount * price <= a.balance,
        amount * price <= i64::MAX,
        part * first <= i64::MAX,
        (amount - part) * second <= i64::MAX,
        ({
            let held = bought(a, amount, price, id);
            let rest = sold(held, part, first, id);
            &&& can_sell(held, part, first)
            &&& can_sell(rest, (amount - part) as u64, second)
            &&& held.balance + part * first + (amount - part) * second <= u64::MAX
        }),
    ensures
        ({
            let held = bought(a, amount, price, id);
            let rest = sold(held, part, first, id);
            let done = sold(rest, (amount - part) as u64, second, id);
            &&& done.position == 0
            &&& done.realized_pnl - a.realized_pnl == done.balance - a.balance
            &&& part == amount ==> rest.position == 0 && rest.realized_pnl - a.realized_pnl
                == rest.balance - a.balance
        }),
{
    let held = bought(a, amount, price, id);
    let rest = sold(held, part, first, id);
    let left = (amount - part) as u64;
    law_average_lies_between(0, a.position_avg_price, amount, price);
    assert(held.position_avg_price == price);
    let q = amount as int;
    let k = part as int;
    let c = price as int;
    assert(0 <= k * c <= q * c && 0 <= (q - k) * c <= q * c && k * c + (q - k) * c == q * c)
        by (nonlinear_arith)
        requires
            0 < k <= q,
            0 <= c,
    ;
    assert(0 <= part * first && 0 <= (amount - part) * second) by (nonlinear_arith)
        requires
            0 < part <= amount,
            0 <= first,
            0 <= second,
    ;
    law_purchase_costs(a, amount, price, id);
    law_sale_earns_over_cost(held, part, first, id);
    law_sale_earns_over_cost(rest, left, second, id);
}

proof fn lemma_without_id(s: Seq<OrderSpec>, id: Id32)
    ensures
        without_id(s, id) == s.filter(|o: OrderSpec| o.id != id),
    decreases s.len(),
{
    let keep = |o: OrderSpec| o.id != id;
    reveal(Seq::filter);
    if s.len() > 0 {
        lemma_without_id(s.drop_last(), id);
    }
}

/// A trade closes the order that it is on and no other: the open orders afterwards are those before
/// that have another id, as they stood.
pub proof fn law_trade_closes_its_order_alone(
    a: AgentSpec,
    selling: bool,
    amount: u64,
    price: u64,
    order_id: Id32,
)
    ensures
        traded(a, selling, amount, price, order_id).open_orders == a.open_orders.filter(
            |o: OrderSpec| o.id != order_id,
        ),
{
    lemma_without_id(a.open_orders, order_id);
}

/// Cancelling takes one order out: the first with the id. All others stay as they stood, and so does
/// all else that is kept of the agent but the note of what it did last.
pub proof fn law_cancelling_takes_one_order(a: AgentSpec, id: Id32, i: int)
    requires
        0 <= i < a.open_orders.len(),
        a.open_orders[i].id == id,
        forall|j: int| 0 <= j < i ==> (#[trigger] a.open_orders[j]).id != id,
    ensures
        has_order(a.open_orders, id),
        ({
            let c = cancelled(a, id);
            &&& c.open_orders.len() == a.open_orders.len() - 1
            &&& forall|j: int| 0 <= j < i ==> #[trigger] c.open_orders[j] == a.open_orders[j]
            &&& forall|j: int|
                i <= j < c.open_orders.len() ==> #[trigger] c.open_orders[j] == a.open_orders[j + 1]
            &&& c == (AgentSpec {
                open_orders: c.open_orders,
                last_action: c.last_action,
                ..a
            })
        }),
{
    assert(first_with_id(a.open_orders, id, i));
    let k = choose|k: int| #[trigger] first_with_id(a.open_orders, id, k);
    assert(k == i);
}

/// An agent that places an order has it open, behind its other ones; its money and goods stay.
pub proof fn law_placed_order_joins_the_open_ones(a: AgentSpec, o: OrderSpec)
    ensures
        ({
            let c = ordered(a, o);
            &&& c.open_orders == a.open_orders.push(o)
            &&& c == (AgentSpec {
                open_orders: c.open_orders,
                last_action: c.last_action,
                ..a
            })
        }),
{
}

/// What is done to one agent leaves the others alone, and makes none.
pub proof fn law_agents_are_separate(
    m: Map<Seq<char>, AgentSpec>,
    id: Seq<char>,
    a: AgentSpec,
    other: Seq<char>,
)
    ensures
        replaced(m, id, a).dom() == m.dom(),
        other != id ==> replaced(m, id, a)[other] == m[other],
        m.contains_key(id) ==> replaced(m, id, a)[id] == a,
{
    assert(replaced(m, id, a).dom() =~= m.dom());
}

/// The key by which an agent trades begins with its id and is filled up with zeros, so that agents
/// whose ids are of at most 32 bytes and differ trade by different keys, unless one id is the other
/// with zero bytes behind it.
pub proof fn law_trader_keys_tell_ids_apart(a: Seq<char>, b: Seq<char>, i: int)
    requires
        trader_key(a) == trader_key(b),
        0 <= i < 32,
    ensures
        trader_key(a).len() == 32,
        i < encode_utf8(a).len() && i < encode_utf8(b).len() ==> encode_utf8(a)[i] == encode_utf8(
            b,
        )[i],
        i < encode_utf8(a).len() && i >= encode_utf8(b).len() ==> encode_utf8(a)[i] == 0,
{
    let x = encode_utf8(a);
    let y = encode_utf8(b);
    assert(trader_key(a)[i] == if i < x.len() {
        x[i]
    } else {
        0
    });
    assert(trader_key(b)[i] == if i < y.len() {
        y[i]
    } else {
        0
    });
}

/// An agent is reported as it is kept, each of its open orders with its own terms.
pub proof fn law_reports_show_what_is_kept(a: AgentSpec, i: int)
    requires
        0 <= i < a.open_orders.len(),
    ensures
        ({
            let r = agent_report(a);
            let o = a.open_orders[i];
            &&& r.id == a.id
            &&& r.balance == a.balance
            &&& r.position == a.position
            &&& r.pnl == a.realized_pnl
            &&& r.trade_count == a.trade_count
            &&& r.last_action == a.last_action
            &&& r.open_orders.len() == a.open_orders.len()
            &&& r.open_orders[i].price == o.price
            &&& r.open_orders[i].amount == o.amount
            &&& r.open_orders[i].symbol == o.symbol
            &&& r.open_orders[i].side == if o.side == OrderSide::Buy {
                "buy"@
            } else {
                "sell"@
            }
        }),
{
}

} // verus!
