//! What an agent asks of the simulation, and what it is told.

use crate::agents::{cancelled, has_order, ordered, replaced, trader_key, AgentSpec};
use crate::book::{book_has_id, book_without};
use crate::bytes::Id32;
use crate::hexes::hex_text;
use crate::mesh::{nodes_view, NodeSpec};
use crate::random::random_id;
use crate::sim_types::{
    hex_to_order_id, id_read, lemma_id_read, order_id_to_hex, parse_order_side, side_named,
};
use crate::simulation::{queued_at, MultiNodeSimulation, SimSpec};
use crate::text::{decimal_text, joined, push_decimal, push_decimal_wide};
use crate::types::{Order, OrderSide, OrderSpec, SettlementPreference, SettlementRequester};
use vstd::prelude::*;

verus! {

/// What an agent asks for.
#[derive(Clone, Debug)]
pub struct ActionRequest {
    pub agent_id: String,
    pub action: String,
    pub symbol: String,
    pub node_id: Option<u32>,
    pub side: Option<String>,
    pub price: Option<u64>,
    pub amount: Option<u64>,
    pub order_id: Option<String>,
}

/// What it is told.
#[derive(Clone, Debug)]
pub struct ActionResponse {
    pub status: String,
    pub message: String,
    pub order_id: Option<String>,
}

/// What an [`ActionResponse`] stands for.
#[verifier::ext_equal]
pub struct ActionSpec {
    pub status: Seq<char>,
    pub message: Seq<char>,
    pub order_id: Option<Seq<char>>,
}

impl View for ActionResponse {
    type V = ActionSpec;

    open spec fn view(&self) -> ActionSpec {
        ActionSpec {
            status: self.status@,
            message: self.message@,
            order_id: match self.order_id {
                Some(id) => Some(id@),
                None => None,
            },
        }
    }
}

/// The request was turned down.
pub open spec fn turned_down(message: Seq<char>) -> ActionSpec {
    ActionSpec { status: "error"@, message, order_id: None }
}

/// Text, or what stands in for it.
pub open spec fn text_or(t: Option<String>, other: Seq<char>) -> Seq<char> {
    match t {
        Some(s) => s@,
        None => other,
    }
}

pub open spec fn number_or(n: Option<u64>, other: u64) -> u64 {
    match n {
        Some(v) => v,
        None => other,
    }
}

/// The node that an order goes to.
pub open spec fn node_asked(req: ActionRequest) -> u32 {
    match req.node_id {
        Some(n) => n,
        None => 0,
    }
}

/// What is asked for, a buy of one at three thousand where nothing else is said.
pub open spec fn asked_side(req: ActionRequest) -> OrderSide {
    side_named(text_or(req.side, "buy"@))
}

pub open spec fn asked_price(req: ActionRequest) -> u64 {
    number_or(req.price, 3000)
}

pub open spec fn asked_amount(req: ActionRequest) -> u64 {
    number_or(req.amount, 1)
}

/// The number of the next order.
pub open spec fn next_nonce(s: SimSpec) -> int {
    s.step_number * 1000 + s.trades.len()
}

/// The order that an agent places.
pub open spec fn placed_order(s: SimSpec, req: ActionRequest, id: Id32, trader: Id32) -> OrderSpec {
    OrderSpec {
        id,
        trader,
        symbol: req.symbol@,
        side: asked_side(req),
        price: asked_price(req),
        amount: asked_amount(req),
        signature: Seq::empty(),
        nonce: next_nonce(s) as u64,
        expiry: 1_000_000,
        settlement_preference: SettlementPreference::Standard,
        settlement_requester: SettlementRequester::Seller,
    }
}

/// Why an order cannot be placed, if it cannot: it trades nothing or at no price, nobody knows the
/// agent, or the agent has too little to pay or to deliver.
pub open spec fn order_fault(s: SimSpec, req: ActionRequest) -> Option<Seq<char>> {
    let price = asked_price(req);
    let amount = asked_amount(req);
    let id = req.agent_id@;
    if price == 0 || amount == 0 {
        Some("Invalid price or amount"@)
    } else if !s.agents.contains_key(id) {
        Some("Unknown agent: "@ + id)
    } else {
        let a = s.agents[id];
        match asked_side(req) {
            OrderSide::Buy => if amount * price > a.balance {
                Some(
                    "Insufficient balance: need "@ + decimal_text((amount * price) as nat)
                        + ", have "@ + decimal_text(a.balance as nat),
                )
            } else {
                None
            },
            OrderSide::Sell => if amount > a.position {
                Some(
                    "Insufficient position: need "@ + decimal_text(amount as nat) + ", have "@
                        + decimal_text(a.position as nat),
                )
            } else {
                None
            },
        }
    }
}

/// A key of these bytes.
pub open spec fn is_trader(key: Id32, id: Seq<char>) -> bool {
    key@ == trader_key(id)
}

/// The simulation after an order was placed: the agent has it open, and a node has it to send out.
pub open spec fn order_placed(s: SimSpec, req: ActionRequest, o: OrderSpec) -> SimSpec {
    let id = req.agent_id@;
    queued_at(
        SimSpec { agents: replaced(s.agents, id, ordered(s.agents[id], o)), ..s },
        o,
        node_asked(req),
    )
}

/// Placing an order under `id` comes to `after` and `r`.
pub open spec fn places(
    s: SimSpec,
    req: ActionRequest,
    id: Id32,
    after: SimSpec,
    r: ActionSpec,
) -> bool {
    match order_fault(s, req) {
        Some(message) => after == s && r == turned_down(message),
        None => exists|trader: Id32| #[trigger]
            is_trader(trader, req.agent_id@) && after == order_placed(
                s,
                req,
                placed_order(s, req, id, trader),
            ) && r == (ActionSpec {
                status: "success"@,
                message: "Order placed at node "@ + decimal_text(node_asked(req) as nat),
                order_id: Some(hex_text(id@)),
            }),
    }
}

/// The nodes without an order in any of their books.
pub open spec fn nodes_without(nodes: Seq<NodeSpec>, id: Id32) -> Seq<NodeSpec> {
    Seq::new(
        nodes.len(),
        |i: int| NodeSpec { book: book_without(nodes[i].book, id), ..nodes[i] },
    )
}

/// Some node has an order in its book.
pub open spec fn some_book_has(nodes: Seq<NodeSpec>, id: Id32, n: nat) -> bool {
    exists|i: int| 0 <= i < n && book_has_id((#[trigger] nodes[i]).book, id)
}

/// An agent has an order open.
pub open spec fn agent_has(agents: Map<Seq<char>, AgentSpec>, agent: Seq<char>, id: Id32) -> bool {
    agents.contains_key(agent) && has_order(agents[agent].open_orders, id)
}

/// The simulation after an order was withdrawn.
pub open spec fn order_withdrawn(s: SimSpec, agent: Seq<char>, id: Id32) -> SimSpec {
    SimSpec {
        nodes: nodes_without(s.nodes, id),
        agents: if agent_has(s.agents, agent, id) {
            s.agents.insert(agent, cancelled(s.agents[agent], id))
        } else {
            s.agents
        },
        ..s
    }
}

/// Cancelling an order comes to this.
pub open spec fn withdrawal(s: SimSpec, req: ActionRequest) -> (SimSpec, ActionSpec) {
    let text = text_or(req.order_id, Seq::empty());
    match id_read(text) {
        Some(id) => (
            order_withdrawn(s, req.agent_id@, id),
            if some_book_has(s.nodes, id, s.nodes.len()) || agent_has(
                s.agents,
                req.agent_id@,
                id,
            ) {
                ActionSpec {
                    status: "success"@,
                    message: "Order cancelled"@,
                    order_id: Some(text),
                }
            } else {
                turned_down("Order not found"@)
            },
        ),
        None => (s, turned_down("Invalid order ID format"@)),
    }
}

/// What a request comes to; an order that it places gets this id.
pub open spec fn action_comes_to(
    s: SimSpec,
    req: ActionRequest,
    id: Id32,
    after: SimSpec,
    r: ActionSpec,
) -> bool {
    if req.action@ == "place_order"@ {
        places(s, req, id, after, r)
    } else if req.action@ == "cancel_order"@ {
        (after, r) == withdrawal(s, req)
    } else if req.action@ == "hold"@ {
        after == s && r == (ActionSpec {
            status: "success"@,
            message: "Holding position"@,
            order_id: None,
        })
    } else {
        after == s && r == turned_down("Unknown action: "@ + req.action@)
    }
}

fn turn_down(message: String) -> (r: ActionResponse)
    ensures
        r@ == turned_down(message@),
{
    ActionResponse { status: "error".to_owned(), message, order_id: None }
}

fn place(sim: &mut MultiNodeSimulation, req: &ActionRequest, id: Id32) -> (r: ActionResponse)
    requires
        next_nonce(old(sim)@) <= u64::MAX,
    ensures
        places(old(sim)@, *req, id, final(sim)@, r@),
{
    let ghost s = sim@;
    let side: OrderSide = match &req.side {
        Some(t) => parse_order_side(t.as_str()),
        None => parse_order_side("buy"),
    };
    let price: u64 = match req.price {
        Some(p) => p,
        None => 3000,
    };
    let amount: u64 = match req.amount {
        Some(a) => a,
        None => 1,
    };
    let node_id: u32 = match req.node_id {
        Some(n) => n,
        None => 0,
    };
    if price == 0 || amount == 0 {
        return turn_down("Invalid price or amount".to_owned());
    }
    let trader: Id32 = match sim.agents.get_trader_bytes(req.agent_id.as_str()) {
        Some(t) => t,
        None => {
            return turn_down(joined("Unknown agent: ", req.agent_id.as_str()));
        },
    };
    proof {
        assert(is_trader(trader, req.agent_id@));
        assert(0 <= amount * price <= u128::MAX) by (nonlinear_arith)
            requires
                0 <= amount <= u64::MAX,
                0 <= price <= u64::MAX,
        ;
    }
    match side {
        OrderSide::Buy => {
            let balance: u64 = match sim.agents.get_balance(req.agent_id.as_str()) {
                Some(b) => b,
                None => 0,
            };
            let cost: u128 = amount as u128 * price as u128;
            if cost > balance as u128 {
                let mut message: String = "Insufficient balance: need ".to_owned();
                push_decimal_wide(&mut message, cost);
                message.append(", have ");
                push_decimal(&mut message, balance);
                return turn_down(message);
            }
        },
        OrderSide::Sell => {
            let position: u64 = match sim.agents.get_position(req.agent_id.as_str()) {
                Some(p) => p,
                None => 0,
            };
            if amount > position {
                let mut message: String = "Insufficient position: need ".to_owned();
                push_decimal(&mut message, amount);
                message.append(", have ");
                push_decimal(&mut message, position);
                return turn_down(message);
            }
        },
    }
    let order = Order {
        id,
        trader,
        symbol: req.symbol.clone(),
        side,
        price,
        amount,
        signature: Vec::new(),
        nonce: sim.step_number * 1000 + sim.recent_trades.len() as u64,
        expiry: 1_000_000,
        settlement_preference: SettlementPreference::Standard,
        settlement_requester: SettlementRequester::Seller,
    };
    proof {
        assert(order@ =~= placed_order(s, *req, id, trader));
    }
    let open: Order = order.duplicate();
    sim.agents.add_order(req.agent_id.as_str(), open);
    sim.queue_order(order, node_id);
    let mut message: String = "Order placed at node ".to_owned();
    push_decimal(&mut message, node_id as u64);
    ActionResponse {
        status: "success".to_owned(),
        message,
        order_id: Some(order_id_to_hex(&id)),
    }
}

fn withdraw(sim: &mut MultiNodeSimulation, req: &ActionRequest) -> (r: ActionResponse)
    ensures
        (final(sim)@, r@) == withdrawal(old(sim)@, *req),
{
    let ghost s = sim@;
    let text: String = match &req.order_id {
        Some(t) => t.clone(),
        None => String::new(),
    };
    proof {
        assert(text@ =~= text_or(req.order_id, Seq::empty()));
        lemma_id_read(text@);
    }
    let id: Id32 = match hex_to_order_id(text.as_str()) {
        Some(id) => id,
        None => {
            return turn_down("Invalid order ID format".to_owned());
        },
    };
    let mut found: bool = false;
    let count: usize = sim.nodes.len();
    let mut i: usize = 0;
    while i < count
        invariant
            i <= count,
            count == sim.nodes@.len(),
            count == s.nodes.len(),
            sim@ == (SimSpec { nodes: nodes_view(sim.nodes@), ..s }),
            found == some_book_has(s.nodes, id, i as nat),
            forall|k: int| 0 <= k < i ==> (#[trigger] sim.nodes@[k])@ == nodes_without(s.nodes, id)[k],
            forall|k: int| i <= k < count ==> (#[trigger] sim.nodes@[k])@ == s.nodes[k],
        decreases count - i,
    {
        let ghost nodes0 = sim.nodes@;
        proof {
            assert(nodes0[i as int]@ == s.nodes[i as int]);
        }
        let hit: bool = sim.nodes[i].orderbook.cancel_order(id);
        proof {
            assert(hit == book_has_id(s.nodes[i as int].book, id));
            assert(sim.nodes@[i as int]@ =~= nodes_without(s.nodes, id)[i as int]);
            assert(sim.nodes@ =~= nodes0.update(i as int, sim.nodes@[i as int]));
            lemma_book_step(s.nodes, id, i as nat);
        }
        if hit {
            found = true;
        }
        i = i + 1;
    }
    proof {
        assert(nodes_view(sim.nodes@) =~= nodes_without(s.nodes, id));
    }
    let mine: bool = sim.agents.cancel_order(req.agent_id.as_str(), &id);
    proof {
        assert(mine == agent_has(s.agents, req.agent_id@, id));
        assert(sim@ =~= order_withdrawn(s, req.agent_id@, id));
    }
    if found || mine {
        ActionResponse {
            status: "success".to_owned(),
            message: "Order cancelled".to_owned(),
            order_id: Some(text),
        }
    } else {
        turn_down("Order not found".to_owned())
    }
}

proof fn lemma_book_step(nodes: Seq<NodeSpec>, id: Id32, n: nat)
    requires
        n < nodes.len(),
    ensures
        some_book_has(nodes, id, n + 1) <==> some_book_has(nodes, id, n) || book_has_id(
            nodes[n as int].book,
            id,
        ),
{
    if some_book_has(nodes, id, n) {
        let i = choose|i: int| 0 <= i < n && book_has_id((#[trigger] nodes[i]).book, id);
        assert(book_has_id(nodes[i].book, id));
    }
    if book_has_id(nodes[n as int].book, id) {
        assert(nodes[n as int] == nodes[n as int]);
    }
    if some_book_has(nodes, id, n + 1) {
        let i = choose|i: int| 0 <= i < n + 1 && book_has_id((#[trigger] nodes[i]).book, id);
        if i < n {
            assert(book_has_id(nodes[i].book, id));
        }
    }
}

/// Does what an agent asks for. An order that it places gets the given id.
pub fn act(sim: &mut MultiNodeSimulation, req: &ActionRequest, id: Id32) -> (r: ActionResponse)
    requires
        next_nonce(old(sim)@) <= u64::MAX,
    ensures
        action_comes_to(old(sim)@, *req, id, final(sim)@, r@),
{
    if req.action == "place_order".to_owned() {
        place(sim, req, id)
    } else if req.action == "cancel_order".to_owned() {
        withdraw(sim, req)
    } else if req.action == "hold".to_owned() {
        ActionResponse {
            status: "success".to_owned(),
            message: "Holding position".to_owned(),
            order_id: None,
        }
    } else {
        turn_down(joined("Unknown action: ", req.action.as_str()))
    }
}

/// Does what an agent asks for. An order that it places gets an id by chance.
pub fn post_action(sim: &mut MultiNodeSimulation, req: &ActionRequest) -> (r: ActionResponse)
    requires
        next_nonce(old(sim)@) <= u64::MAX,
    ensures
        exists|id: Id32| #[trigger] action_comes_to(old(sim)@, *req, id, final(sim)@, r@),
{
    let id: Id32 = random_id();
    act(sim, req, id)
}

/// An order that is turned down changes nothing.
pub proof fn law_refused_order_changes_nothing(
    s: SimSpec,
    req: ActionRequest,
    id: Id32,
    after: SimSpec,
    r: ActionSpec,
)
    requires
        places(s, req, id, after, r),
        order_fault(s, req) is Some,
    ensures
        after == s,
        r.status == "error"@,
{
}

/// An order that an agent has placed is open, under the id that it got.
pub proof fn law_placed_order_is_open(
    s: SimSpec,
    req: ActionRequest,
    id: Id32,
    after: SimSpec,
    r: ActionSpec,
)
    requires
        places(s, req, id, after, r),
        order_fault(s, req) is None,
    ensures
        agent_has(after.agents, req.agent_id@, id),
{
    let agent = req.agent_id@;
    let trader = choose|trader: Id32| #[trigger]
        is_trader(trader, agent) && after == order_placed(
            s,
            req,
            placed_order(s, req, id, trader),
        );
    let o = placed_order(s, req, id, trader);
    let a = ordered(s.agents[agent], o);
    assert(after.agents[agent] == a);
    let n = a.open_orders.len() - 1;
    assert(a.open_orders[n].id == id);
    lemma_some_first(a.open_orders, id, n as int);
}

proof fn lemma_some_first(s: Seq<OrderSpec>, id: Id32, i: int)
    requires
        0 <= i < s.len(),
        s[i].id == id,
    ensures
        has_order(s, id),
    decreases i,
{
    if forall|j: int| 0 <= j < i ==> (#[trigger] s[j]).id != id {
        assert(crate::agents::first_with_id(s, id, i));
    } else {
        let j = choose|j: int| 0 <= j < i && (#[trigger] s[j]).id == id;
        lemma_some_first(s, id, j);
    }
}

/// `buy`, each letter in either case.
pub open spec fn says_buy(t: Seq<char>) -> bool {
    &&& t.len() == 3
    &&& t[0] == 'b' || t[0] == 'B'
    &&& t[1] == 'u' || t[1] == 'U'
    &&& t[2] == 'y' || t[2] == 'Y'
}

/// A request, read as it is meant: what is not said is a buy of one at three thousand, at node zero.
pub open spec fn is_request(
    req: ActionRequest,
    buying: bool,
    price: u64,
    amount: u64,
    node: u32,
) -> bool {
    &&& buying == (req.side is None || says_buy(req.side->0@))
    &&& req.price is Some ==> price == req.price->0
    &&& req.price is None ==> price == 3000
    &&& req.amount is Some ==> amount == req.amount->0
    &&& req.amount is None ==> amount == 1
    &&& req.node_id is Some ==> node == req.node_id->0
    &&& req.node_id is None ==> node == 0
}

/// When an order is placed. It is placed exactly where it asks for something at some price, its agent
/// is known, and the agent has the money to buy or the goods to sell what it asks for; otherwise nothing
/// changes and the agent is told of an error. Placed, it is the order that was asked for, of the agent's
/// key; the agent has it open, behind what was open before, and the node has it to send out.
pub proof fn law_covered_orders_are_placed(
    s: SimSpec,
    req: ActionRequest,
    id: Id32,
    after: SimSpec,
    r: ActionSpec,
    buying: bool,
    price: u64,
    amount: u64,
    node: u32,
)
    requires
        places(s, req, id, after, r),
        is_request(req, buying, price, amount, node),
    ensures
        ({
            let agent = req.agent_id@;
            let a = s.agents[agent];
            let b = after.agents[agent];
            let o = b.open_orders.last();
            let covered = price > 0 && amount > 0 && s.agents.contains_key(agent) && if buying {
                amount * price <= a.balance
            } else {
                amount <= a.position
            };
            &&& covered ==> {
                &&& r.status == "success"@ && r.order_id == Some(hex_text(id@))
                &&& is_asked_for(o, req, id, price, amount, buying)
                &&& o.nonce == (s.step_number * 1000 + s.trades.len()) as u64
                &&& b.open_orders == a.open_orders.push(o)
                &&& b == (AgentSpec {
                    open_orders: b.open_orders,
                    last_action: "place_order"@,
                    ..a
                })
                &&& after.agents == s.agents.insert(agent, b)
                &&& waits_at(s, after, o, node)
            }
            &&& !covered ==> r.status == "error"@ && r.order_id is None && after == s
        }),
{
    reveal_strlit("buy");
    let agent = req.agent_id@;
    assert("buy"@.len() == 3 && "buy"@[0] == 'b' && "buy"@[1] == 'u' && "buy"@[2] == 'y');
    assert(buying == (asked_side(req) == OrderSide::Buy));
    assert(price == asked_price(req) && amount == asked_amount(req) && node == node_asked(req));
    if order_fault(s, req) is None {
        let trader = choose|trader: Id32| #[trigger]
            is_trader(trader, agent) && after == order_placed(
                s,
                req,
                placed_order(s, req, id, trader),
            ) && r == (ActionSpec {
                status: "success"@,
                message: "Order placed at node "@ + decimal_text(node_asked(req) as nat),
                order_id: Some(hex_text(id@)),
            });
        let o = placed_order(s, req, id, trader);
        assert(after.agents[agent].open_orders.last() == o);
        if node < s.nodes.len() && s.nodes[node as int].online {
            assert(after.nodes[node as int].pending.drop_last() =~= s.nodes[node as int].pending);
        }
        assert(waits_at(s, after, o, node));
    }
}

/// An order is the one that a request asks for.
pub open spec fn is_asked_for(
    o: OrderSpec,
    req: ActionRequest,
    id: Id32,
    price: u64,
    amount: u64,
    buying: bool,
) -> bool {
    &&& o.id == id
    &&& o.trader@ == trader_key(req.agent_id@)
    &&& o.symbol == req.symbol@
    &&& o.price == price
    &&& o.amount == amount
    &&& o.side == if buying {
        OrderSide::Buy
    } else {
        OrderSide::Sell
    }
}

/// A node that is there and online has an order to send out, now, behind what waits there already; no
/// other node does, and none does where the node is not there or not online. All else but the agents
/// is as it was.
pub open spec fn waits_at(s: SimSpec, after: SimSpec, o: OrderSpec, node: u32) -> bool {
    let n = s.nodes[node as int];
    let there = node < s.nodes.len() && n.online;
    &&& after == (SimSpec { agents: after.agents, nodes: after.nodes, ..s })
    &&& after.nodes.len() == s.nodes.len()
    &&& forall|i: int|
        0 <= i < s.nodes.len() && (i != node || !there) ==> #[trigger] after.nodes[i] == s.nodes[i]
    &&& there ==> ({
        let m = after.nodes[node as int];
        &&& m.pending.len() == n.pending.len() + 1
        &&& m.pending.drop_last() == n.pending
        &&& m.pending.last().0 == s.now_us
        &&& m.pending.last().1.order == o
        &&& m.pending.last().1.hop_count == 0
        &&& m.pending.last().1.path == seq![n.id]
        &&& m == (NodeSpec { pending: m.pending, ..n })
    })
}

/// What cancelling does: the order is withdrawn from every node's book and from the agent's open
/// orders, and the agent is told that it was where any of these had it. Text that is no id changes
/// nothing. Nothing else of a node or an agent changes, and no other agent does.
pub proof fn law_cancelling_reaches_every_book(
    s: SimSpec,
    req: ActionRequest,
    id: Id32,
    i: int,
    other: Seq<char>,
)
    requires
        req.order_id is Some,
        id_read(req.order_id->0@) == Some(id),
        0 <= i < s.nodes.len(),
        other != req.agent_id@,
    ensures
        ({
            let (a, r) = withdrawal(s, req);
            let agent = req.agent_id@;
            let in_a_book = exists|k: int|
                0 <= k < s.nodes.len() && book_has_id((#[trigger] s.nodes[k]).book, id);
            let open = s.agents.contains_key(agent) && exists|k: int|
                0 <= k < s.agents[agent].open_orders.len() && (
                #[trigger] s.agents[agent].open_orders[k]).id == id;
            &&& a.nodes.len() == s.nodes.len()
            &&& a.nodes[i] == (NodeSpec { book: book_without(s.nodes[i].book, id), ..s.nodes[i] })
            &&& a.agents.dom() == s.agents.dom()
            &&& a.agents[other] == s.agents[other]
            &&& open ==> a.agents[agent] == cancelled(s.agents[agent], id)
            &&& !open ==> a.agents == s.agents
            &&& in_a_book || open ==> r.status == "success"@ && r.order_id == Some(
                req.order_id->0@,
            )
            &&& !in_a_book && !open ==> r.status == "error"@ && r.order_id is None
            &&& a == (SimSpec { nodes: a.nodes, agents: a.agents, ..s })
        }),
{
    let agent = req.agent_id@;
    let (a, r) = withdrawal(s, req);
    if s.agents.contains_key(agent) {
        let q = s.agents[agent].open_orders;
        if exists|k: int| 0 <= k < q.len() && (#[trigger] q[k]).id == id {
            let k = choose|k: int| 0 <= k < q.len() && (#[trigger] q[k]).id == id;
            lemma_some_first(q, id, k);
        }
        if has_order(q, id) {
            let k = choose|k: int| #[trigger] crate::agents::first_with_id(q, id, k);
            assert(q[k].id == id);
        }
    }
    assert(a.agents.dom() =~= s.agents.dom());
}

/// What an agent asks for is what is done: placing and cancelling do that, holding does nothing and
/// succeeds, and anything else does nothing and is an error.
pub proof fn law_requests_do_what_they_name(
    s: SimSpec,
    req: ActionRequest,
    id: Id32,
    after: SimSpec,
    r: ActionSpec,
)
    requires
        action_comes_to(s, req, id, after, r),
    ensures
        req.action@ == "place_order"@ ==> places(s, req, id, after, r),
        req.action@ == "cancel_order"@ ==> (after, r) == withdrawal(s, req),
        req.action@ == "hold"@ ==> after == s && r.status == "success"@,
        req.action@ != "place_order"@ && req.action@ != "cancel_order"@ && req.action@ != "hold"@
            ==> after == s && r.status == "error"@,
{
    reveal_strlit("place_order");
    reveal_strlit("cancel_order");
    reveal_strlit("hold");
    assert("place_order"@.len() == 11 && "cancel_order"@.len() == 12 && "hold"@.len() == 4);
}

} // verus!
