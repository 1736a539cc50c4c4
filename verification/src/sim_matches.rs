//! What matches, noise and the passing of time do to a simulated mesh.

use crate::agents::{
    can_trade, ids_view, law_trade_closes_its_order_alone, lemma_keys_equal, lists_agents, traded,
    trader_key, AgentSpec, AgentTracker,
};
use crate::assoc::{entry_is, AssocMap};
use crate::book::BookSpec;
use crate::bytes::{same_id, Id32};
use crate::hexes::hex_text;
use crate::mesh::{nodes_view, pending_view, NodeSpec};
use crate::sim_types::{record_of, trades_view, TradeRecord};
use crate::simulation::{MultiNodeSimulation, SimSpec};
use crate::types::{
    matches_view, originated, FloodMessage, FloodMessageSpec, Match, MatchSpec, Order, OrderSide,
    OrderSpec, SettlementPreference, SettlementRequester,
};
use vstd::prelude::*;

verus! {

/// An agent's part in a trade: it sells where it is the match's seller, and buys otherwise.
pub open spec fn took_part(a: AgentSpec, m: MatchSpec, order_id: Id32) -> AgentSpec {
    traded(a, m.seller@ == trader_key(a.id), m.amount, m.price, order_id)
}

/// An agent's part in a trade can be counted.
pub open spec fn can_take_part(a: AgentSpec, m: MatchSpec) -> bool {
    can_trade(a, m.seller@ == trader_key(a.id), m.amount, m.price)
}

/// An agent after a match in which it may be the maker.
pub open spec fn as_maker(a: AgentSpec, m: MatchSpec) -> AgentSpec {
    if m.maker_trader@ == trader_key(a.id) {
        took_part(a, m, m.maker_order_id)
    } else {
        a
    }
}

/// An agent after a match in which it may be the maker, the taker, or both.
pub open spec fn agent_after(a: AgentSpec, m: MatchSpec) -> AgentSpec {
    let b = as_maker(a, m);
    if m.taker_trader@ == trader_key(a.id) {
        took_part(b, m, m.taker_order_id)
    } else {
        b
    }
}

/// What a match does to an agent can be counted.
pub open spec fn agent_fits(a: AgentSpec, m: MatchSpec) -> bool {
    &&& m.maker_trader@ == trader_key(a.id) ==> can_take_part(a, m)
    &&& m.taker_trader@ == trader_key(a.id) ==> can_take_part(as_maker(a, m), m)
}

/// The agents after a match.
pub open spec fn agents_after(agents: Map<Seq<char>, AgentSpec>, m: MatchSpec) -> Map<
    Seq<char>,
    AgentSpec,
> {
    agents.map_values(|a: AgentSpec| agent_after(a, m))
}

/// What a match does can be counted.
pub open spec fn match_fits(s: SimSpec, m: MatchSpec) -> bool {
    &&& s.volume + m.amount <= u64::MAX
    &&& forall|id: Seq<char>| #[trigger] s.agents.contains_key(id) ==> agent_fits(s.agents[id], m)
}

/// The simulation after a match has taken effect.
pub open spec fn matched(s: SimSpec, m: MatchSpec, node_id: u32) -> SimSpec {
    SimSpec {
        volume: (s.volume + m.amount) as u64,
        agents: agents_after(s.agents, m),
        trades: s.trades.push(record_of(m, s.now_us, node_id)),
        ..s
    }
}

/// What became of committing a match on the chain. A match whose payer has no account there is
/// not committed at all.
#[derive(Clone, Copy, Debug, PartialEq, Eq, Structural)]
pub enum CommitOutcome {
    NotOnChain,
    Committed,
    Failed,
}

/// A match takes effect unless committing it has failed.
pub open spec fn settled(s: SimSpec, m: MatchSpec, node_id: u32, outcome: CommitOutcome) -> SimSpec {
    if outcome == CommitOutcome::Failed {
        s
    } else {
        let t = matched(s, m, node_id);
        SimSpec { step_matches: t.step_matches.push(m), ..t }
    }
}

/// An agent on the chain trades by a key.
pub open spec fn some_payer(onchain: Map<Seq<char>, Id32>, key: Id32) -> bool {
    exists|id: Seq<char>| #[trigger] onchain.contains_key(id) && onchain[id] == key
}

/// The keys by which agents trade, by the agents' ids.
pub open spec fn lists_keys(s: Seq<(String, Id32)>, order: Seq<Seq<char>>) -> bool {
    s.len() == order.len() && forall|i: int|
        0 <= i < s.len() ==> (#[trigger] s[i]).0@ == order[i] && s[i].1@ == trader_key(
            order[i],
        )
}

/// Where the chain assigns matches: every node's book assigns them to one node.
pub open spec fn assigned_to(nodes: Seq<NodeSpec>, node: Id32) -> Seq<NodeSpec> {
    Seq::new(
        nodes.len(),
        |i: int|
            NodeSpec {
                book: BookSpec { nodes: seq![node], cursor: 0, ..nodes[i].book },
                ..nodes[i]
            },
    )
}

/// Nothing has been matched yet in this step.
pub open spec fn counts_reset(nodes: Seq<NodeSpec>) -> Seq<NodeSpec> {
    Seq::new(nodes.len(), |i: int| NodeSpec { matches_this_step: 0, ..nodes[i] })
}

/// What chance says of an order of background noise.
#[derive(Clone, Debug)]
pub struct NoiseDraw {
    pub id: Id32,
    pub trader: Id32,
    pub buy: bool,
    pub price: u64,
    pub amount: u64,
}

/// An order of background noise. Its price is at least one.
pub open spec fn noise_order(symbol: Seq<char>, d: NoiseDraw, nonce: u64) -> OrderSpec {
    OrderSpec {
        id: d.id,
        trader: d.trader,
        symbol,
        side: if d.buy {
            OrderSide::Buy
        } else {
            OrderSide::Sell
        },
        price: if d.price == 0 {
            1
        } else {
            d.price
        },
        amount: d.amount,
        signature: Seq::empty(),
        nonce,
        expiry: 1_000_000,
        settlement_preference: SettlementPreference::Standard,
        settlement_requester: SettlementRequester::Seller,
    }
}

/// Makes an order of background noise.
pub fn make_noise_order(symbol: &str, d: &NoiseDraw, nonce: u64) -> (r: Order)
    ensures
        r@ == noise_order(symbol@, *d, nonce),
{
    let r = Order {
        id: d.id,
        trader: d.trader,
        symbol: symbol.to_owned(),
        side: if d.buy {
            OrderSide::Buy
        } else {
            OrderSide::Sell
        },
        price: if d.price == 0 {
            1
        } else {
            d.price
        },
        amount: d.amount,
        signature: Vec::new(),
        nonce,
        expiry: 1_000_000,
        settlement_preference: SettlementPreference::Standard,
        settlement_requester: SettlementRequester::Seller,
    };
    assert(r@ =~= noise_order(symbol@, *d, nonce));
    r
}

/// The number of a step's orders of background noise, of which a node gets `count`.
pub open spec fn noise_nonce(step_number: u64, per_step: u64, count: nat) -> int {
    step_number * per_step + count
}

/// The first `n` orders of noise wait at a node.
pub open spec fn noisy_node(
    node: NodeSpec,
    symbol: Seq<char>,
    now_us: u64,
    draws: Seq<NoiseDraw>,
    nonce: u64,
    n: nat,
) -> NodeSpec {
    NodeSpec {
        pending: node.pending + Seq::new(
            n,
            |k: int|
                (
                    now_us,
                    originated(
                        noise_order(symbol, draws[k], nonce),
                        node.id,
                        node.region,
                        now_us,
                    ),
                ),
        ),
        ..node
    }
}

/// Noise waits at every node that is online.
pub open spec fn noisy_nodes(s: SimSpec, draws: Seq<Vec<NoiseDraw>>) -> Seq<NodeSpec> {
    Seq::new(
        s.nodes.len(),
        |i: int|
            if s.nodes[i].online {
                noisy_node(
                    s.nodes[i],
                    s.symbol,
                    s.now_us,
                    draws[i]@,
                    noise_nonce(s.step_number, 1000, draws[i]@.len()) as u64,
                    draws[i]@.len(),
                )
            } else {
                s.nodes[i]
            },
    )
}

impl MultiNodeSimulation {
    /// Whether what a match does can be counted.
    pub fn can_process(&self, m: &Match) -> (r: bool)
        ensures
            r == match_fits(self@, m@),
    {
        if self.total_volume > u64::MAX - m.amount {
            return false;
        }
        let ids: Vec<String> = self.agents.agent_ids();
        let ghost order = self.agents.order();
        let mut i: usize = 0;
        while i < ids.len()
            invariant
                i <= ids@.len(),
                ids_view(ids@) == order,
                order == self.agents.order(),
                lists_agents(order, self@.agents),
                self@.volume + m.amount <= u64::MAX,
                forall|k: int|
                    0 <= k < i ==> agent_fits(self@.agents[#[trigger] order[k]], m@),
            decreases ids@.len() - i,
        {
            proof {
                assert(order[i as int] == ids@[i as int]@);
                assert(order.contains(order[i as int]));
            }
            if !self.agents.match_fits(ids[i].as_str(), m) {
                return false;
            }
            i = i + 1;
        }
        proof {
            assert forall|id: Seq<char>| #[trigger]
                self@.agents.contains_key(id) implies agent_fits(self@.agents[id], m@) by {
                assert(order.contains(id));
                let k = choose|k: int| 0 <= k < order.len() && order[k] == id;
                assert(agent_fits(self@.agents[order[k]], m@));
            }
        }
        true
    }

    /// A match takes effect on the agents that took part in it, and is on record.
    pub fn process_agent_match(&mut self, m: &Match, node_id: u32)
        requires
            match_fits(old(self)@, m@),
        ensures
            final(self)@ == matched(old(self)@, m@, node_id),
    {
        let ghost s = self@;
        self.total_volume = self.total_volume + m.amount;
        let ids: Vec<String> = self.agents.agent_ids();
        let ghost order = self.agents.order();
        let mut i: usize = 0;
        while i < ids.len()
            invariant
                i <= ids@.len(),
                ids_view(ids@) == order,
                lists_agents(order, s.agents),
                match_fits(s, m@),
                self@ == (SimSpec {
                    volume: (s.volume + m.amount) as u64,
                    agents: self.agents@,
                    ..s
                }),
                self.agents@.dom() == s.agents.dom(),
                forall|k: int|
                    0 <= k < i ==> self.agents@[#[trigger] order[k]] == agent_after(
                        s.agents[order[k]],
                        m@,
                    ),
                forall|k: int|
                    i <= k < order.len() ==> self.agents@[#[trigger] order[k]] == s.agents[order[k]],
            decreases ids@.len() - i,
        {
            let ghost before = self.agents@;
            let ghost id = order[i as int];
            proof {
                assert(id == ids@[i as int]@);
                assert(order.contains(id));
                assert(s.agents.contains_key(id));
                assert(before.contains_key(id));
                assert(before[id] == s.agents[id]);
                assert(agent_fits(s.agents[id], m@));
            }
            self.agents.apply_match(ids[i].as_str(), m);
            proof {
                assert(self.agents@ == before.insert(id, agent_after(before[id], m@)));
                assert(self.agents@.dom() =~= s.agents.dom());
                assert forall|k: int| 0 <= k < order.len() && k != i implies self.agents@[
                    #[trigger] order[k]
                ] == before[order[k]] by {
                    assert(order[k] != order[i as int]);
                }
            }
            i = i + 1;
        }
        let ghost trades = self.recent_trades@;
        let record: TradeRecord = TradeRecord::of(m, self.virtual_time_us, node_id);
        let ghost rv = record@;
        self.recent_trades.push(record);
        proof {
            assert(trades_view(self.recent_trades@) =~= trades_view(trades).push(rv));
            assert forall|id: Seq<char>| s.agents.contains_key(id) implies #[trigger] self.agents@[id]
                == agents_after(s.agents, m@)[id] by {
                assert(order.contains(id));
                let k = choose|k: int| 0 <= k < order.len() && order[k] == id;
                assert(self.agents@[order[k]] == agent_after(s.agents[order[k]], m@));
            }
            assert(self.agents@ =~= agents_after(s.agents, m@));
            assert(self@ =~= matched(s, m@, node_id));
        }
    }

    /// The agent on the chain that pays a match, if there is one.
    pub fn payer_agent(&self, m: &Match) -> (r: Option<String>)
        ensures
            match r {
                Some(id) => self@.onchain.contains_key(id@) && self@.onchain[id@] == m.fee_payer,
                None => !some_payer(self@.onchain, m.fee_payer),
            },
    {
        let n: usize = self.onchain_agents.len();
        let ghost list = self.onchain_agents.list();
        let mut i: usize = 0;
        while i < n
            invariant
                i <= n,
                n == list.len(),
                list == self.onchain_agents.list(),
                forall|k: int| 0 <= k < i ==> (#[trigger] list[k]).1 != m.fee_payer,
            decreases n - i,
        {
            if same_id(self.onchain_agents.value_at(i), &m.fee_payer) {
                return Some(self.onchain_agents.key_at(i).clone());
            }
            i = i + 1;
        }
        proof {
            if some_payer(self@.onchain, m.fee_payer) {
                let id = choose|id: Seq<char>| #[trigger]
                    self@.onchain.contains_key(id) && self@.onchain[id] == m.fee_payer;
                let k = choose|k: int| #[trigger] entry_is(list, id, k);
                assert(entry_is(list, id, k));
                assert(self@.onchain[id] == list[k].1) by {
                    let j = choose|j: int| #[trigger] entry_is(list, id, j);
                    assert(entry_is(list, id, j));
                }
            }
        }
        None
    }

    /// A match of a round takes effect, unless it was to be committed on the chain and that has
    /// failed.
    pub fn settle_match(&mut self, m: Match, node_id: u32, outcome: CommitOutcome)
        requires
            outcome != CommitOutcome::Failed ==> match_fits(old(self)@, m@),
        ensures
            final(self)@ == settled(old(self)@, m@, node_id, outcome),
    {
        match outcome {
            CommitOutcome::Failed => {},
            _ => {
                self.process_agent_match(&m, node_id);
                let ghost before = self.step_matches@;
                let ghost mv = m@;
                self.step_matches.push(m);
                proof {
                    assert(matches_view(self.step_matches@) =~= matches_view(before).push(mv));
                }
            },
        }
    }

    /// The keys by which the agents trade.
    pub fn agent_keys(&self) -> (r: Vec<(String, Id32)>)
        ensures
            lists_keys(r@, self.agents.order()),
            lists_agents(self.agents.order(), self@.agents),
    {
        let ids: Vec<String> = self.agents.agent_ids();
        let ghost order = self.agents.order();
        let mut out: Vec<(String, Id32)> = Vec::new();
        let mut i: usize = 0;
        while i < ids.len()
            invariant
                i <= ids@.len(),
                ids_view(ids@) == order,
                lists_agents(order, self@.agents),
                out@.len() == i,
                forall|k: int|
                    0 <= k < i ==> (#[trigger] out@[k]).0@ == order[k] && out@[k].1@ == trader_key(
                        order[k],
                    ),
            decreases ids@.len() - i,
        {
            proof {
                assert(order[i as int] == ids@[i as int]@);
                assert(order.contains(order[i as int]));
            }
            match self.agents.get_trader_bytes(ids[i].as_str()) {
                Some(key) => {
                    out.push((ids[i].clone(), key));
                },
                None => {},
            }
            i = i + 1;
        }
        out
    }

    /// The agents have accounts on the chain, and matches are assigned to a node there.
    pub fn install_onchain(&mut self, agents: AssocMap<String, Id32>, assigned_node: Id32)
        ensures
            final(self)@ == (SimSpec {
                nodes: assigned_to(old(self)@.nodes, assigned_node),
                onchain: agents@,
                ..old(self)@
            }),
    {
        let ghost s = self@;
        let count: usize = self.nodes.len();
        let mut i: usize = 0;
        while i < count
            invariant
                i <= count,
                count == self.nodes@.len(),
                count == s.nodes.len(),
                self@ == (SimSpec { nodes: nodes_view(self.nodes@), ..s }),
                forall|k: int|
                    0 <= k < i ==> (#[trigger] self.nodes@[k])@ == assigned_to(
                        s.nodes,
                        assigned_node,
                    )[k],
                forall|k: int| i <= k < count ==> (#[trigger] self.nodes@[k])@ == s.nodes[k],
            decreases count - i,
        {
            let ghost nodes0 = self.nodes@;
            let mut one: Vec<Id32> = Vec::new();
            one.push(assigned_node);
            proof {
                assert(one@ =~= seq![assigned_node]);
            }
            self.nodes[i].orderbook.set_active_nodes(one);
            proof {
                assert(self.nodes@[i as int]@ =~= assigned_to(s.nodes, assigned_node)[i as int]);
                assert(self.nodes@ =~= nodes0.update(i as int, self.nodes@[i as int]));
            }
            i = i + 1;
        }
        self.onchain_agents = agents;
        proof {
            assert(nodes_view(self.nodes@) =~= assigned_to(s.nodes, assigned_node));
        }
    }

    /// A step begins: time passes, and nothing has been matched in it.
    pub fn begin_step(&mut self, duration_us: u64)
        requires
            old(self)@.now_us + duration_us <= u64::MAX,
            old(self)@.step_number < u64::MAX,
        ensures
            final(self)@ == (SimSpec {
                nodes: counts_reset(old(self)@.nodes),
                now_us: (old(self)@.now_us + duration_us) as u64,
                step_number: (old(self)@.step_number + 1) as u64,
                step_matches: Seq::empty(),
                ..old(self)@
            }),
    {
        let ghost s = self@;
        self.step_matches = Vec::new();
        let count: usize = self.nodes.len();
        let mut i: usize = 0;
        proof {
            assert(matches_view(self.step_matches@) =~= Seq::empty());
        }
        while i < count
            invariant
                i <= count,
                count == self.nodes@.len(),
                count == s.nodes.len(),
                self@ == (SimSpec {
                    nodes: nodes_view(self.nodes@),
                    step_matches: Seq::empty(),
                    ..s
                }),
                forall|k: int|
                    0 <= k < i ==> (#[trigger] self.nodes@[k])@ == counts_reset(s.nodes)[k],
                forall|k: int| i <= k < count ==> (#[trigger] self.nodes@[k])@ == s.nodes[k],
            decreases count - i,
        {
            let ghost nodes0 = self.nodes@;
            self.nodes[i].matches_this_step = 0;
            proof {
                assert(self.nodes@[i as int]@ =~= counts_reset(s.nodes)[i as int]);
                assert(self.nodes@ =~= nodes0.update(i as int, self.nodes@[i as int]));
            }
            i = i + 1;
        }
        self.virtual_time_us = self.virtual_time_us + duration_us;
        self.step_number = self.step_number + 1;
        proof {
            assert(nodes_view(self.nodes@) =~= counts_reset(s.nodes));
        }
    }

    /// Hands orders of background noise to the nodes that are online, `draws[i]` to the `i`-th.
    pub fn inject_noise(&mut self, draws: &Vec<Vec<NoiseDraw>>)
        requires
            draws@.len() == old(self)@.nodes.len(),
            forall|i: int|
                0 <= i < draws@.len() ==> noise_nonce(
                    old(self)@.step_number,
                    1000,
                    (#[trigger] draws@[i])@.len(),
                ) <= u64::MAX,
        ensures
            final(self)@ == (SimSpec {
                nodes: noisy_nodes(old(self)@, draws@),
                ..old(self)@
            }),
    {
        let ghost s = self@;
        let count: usize = self.nodes.len();
        let mut i: usize = 0;
        while i < count
            invariant
                i <= count,
                count == self.nodes@.len(),
                count == s.nodes.len(),
                count == draws@.len(),
                forall|k: int|
                    0 <= k < draws@.len() ==> noise_nonce(
                        s.step_number,
                        1000,
                        (#[trigger] draws@[k])@.len(),
                    ) <= u64::MAX,
                self@ == (SimSpec { nodes: nodes_view(self.nodes@), ..s }),
                forall|k: int|
                    0 <= k < i ==> (#[trigger] self.nodes@[k])@ == noisy_nodes(s, draws@)[k],
                forall|k: int| i <= k < count ==> (#[trigger] self.nodes@[k])@ == s.nodes[k],
            decreases count - i,
        {
            let ghost nodes0 = self.nodes@;
            let ghost node = s.nodes[i as int];
            proof {
                assert(nodes0[i as int]@ == node);
            }
            if self.nodes[i].online {
                let noise: &Vec<NoiseDraw> = &draws[i];
                let nonce: u64 = self.step_number * 1000 + noise.len() as u64;
                let mut k: usize = 0;
                proof {
                    assert(node.pending + Seq::new(
                        0nat,
                        |k: int| arbitrary::<(u64, FloodMessageSpec)>(),
                    ) =~= node.pending);
                    assert(noisy_node(node, s.symbol, s.now_us, noise@, nonce, 0) =~= node);
                }
                while k < noise.len()
                    invariant
                        k <= noise@.len(),
                        i < count,
                        count == self.nodes@.len(),
                        self@ == (SimSpec { nodes: nodes_view(self.nodes@), ..s }),
                        self.nodes@.len() == nodes0.len(),
                        self.nodes@[i as int]@ == noisy_node(
                            node,
                            s.symbol,
                            s.now_us,
                            noise@,
                            nonce,
                            k as nat,
                        ),
                        forall|j: int|
                            0 <= j < count && j != i ==> #[trigger] self.nodes@[j] == nodes0[j],
                    decreases noise@.len() - k,
                {
                    let ghost pending = self.nodes@[i as int].pending_messages@;
                    let ghost nodes1 = self.nodes@;
                    let order: Order = make_noise_order(self.symbol.as_str(), &noise[k], nonce);
                    let msg: FloodMessage = FloodMessage::originate(
                        order,
                        self.nodes[i].id,
                        self.nodes[i].region,
                        self.virtual_time_us,
                    );
                    let ghost mv = msg@;
                    let at: u64 = self.virtual_time_us;
                    self.nodes[i].pending_messages.push((at, msg));
                    proof {
                        assert(pending_view(self.nodes@[i as int].pending_messages@)
                            =~= pending_view(pending).push((s.now_us, mv)));
                        assert(self.nodes@[i as int]@.pending =~= noisy_node(
                            node,
                            s.symbol,
                            s.now_us,
                            noise@,
                            nonce,
                            (k + 1) as nat,
                        ).pending);
                        assert(self.nodes@ =~= nodes1.update(i as int, self.nodes@[i as int]));
                    }
                    k = k + 1;
                }
            }
            proof {
                assert(self.nodes@[i as int]@ == noisy_nodes(s, draws@)[i as int]);
                assert forall|k: int| 0 <= k < count && k != i implies (#[trigger] self.nodes@[k])
                    == nodes0[k] by {}
            }
            i = i + 1;
        }
        proof {
            assert(nodes_view(self.nodes@) =~= noisy_nodes(s, draws@));
        }
    }

    /// The trades of this step.
    pub fn step_matches_to_trades(&self) -> (r: Vec<TradeRecord>)
        ensures
            trades_view(r@) == Seq::new(
                self@.step_matches.len(),
                |i: int| record_of(self@.step_matches[i], self@.now_us, 0),
            ),
    {
        let mut out: Vec<TradeRecord> = Vec::new();
        let mut i: usize = 0;
        while i < self.step_matches.len()
            invariant
                i <= self.step_matches@.len(),
                out@.len() == i,
                forall|k: int|
                    0 <= k < i ==> (#[trigger] out@[k])@ == record_of(
                        self.step_matches@[k]@,
                        self.virtual_time_us,
                        0,
                    ),
            decreases self.step_matches@.len() - i,
        {
            out.push(TradeRecord::of(&self.step_matches[i], self.virtual_time_us, 0));
            i = i + 1;
        }
        proof {
            assert(trades_view(out@) =~= Seq::new(
                self@.step_matches.len(),
                |i: int| record_of(self@.step_matches[i], self@.now_us, 0),
            ));
        }
        out
    }
}

impl AgentTracker {
    /// Whether what a match does to an agent can be counted.
    pub fn match_fits(&self, agent_id: &str, m: &Match) -> (r: bool)
        requires
            self@.contains_key(agent_id@),
        ensures
            r == agent_fits(self@[agent_id@], m@),
    {
        let ghost a = self@[agent_id@];
        let key: Id32 = match self.get_trader_bytes(agent_id) {
            Some(k) => k,
            None => {
                return true;
            },
        };
        proof {
            lemma_keys_equal(key, m.maker_trader, a.id);
            lemma_keys_equal(key, m.taker_trader, a.id);
            lemma_keys_equal(key, m.seller, a.id);
        }
        let makes: bool = same_id(&key, &m.maker_trader);
        let takes: bool = same_id(&key, &m.taker_trader);
        if !makes && !takes {
            return true;
        }
        let selling: bool = same_id(&key, &m.seller);
        let r: bool = self.trade_counts(agent_id, selling, makes && takes, m.amount, m.price);
        proof {
            let b = traded(a, selling, m.amount, m.price, m.maker_order_id);
            assert(b.id == a.id);
            assert(as_maker(a, m@) == if makes {
                b
            } else {
                a
            });
        }
        r
    }

    /// What a match does to an agent that may have taken part in it.
    pub fn apply_match(&mut self, agent_id: &str, m: &Match)
        requires
            old(self)@.contains_key(agent_id@),
            agent_fits(old(self)@[agent_id@], m@),
        ensures
            final(self)@ == old(self)@.insert(
                agent_id@,
                agent_after(old(self)@[agent_id@], m@),
            ),
    {
        let ghost before = self@;
        let ghost a = self@[agent_id@];
        let key: Id32 = match self.get_trader_bytes(agent_id) {
            Some(k) => k,
            None => {
                return;
            },
        };
        proof {
            lemma_keys_equal(key, m.maker_trader, a.id);
            lemma_keys_equal(key, m.taker_trader, a.id);
            lemma_keys_equal(key, m.seller, a.id);
            assert(before =~= before.insert(agent_id@, a));
        }
        if same_id(&key, &m.maker_trader) {
            if same_id(&key, &m.seller) {
                self.record_trade_sell(agent_id, m.amount, m.price, &m.maker_order_id);
            } else {
                self.record_trade_buy(agent_id, m.amount, m.price, &m.maker_order_id);
            }
        }
        proof {
            assert(self@ =~= before.insert(agent_id@, as_maker(a, m@)));
        }
        if same_id(&key, &m.taker_trader) {
            if same_id(&key, &m.seller) {
                self.record_trade_sell(agent_id, m.amount, m.price, &m.taker_order_id);
            } else {
                self.record_trade_buy(agent_id, m.amount, m.price, &m.taker_order_id);
            }
        }
        proof {
            assert(self@ =~= before.insert(agent_id@, agent_after(a, m@)));
        }
    }
}

/// What a match does to an agent. The one whose key is the seller's, and who made or took the match,
/// has sold; the one whose key made or took it and is not the seller's has bought; each time the
/// match's amount at its price, and the order of that agent's side of the match is closed. An agent
/// that neither made nor took the match is left alone.
pub proof fn law_matches_reach_their_agents(
    s: SimSpec,
    m: MatchSpec,
    node_id: u32,
    id: Seq<char>,
)
    requires
        match_fits(s, m),
        s.agents.contains_key(id),
        m.maker_trader != m.taker_trader,
        m.amount * m.price <= u64::MAX,
    ensures
        ({
            let a = s.agents[id];
            let b = matched(s, m, node_id).agents[id];
            let key = trader_key(a.id);
            let made = m.maker_trader@ == key;
            let took = m.taker_trader@ == key;
            let sells = m.seller@ == key;
            &&& matched(s, m, node_id).agents.dom() == s.agents.dom()
            &&& !made && !took ==> b == a
            &&& (made || took) && sells ==> {
                &&& m.amount <= a.position ==> b.position == a.position - m.amount
                &&& a.balance + m.amount * m.price <= u64::MAX ==> b.balance == a.balance + m.amount
                    * m.price
                &&& b.trade_count == a.trade_count + 1
            }
            &&& (made || took) && !sells ==> {
                &&& b.position == a.position + m.amount
                &&& m.amount * m.price <= a.balance ==> b.balance == a.balance - m.amount * m.price
                &&& b.trade_count == a.trade_count + 1
                &&& b.realized_pnl == a.realized_pnl
            }
            &&& made ==> b.open_orders == a.open_orders.filter(
                |o: OrderSpec| o.id != m.maker_order_id,
            )
            &&& took ==> b.open_orders == a.open_orders.filter(
                |o: OrderSpec| o.id != m.taker_order_id,
            )
        }),
{
    let a = s.agents[id];
    assert(0 <= m.amount * m.price) by (nonlinear_arith);
    assert(agent_fits(a, m));
    assert(matched(s, m, node_id).agents.dom() =~= s.agents.dom());
    if m.maker_trader@ == m.taker_trader@ {
        assert(m.maker_trader =~= m.taker_trader);
    }
    law_trade_closes_its_order_alone(
        a,
        m.seller@ == trader_key(a.id),
        m.amount,
        m.price,
        m.maker_order_id,
    );
    law_trade_closes_its_order_alone(
        a,
        m.seller@ == trader_key(a.id),
        m.amount,
        m.price,
        m.taker_order_id,
    );
}

/// A match that takes effect adds its amount to the volume and ends the record with its terms and the
/// node that made it; nothing but that and the agents changes. One whose commit has failed has no effect
/// at all, and any other ends the list of the step's matches.
pub proof fn law_failed_commits_have_no_effect(
    s: SimSpec,
    m: MatchSpec,
    node_id: u32,
    outcome: CommitOutcome,
)
    requires
        s.volume + m.amount <= u64::MAX,
    ensures
        ({
            let a = settled(s, m, node_id, outcome);
            let last = a.trades.last();
            &&& outcome == CommitOutcome::Failed ==> a == s
            &&& outcome != CommitOutcome::Failed ==> {
                &&& a.volume == s.volume + m.amount
                &&& a.trades.len() == s.trades.len() + 1
                &&& a.trades.drop_last() == s.trades
                &&& last.price == m.price && last.amount == m.amount && last.symbol == m.symbol
                &&& last.seller == hex_text(m.seller@) && last.buyer == hex_text(m.fee_payer@)
                &&& last.timestamp_us == s.now_us && last.node_id == node_id
                &&& a.step_matches == s.step_matches.push(m)
                &&& a == (SimSpec {
                    volume: a.volume,
                    trades: a.trades,
                    agents: a.agents,
                    step_matches: a.step_matches,
                    ..s
                })
            }
        }),
{
    let a = settled(s, m, node_id, outcome);
    if outcome != CommitOutcome::Failed {
        assert(a.trades.drop_last() =~= s.trades);
    }
}

/// Noise reaches the nodes that are online and no other: each of its draws waits there as an order of
/// the draw's side, amount and price, which is one at least, behind what waits already.
pub proof fn law_noise_waits_at_online_nodes(
    s: SimSpec,
    draws: Seq<Vec<NoiseDraw>>,
    i: int,
    k: int,
)
    requires
        0 <= i < s.nodes.len(),
        0 <= k < draws[i]@.len(),
    ensures
        ({
            let n = s.nodes[i];
            let a = noisy_nodes(s, draws)[i];
            let d = draws[i]@[k];
            let (at, m) = a.pending[n.pending.len() + k];
            &&& noisy_nodes(s, draws).len() == s.nodes.len()
            &&& !n.online ==> a == n
            &&& n.online ==> {
                &&& a.pending.len() == n.pending.len() + draws[i]@.len()
                &&& a.pending.take(n.pending.len() as int) == n.pending
                &&& a == (NodeSpec { pending: a.pending, ..n })
                &&& at == s.now_us
                &&& m.order.id == d.id && m.order.trader == d.trader
                &&& m.order.side == if d.buy {
                    OrderSide::Buy
                } else {
                    OrderSide::Sell
                }
                &&& m.order.amount == d.amount
                &&& m.order.price >= 1 && (d.price >= 1 ==> m.order.price == d.price)
                &&& m.order.symbol == s.symbol
                &&& m.hop_count == 0 && m.path == seq![n.id]
            }
        }),
{
    let n = s.nodes[i];
    let a = noisy_nodes(s, draws)[i];
    if n.online {
        assert(a.pending.take(n.pending.len() as int) =~= n.pending);
    }
}

/// A step begins with no matches counted at any node, and with the chain's node as the only one that
/// any book assigns matches to once the chain is in use; the nodes are otherwise as they were.
pub proof fn law_steps_and_assignments_touch_one_thing(nodes: Seq<NodeSpec>, node: Id32, i: int)
    requires
        0 <= i < nodes.len(),
    ensures
        ({
            let a = counts_reset(nodes)[i];
            let b = assigned_to(nodes, node)[i];
            &&& counts_reset(nodes).len() == nodes.len()
            &&& a.matches_this_step == 0
            &&& nodes[i] == (NodeSpec { matches_this_step: nodes[i].matches_this_step, ..a })
            &&& assigned_to(nodes, node).len() == nodes.len()
            &&& b.book.nodes == seq![node] && b.book.cursor == 0
            &&& b.book.bids == nodes[i].book.bids && b.book.asks == nodes[i].book.asks
            &&& b.book.symbol == nodes[i].book.symbol && b.book.rates == nodes[i].book.rates
            &&& nodes[i] == (NodeSpec { book: nodes[i].book, ..b })
        }),
{
}

} // verus!
