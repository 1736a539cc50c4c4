use chronos::actions::{act, post_action, ActionRequest};
use chronos::agents::{AgentConfig, AgentTracker};
use chronos::assoc::AssocMap;
use chronos::flood::{FloodSchedule, Peer, RoutingTable, SimpleFlood};
use chronos::mesh::LatencyModel;
use chronos::sim_matches::{make_noise_order, CommitOutcome, NoiseDraw};
use chronos::sim_state::SimulationState;
use chronos::sim_types::{
    hex_to_order_id, hex_to_trader_id, label_region, order_id_to_hex, parse_order_side,
    trader_id_to_hex,
};
use chronos::simulation::MultiNodeSimulation;
use chronos::types::{
    FloodMessage, NodeId, Order, OrderSide, Region, SettlementPreference, SettlementRequester,
};

fn order(id: u8, side: OrderSide, price: u64, amount: u64) -> Order {
    Order {
        id: [id; 32],
        trader: [id; 32],
        symbol: "ETH-USD".to_string(),
        side,
        price,
        amount,
        signature: vec![],
        nonce: 0,
        expiry: 0,
        settlement_preference: SettlementPreference::Standard,
        settlement_requester: SettlementRequester::Seller,
    }
}

fn peer(id: u32) -> Peer {
    Peer { id: NodeId(id), latency_us: 10 }
}

fn routing(ids: &[u32]) -> RoutingTable {
    RoutingTable {
        upstream_peers: vec![],
        downstream_peers: ids.iter().map(|i| peer(*i)).collect(),
        zone_peers: vec![],
    }
}

#[test]
fn an_order_floods_once_and_not_back() {
    let mut f = SimpleFlood::new();
    let schedule = FloodSchedule { max_hops: 3 };
    let msg = || FloodMessage::originate(
        order(1, OrderSide::Buy, 3000, 5),
        NodeId(7),
        Region::UsEast1,
        42,
    );
    let sends = f.on_receive(msg(), NodeId(1), &routing(&[1, 2, 7, 8]), &schedule).unwrap();
    let to: Vec<u32> = sends.iter().map(|(n, _)| n.0).collect();
    assert_eq!(to, vec![2, 8]);
    assert_eq!(sends[0].1.hop_count, 1);
    assert_eq!(sends[0].1.path, vec![NodeId(7), NodeId(1)]);
    assert_eq!(sends[0].1.timestamp_us, 42);
    assert!(f.on_receive(msg(), NodeId(1), &routing(&[2]), &schedule).is_err());
    assert_eq!(f.order_book_orders.len(), 1);
}

#[test]
fn absurd_orders_do_not_flood() {
    let mut f = SimpleFlood::new();
    let schedule = FloodSchedule { max_hops: 3 };
    for (price, amount) in [(0, 1), (1, 0), (1_000_000_000_001, 1)] {
        let m = FloodMessage::originate(
            order(1, OrderSide::Buy, price, amount),
            NodeId(7),
            Region::UsEast1,
            0,
        );
        assert!(f.on_receive(m, NodeId(1), &routing(&[2]), &schedule).is_err());
    }
    assert!(f.order_book_orders.is_empty());
    let m = FloodMessage::originate(
        order(1, OrderSide::Buy, 1_000_000_000_000, 1),
        NodeId(7),
        Region::UsEast1,
        0,
    );
    // At the last hop the order is taken in but goes no further.
    assert!(f.on_receive(m, NodeId(1), &routing(&[2]), &FloodSchedule { max_hops: 0 }).is_err());
    assert_eq!(f.order_book_orders.len(), 1);
}

#[test]
fn the_oldest_order_is_forgotten_first() {
    let mut f = SimpleFlood::new();
    let schedule = FloodSchedule { max_hops: 3 };
    let msg = |n: u32| {
        let mut o = order(1, OrderSide::Buy, 3000, 5);
        o.id[..4].copy_from_slice(&n.to_be_bytes());
        FloodMessage::originate(o, NodeId(7), Region::UsEast1, 0)
    };
    for n in 0..100_001 {
        assert!(f.on_receive(msg(n), NodeId(1), &routing(&[]), &schedule).is_ok());
    }
    assert_eq!(f.received_cache.len(), 100_000);
    assert!(f.on_receive(msg(1), NodeId(1), &routing(&[]), &schedule).is_err());
    assert!(f.on_receive(msg(0), NodeId(1), &routing(&[]), &schedule).is_ok());
}

#[test]
fn latencies_are_symmetric() {
    let world = LatencyModel::new();
    let near = LatencyModel::local();
    let regions = [Region::UsEast1, Region::EuWest1, Region::ApSoutheast1];
    for a in regions {
        for b in regions {
            assert_eq!(world.get_latency(a, b), world.get_latency(b, a));
            assert_eq!(near.get_latency(a, b), near.get_latency(b, a));
        }
    }
    assert_eq!(world.get_latency(Region::UsEast1, Region::EuWest1), 75_000);
    assert_eq!(world.get_latency(Region::EuWest1, Region::EuWest1), 5_000);
    assert_eq!(near.get_latency(Region::EuWest1, Region::ApSoutheast1), 35_000);
}

fn config(id: &str, capital: u64) -> AgentConfig {
    AgentConfig {
        id: id.to_string(),
        name: id.to_string(),
        persona: "".to_string(),
        initial_capital: capital,
    }
}

#[test]
fn agents_keep_their_accounts() {
    let mut t = AgentTracker::new();
    t.register(config("amy", 10_000));
    assert_eq!(t.get_balance("amy"), Some(10_000));
    assert_eq!(t.get_position("amy"), Some(0));
    assert_eq!(t.get_balance("bob"), None);
    let key = t.get_trader_bytes("amy").unwrap();
    assert_eq!(key[..4], [b'a', b'm', b'y', 0]);
    t.add_order("amy", order(1, OrderSide::Buy, 100, 10));
    t.record_trade_buy("amy", 10, 100, &[1u8; 32]);
    t.record_trade_buy("amy", 10, 200, &[2u8; 32]);
    assert_eq!(t.get_balance("amy"), Some(7_000));
    assert_eq!(t.get_position("amy"), Some(20));
    // The average price is 150, so that selling ten at 180 earns 300.
    t.record_trade_sell("amy", 10, 180, &[3u8; 32]);
    let s = t.snapshot("amy").unwrap();
    assert_eq!((s.balance, s.position, s.pnl, s.trade_count), (8_800, 10, 300, 3));
    assert_eq!(s.last_action, "trade_executed");
    assert!(s.open_orders.is_empty());
    assert!(t.snapshot("bob").is_none());
    assert_eq!(t.agent_ids(), vec!["amy".to_string()]);
    assert_eq!(t.all_snapshots().len(), 1);
}

#[test]
fn open_orders_can_be_cancelled_once() {
    let mut t = AgentTracker::new();
    t.register(config("amy", 10));
    t.add_order("amy", order(1, OrderSide::Sell, 100, 10));
    let s = t.snapshot("amy").unwrap();
    assert_eq!(s.last_action, "place_order");
    let o = &s.open_orders[0];
    assert_eq!((o.side.as_str(), o.price, o.amount, o.status.as_str()), ("sell", 100, 10, "open"));
    assert_eq!(o.order_id, "01".repeat(32));
    assert!(t.cancel_order("amy", &[1u8; 32]));
    assert!(!t.cancel_order("amy", &[1u8; 32]));
    assert!(!t.cancel_order("bob", &[1u8; 32]));
    assert_eq!(t.snapshot("amy").unwrap().last_action, "cancel_order");
}

fn sim() -> MultiNodeSimulation {
    MultiNodeSimulation::new(
        "ETH-USD".to_string(),
        &[(Region::UsEast1, 2), (Region::EuWest1, 1)],
        true,
        3,
    )
}

fn action(agent: &str, what: &str, side: &str, price: u64, amount: u64) -> ActionRequest {
    ActionRequest {
        agent_id: agent.to_string(),
        action: what.to_string(),
        symbol: "ETH-USD".to_string(),
        node_id: None,
        side: Some(side.to_string()),
        price: Some(price),
        amount: Some(amount),
        order_id: None,
    }
}

#[test]
fn nodes_are_linked_both_ways() {
    let s = sim();
    assert_eq!(s.nodes.len(), 3);
    for a in &s.nodes {
        for p in &a.routing.downstream_peers {
            let back = &s.nodes[p.id.0 as usize].routing.downstream_peers;
            assert!(back.iter().any(|q| q.id == a.id));
        }
    }
}

#[test]
fn an_agents_order_is_matched_with_noise() {
    let mut s = sim();
    s.register_agent(config("amy", 100_000));
    let placed = act(&mut s, &action("amy", "place_order", "buy", 3000, 5), [7u8; 32]);
    assert_eq!(placed.status, "success");
    assert_eq!(placed.message, "Order placed at node 0");
    assert_eq!(placed.order_id, Some("07".repeat(32)));
    let draw = NoiseDraw { id: [8u8; 32], trader: [9u8; 32], buy: false, price: 2900, amount: 5 };
    s.inject_noise(&vec![vec![draw], vec![], vec![]]);
    let matches = s.propagate();
    assert!(!matches.is_empty());
    let (m, node) = (matches[0].0.duplicate(), matches[0].1);
    assert_eq!((m.price, m.amount), (3000, 5));
    assert_eq!(m.taker_order_id, [8u8; 32]);
    assert!(s.can_process(&m));
    assert_eq!(s.payer_agent(&m), None);
    s.settle_match(m.duplicate(), node, CommitOutcome::Failed);
    assert_eq!(s.total_volume, 0);
    s.settle_match(m, node, CommitOutcome::NotOnChain);
    assert_eq!(s.total_volume, 5);
    assert_eq!(s.agents.get_position("amy"), Some(5));
    assert_eq!(s.agents.get_balance("amy"), Some(85_000));
    assert_eq!(s.step_matches_to_trades().len(), 1);
    let report = s.snapshot();
    assert_eq!(report.recent_trades.len(), 1);
    assert_eq!(report.recent_trades[0].price, 3000);
    assert_eq!(report.total_volume, 5);
    assert_eq!(report.book.region, "aggregated");
    assert_eq!(report.nodes.len(), 3);
    s.begin_step(1_000);
    assert_eq!((s.step_number, s.virtual_time_us), (1, 1_000));
    assert!(s.step_matches_to_trades().is_empty());
}

#[test]
fn depth_is_summed_over_the_nodes() {
    let mut s = sim();
    s.nodes[0].orderbook.add_order_at(order(1, OrderSide::Buy, 2990, 5), 0);
    s.nodes[1].orderbook.add_order_at(order(2, OrderSide::Buy, 2990, 6), 0);
    s.nodes[2].orderbook.add_order_at(order(3, OrderSide::Sell, 3010, 7), 0);
    let q = s.quote();
    assert_eq!((q.bid, q.ask), (Some(2990), Some(3010)));
    let r = s.snapshot();
    assert_eq!(
        (r.book.bids[0].price, r.book.bids[0].total_amount),
        (2990, 11)
    );
    assert_eq!(r.book.asks[0].total_amount, 7);
    assert_eq!(r.price_history.len(), 1);
    assert_eq!(r.price_history[0].quote, q);
}

#[test]
fn actions_are_refused_with_a_reason() {
    let mut s = sim();
    s.register_agent(config("amy", 100));
    let message = |s: &mut MultiNodeSimulation, r: &ActionRequest| {
        let a = post_action(s, r);
        assert_eq!(a.status, "error");
        assert!(a.order_id.is_none());
        a.message
    };
    assert_eq!(
        message(&mut s, &action("amy", "place_order", "buy", 0, 1)),
        "Invalid price or amount"
    );
    assert_eq!(
        message(&mut s, &action("bob", "place_order", "buy", 1, 1)),
        "Unknown agent: bob"
    );
    assert_eq!(
        message(&mut s, &action("amy", "place_order", "buy", 3, 50)),
        "Insufficient balance: need 150, have 100"
    );
    assert_eq!(
        message(&mut s, &action("amy", "place_order", "sell", 3, 2)),
        "Insufficient position: need 2, have 0"
    );
    assert_eq!(message(&mut s, &action("amy", "dance", "buy", 3, 2)), "Unknown action: dance");
    let mut cancel = action("amy", "cancel_order", "buy", 1, 1);
    cancel.order_id = Some("xyz".to_string());
    assert_eq!(message(&mut s, &cancel), "Invalid order ID format");
    cancel.order_id = Some("07".repeat(32));
    assert_eq!(message(&mut s, &cancel), "Order not found");
    let hold = post_action(&mut s, &action("amy", "hold", "buy", 1, 1));
    assert_eq!((hold.status.as_str(), hold.message.as_str()), ("success", "Holding position"));
}

#[test]
fn a_placed_order_has_an_id_and_can_be_cancelled() {
    let mut s = sim();
    s.register_agent(config("amy", 1_000));
    let placed = post_action(&mut s, &action("amy", "place_order", "buy", 10, 5));
    let again = post_action(&mut s, &action("amy", "place_order", "buy", 10, 5));
    let id = placed.order_id.unwrap();
    assert_eq!(id.len(), 64);
    assert_ne!(Some(id.clone()), again.order_id);
    assert_eq!(s.agents.snapshot("amy").unwrap().open_orders.len(), 2);
    let mut cancel = action("amy", "cancel_order", "buy", 1, 1);
    cancel.order_id = Some(id);
    let done = post_action(&mut s, &cancel);
    assert_eq!((done.status.as_str(), done.message.as_str()), ("success", "Order cancelled"));
    assert_eq!(s.agents.snapshot("amy").unwrap().open_orders.len(), 1);
}

#[test]
fn the_payer_is_found_among_the_agents_on_the_chain() {
    let mut s = sim();
    s.register_agent(config("amy", 100_000));
    let keys = s.agent_keys();
    assert_eq!(keys.len(), 1);
    let mut onchain = AssocMap::new();
    for (id, key) in keys {
        onchain.insert(id, key);
    }
    s.install_onchain(onchain, [4u8; 32]);
    s.nodes[0].orderbook.add_order_at(order(1, OrderSide::Sell, 3000, 5), 0);
    let mut buy = order(2, OrderSide::Buy, 3000, 5);
    buy.trader = s.agents.get_trader_bytes("amy").unwrap();
    let m = s.nodes[0].orderbook.add_order_at(buy, 0).remove(0);
    assert_eq!(m.assigned_node, [4u8; 32]);
    assert_eq!(s.payer_agent(&m), Some("amy".to_string()));
}

#[test]
fn a_traders_matches_are_handed_out_once() {
    let mut s = SimulationState::new("ETH-USD".to_string());
    s.register_agent(config("amy", 1_000));
    let sell = NoiseDraw { id: [1u8; 32], trader: [2u8; 32], buy: false, price: 100, amount: 5 };
    let buy = NoiseDraw { id: [3u8; 32], trader: [4u8; 32], buy: true, price: 100, amount: 5 };
    s.add_noise(&sell, 1);
    assert_eq!(s.quote().ask, Some(100));
    s.add_noise(&buy, 2);
    assert_eq!(s.matches_buffer.len(), 1);
    assert!(s.drain_matches_for_trader(&[9u8; 32]).is_empty());
    let mine = s.drain_matches_for_trader(&[4u8; 32]);
    assert_eq!(mine.len(), 1);
    assert_eq!((mine[0].price, mine[0].amount), (100, 5));
    assert!(s.drain_matches_for_trader(&[4u8; 32]).is_empty());
    assert!(s.get_book_depth().bids.is_empty());
    let r = s.snapshot();
    assert_eq!((r.symbol.as_str(), r.agents.len()), ("ETH-USD", 1));
}

#[test]
fn noise_has_a_price() {
    let d = NoiseDraw { id: [1u8; 32], trader: [2u8; 32], buy: true, price: 0, amount: 5 };
    let o = make_noise_order("ETH-USD", &d, 9);
    assert_eq!((o.price, o.amount, o.nonce, o.expiry), (1, 5, 9, 1_000_000));
    assert_eq!(o.side, OrderSide::Buy);
}

#[test]
fn ids_read_back_from_text() {
    let id = [0xE5u8; 32];
    assert_eq!(order_id_to_hex(&id), "e5".repeat(32));
    assert_eq!(hex_to_order_id(&order_id_to_hex(&id)), Some(id));
    assert_eq!(hex_to_trader_id(&format!("0x{}", trader_id_to_hex(&id))), Some(id));
    assert_eq!(hex_to_order_id("e5"), None);
    assert_eq!(hex_to_order_id(&"zz".repeat(32)), None);
    assert_eq!(parse_order_side("BuY"), OrderSide::Buy);
    assert_eq!(parse_order_side("anything"), OrderSide::Sell);
    assert_eq!(label_region(Region::ApSoutheast1), "ApSoutheast1");
    assert_eq!(Region::UsEast1.name(), "us-east-1");
}
