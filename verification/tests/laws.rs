use chronos::agents::{AgentConfig, AgentTracker};
use chronos::batcher::{ProverBackend, SettlementBatcher, TradeBatch};
use chronos::book::OrderBook;
use chronos::bytes::{u64_to_bytes32, word_to_u64};
use chronos::fees::{clamp_fee_basis_points, fee_at_rate};
use chronos::server::{AppState, SubmitOrderRequest};
use chronos::types::{
    Match, NodeId, Order, OrderSide, SettlementPreference, SettlementRequester,
};

struct Prover;

impl ProverBackend for Prover {
    fn prove_batch(&self, _batch: &TradeBatch) -> Result<Vec<u8>, String> {
        Ok(vec![1])
    }
}

fn order(id: u8, side: OrderSide, price: u64, amount: u64) -> Order {
    Order {
        id: [id; 32],
        trader: [id; 32],
        symbol: "ETH-USD".to_string(),
        side,
        price,
        amount,
        signature: vec![],
        nonce: 0,
        expiry: 0,
        settlement_preference: SettlementPreference::Express,
        settlement_requester: SettlementRequester::Seller,
    }
}

#[test]
fn a_fee_is_at_most_a_twentieth() {
    for raw in [0, 1, 5, 50, 500, 10_000] {
        let fee = fee_at_rate(1_000, 3_000, clamp_fee_basis_points(raw));
        assert!(fee <= 1_000 * 3_000 / 20);
    }
    assert_eq!(fee_at_rate(1_000, 3_000, 500), 150_000);
    assert_eq!(fee_at_rate(7, 11, 5), 0);
}

#[test]
fn words_stand_for_their_numbers() {
    for v in [0, 1, 255, 256, u64::MAX] {
        assert_eq!(word_to_u64(&u64_to_bytes32(v)), Some(v));
    }
    assert_eq!(u64_to_bytes32(0x0102)[30..], [1, 2]);
    let mut wide = [0u8; 32];
    wide[23] = 1;
    assert_eq!(word_to_u64(&wide), None);
}

#[test]
fn terms_do_not_depend_on_who_came_first() {
    let mut a = OrderBook::new("ETH-USD".to_string());
    a.add_order_at(order(1, OrderSide::Sell, 3000, 5), 0);
    let x = a.add_order_at(order(2, OrderSide::Buy, 3000, 5), 9_000_000).remove(0);
    let mut b = OrderBook::new("ETH-USD".to_string());
    b.add_order_at(order(2, OrderSide::Buy, 3000, 5), 0);
    let y = b.add_order_at(order(1, OrderSide::Sell, 3000, 5), 9_000_000).remove(0);
    assert_eq!(x.settlement_tier, y.settlement_tier);
    assert_eq!(x.fee_basis_points, y.fee_basis_points);
    assert_eq!(x.seller, y.seller);
    assert_eq!(x.fee_payer, y.fee_payer);
    assert_eq!(x.settlement_deadline, 9 + 3_600);
    assert_eq!(y.settlement_deadline, 9 + 3_600);
    assert_ne!(x.maker_order_id, y.maker_order_id);
}

#[test]
fn older_orders_trade_first() {
    let mut book = OrderBook::new("ETH-USD".to_string());
    for id in 1..4 {
        book.add_order_at(order(id, OrderSide::Sell, 3000, 5), 0);
    }
    let ms = book.add_order_at(order(9, OrderSide::Buy, 3000, 7), 0);
    let got: Vec<(u8, u64)> = ms.iter().map(|m| (m.maker_order_id[0], m.amount)).collect();
    assert_eq!(got, vec![(1, 5), (2, 2)]);
    let left: Vec<(u8, u64)> =
        book.asks[&3000].iter().map(|o| (o.id[0], o.amount)).collect();
    assert_eq!(left, vec![(2, 3), (3, 5)]);
}

fn a_match(id: u8, maker: u8, taker: u8) -> Match {
    Match {
        maker_order_id: [id; 32],
        taker_order_id: [id + 100; 32],
        maker_trader: [maker; 32],
        taker_trader: [taker; 32],
        price: 10,
        amount: 5,
        timestamp_us: 0,
        settlement_tier: SettlementPreference::Instant,
        fee_basis_points: 50,
        seller: [maker; 32],
        fee_payer: [taker; 32],
        settlement_deadline: 0,
        symbol: "ETH-USD".to_string(),
        assigned_node: [0u8; 32],
    }
}

#[test]
fn settlement_moves_money_and_makes_none() {
    let mut b = SettlementBatcher::new();
    b.deposit([1u8; 32], "ETH-USD", 30);
    b.deposit([2u8; 32], "ETH-USD", 80);
    b.enqueue(a_match(1, 1, 2));
    b.process_batches_at(&Prover, 0);
    assert_eq!(b.balance_of([1u8; 32], "ETH-USD"), 80);
    assert_eq!(b.balance_of([2u8; 32], "ETH-USD"), 30);
}

#[test]
fn one_instant_trade_is_settled_at_a_time() {
    let mut b = SettlementBatcher::new();
    b.deposit([2u8; 32], "ETH-USD", 1_000);
    b.enqueue(a_match(1, 1, 2));
    b.enqueue(a_match(2, 1, 2));
    let batches = b.process_batches_at(&Prover, 0);
    assert_eq!(batches.len(), 1);
    assert_eq!(batches[0].trades.len(), 1);
    assert_eq!(batches[0].trades[0].maker_order_id, [1u8; 32]);
    assert_eq!(b.queued_trades().len(), 1);
}

#[test]
fn a_trade_between_agents_conserves() {
    let mut t = AgentTracker::new();
    for id in ["amy", "bob"] {
        t.register(AgentConfig {
            id: id.to_string(),
            name: id.to_string(),
            persona: "".to_string(),
            initial_capital: 1_000,
        });
    }
    t.record_trade_buy("bob", 10, 1, &[0u8; 32]);
    t.record_trade_buy("amy", 4, 50, &[1u8; 32]);
    t.record_trade_sell("bob", 4, 50, &[2u8; 32]);
    assert_eq!(t.get_balance("amy").unwrap() + t.get_balance("bob").unwrap(), 1_990);
    assert_eq!(t.get_position("amy").unwrap() + t.get_position("bob").unwrap(), 10);
}

fn request(trader: u8, side: OrderSide, nonce: u64) -> SubmitOrderRequest {
    SubmitOrderRequest {
        trader: [trader; 32],
        symbol: "ETH-USD".to_string(),
        side,
        price: 3000,
        amount: 5,
        signature: vec![],
        nonce,
        expiry: 0,
        settlement_preference: SettlementPreference::Standard,
        settlement_requester: SettlementRequester::Seller,
    }
}

#[test]
fn a_sequence_can_be_applied_in_parts() {
    let venue = || {
        let mut s = AppState::new(NodeId(0), "ETH-USD".to_string(), [1u8; 32], true);
        let ids: Vec<[u8; 32]> = [(1, OrderSide::Sell), (2, OrderSide::Buy), (3, OrderSide::Buy)]
            .into_iter()
            .map(|(t, side)| s.submit_order(request(t, side, 1), true).order_id)
            .collect();
        (s, ids)
    };
    let (mut whole, ids) = venue();
    let ranked: Vec<([u8; 32], u64)> =
        ids.iter().enumerate().map(|(i, id)| (*id, i as u64)).collect();
    let all = whole.apply_sequence(&ranked);
    let (mut parts, _) = venue();
    let mut some = parts.apply_sequence(&ranked[..1].to_vec());
    some.extend(parts.apply_sequence(&ranked[1..].to_vec()));
    assert_eq!(all.len(), 1);
    assert_eq!(some.len(), 1);
    assert_eq!(all[0].taker_order_id, some[0].taker_order_id);
    assert_eq!(whole.order_book.bids[&3000].len(), parts.order_book.bids[&3000].len());
    // What was applied is not applied again.
    assert!(parts.apply_sequence(&ranked).is_empty());
}

// Who holds the log of orders can work out what must have been matched.
#[test]
fn matches_follow_from_the_log_of_orders() {
    let mut s = AppState::new(NodeId(0), "ETH-USD".to_string(), [1u8; 32], false);
    s.submit_order(request(1, OrderSide::Sell, 1), true);
    s.submit_order(request(2, OrderSide::Buy, 1), true);
    s.submit_order(request(3, OrderSide::Buy, 1), true);
    let mut book = OrderBook::new("ETH-USD".to_string());
    let mut expected = Vec::new();
    for r in &s.order_log {
        let o = Order {
            id: r.order_id,
            trader: r.trader,
            symbol: r.symbol.clone(),
            side: r.side,
            price: r.price,
            amount: r.amount,
            signature: vec![],
            nonce: r.nonce,
            expiry: r.expiry,
            settlement_preference: SettlementPreference::Standard,
            settlement_requester: SettlementRequester::Seller,
        };
        expected.extend(book.add_order_at(o, 0));
    }
    assert_eq!(expected.len(), s.match_log.len());
    for (e, m) in expected.iter().zip(&s.match_log) {
        assert_eq!(e.maker_order_id, m.maker_order_id);
        assert_eq!(e.taker_order_id, m.taker_order_id);
        assert_eq!((e.price, e.amount), (m.price, m.amount));
    }
}
