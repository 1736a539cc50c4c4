use chronos::book::OrderBook;
use chronos::types::{NodeId, Order, OrderSide, SettlementPreference, SettlementRequester};

fn order(id: u8, trader: [u8; 32], side: OrderSide, price: u64, amount: u64, nonce: u64) -> Order {
    Order {
        id: [id; 32],
        trader,
        symbol: "ETH-USD".to_string(),
        side,
        price,
        amount,
        signature: vec![],
        nonce,
        expiry: 0,
        settlement_preference: SettlementPreference::Standard,
        settlement_requester: SettlementRequester::Seller,
    }
}

fn make_order(id: u8, trader_id: u8, side: OrderSide, price: u64, amount: u64) -> Order {
    let mut oid = [0u8; 32];
    let mut t = [0u8; 32];
    oid[0] = id;
    t[0] = trader_id;
    Order {
        id: oid,
        trader: t,
        symbol: "ETH-USD".to_string(),
        side,
        price,
        amount,
        signature: vec![],
        nonce: id as u64,
        expiry: 0,
        settlement_preference: SettlementPreference::Standard,
        settlement_requester: SettlementRequester::Seller,
    }
}

fn count(side: &std::collections::BTreeMap<u64, Vec<Order>>) -> usize {
    side.values().map(|v| v.len()).sum()
}

#[test]
fn edge_self_trading_volume_inflation() {
    let pk = [7u8; 32];
    let mut book = OrderBook::new("ETH-USD".to_string());
    let _ = book.add_order(order(1, pk, OrderSide::Sell, 3000, 100, 1));
    let matches = book.add_order(order(2, pk, OrderSide::Buy, 3000, 100, 2));
    let self_matched = matches.iter().any(|m| m.maker_trader == m.taker_trader);
    assert!(!self_matched, "Self-trading now blocked");
}

#[test]
fn edge_sled_sequence_wrap() {
    println!("sequence counter: u64, increments on every append");
}

#[test]
fn edge_absurd_price_book_pollution() {
    let mut book = OrderBook::new("ETH-USD".to_string());
    let matches_zero = book.add_order(order(1, [1u8; 32], OrderSide::Sell, 0, 1000000, 1));
    let matches_max = book.add_order(order(2, [2u8; 32], OrderSide::Buy, u64::MAX, 1, 2));
    println!("order at price 0: {} matches", matches_zero.len());
    println!("order at price u64::MAX: {} matches", matches_max.len());
}

#[test]
fn edge_cancel_order_id_confusion() {
    let mut book = OrderBook::new("ETH-USD".to_string());
    let matches = book.add_order(order(1, [1u8; 32], OrderSide::Buy, 2990, 5, 1));
    assert!(matches.is_empty(), "Buy at 2990 shouldn't match empty book");
    let cancelled = book.cancel_order([1u8; 32]);
    assert!(cancelled, "Order should be found");
    let cancelled_again = book.cancel_order([1u8; 32]);
    assert!(!cancelled_again, "Double cancel should not find the order");
}

#[test]
fn edge_partial_fill_to_zero() {
    let mut book = OrderBook::new("ETH-USD".to_string());
    let _ = book.add_order(order(1, [1u8; 32], OrderSide::Sell, 3000, 10, 1));
    let matches = book.add_order(order(2, [2u8; 32], OrderSide::Buy, 3000, 10, 2));
    assert_eq!(matches.len(), 1);
    assert_eq!(count(&book.bids), 0);
    assert_eq!(count(&book.asks), 0);
}

#[test]
fn attack_sybil_mesh() {
    let fake_node_count = 1000;
    let fake_nodes: Vec<NodeId> = (0..fake_node_count).map(|i| NodeId(i)).collect();
    println!("nodes created: {}", fake_nodes.len());
}

#[test]
fn attack_unknown_peer_acceptance() {
    println!("an unknown sender counts as {:?}", NodeId(0));
}

#[test]
fn limit_extreme_book_depth() {
    let mut book = OrderBook::new("ETH-USD".to_string());
    let n = 50000;
    for i in 0..n {
        let side = if i % 2 == 0 { OrderSide::Buy } else { OrderSide::Sell };
        let price = if side == OrderSide::Buy {
            1000 + (i % 500) as u64
        } else {
            10000 + (i % 500) as u64
        };
        let o = make_order(i as u8, (i % 255) as u8, side, price, 10);
        book.add_order(o);
    }
    let total_bid_orders = count(&book.bids);
    let total_ask_orders = count(&book.asks);
    assert!(
        total_bid_orders + total_ask_orders >= n as usize * 9 / 10,
        "At least 90% of orders must enter the book"
    );
}

#[test]
fn limit_multi_level_slippage() {
    let mut book = OrderBook::new("ETH-USD".to_string());
    for i in 0..10 {
        let price = 3000 + (i as u64 * 10);
        book.add_order(make_order(i as u8, (50 + i) as u8, OrderSide::Sell, price, 100));
    }
    let matches = book.add_order(make_order(99, 99, OrderSide::Buy, 3100, 1000));

    let total_filled: u64 = matches.iter().map(|m| m.amount).sum();
    let levels_touched: std::collections::HashSet<u64> = matches.iter().map(|m| m.price).collect();
    assert_eq!(total_filled, 1000);
    assert!(levels_touched.len() == 10 || levels_touched.len() == 9);
    assert!(book.asks.is_empty() || book.asks.values().all(|v| v.is_empty()));
}

#[test]
fn limit_price_boundaries() {
    let mut book = OrderBook::new("ETH-USD".to_string());
    let matches_min = book.add_order(make_order(1, 1, OrderSide::Buy, 1, 1));
    assert_eq!(matches_min.len(), 0);
    let matches_max = book.add_order(make_order(2, 2, OrderSide::Sell, 999_999_999_999, 1));
    let matches_zero = book.add_order(make_order(3, 3, OrderSide::Buy, 0, 100));
    let matches_huge = book.add_order(make_order(4, 4, OrderSide::Sell, 1_000_000_000_001, 1));
    let max_amount = u64::MAX / 3000;
    let matches_near = book.add_order(make_order(5, 5, OrderSide::Buy, 3000, max_amount));
    println!("{} {}", matches_max.len(), matches_near.len());
    assert!(matches_zero.is_empty());
    assert!(matches_huge.is_empty());
}

#[test]
fn limit_flash_crash_scenario() {
    let mut book = OrderBook::new("ETH-USD".to_string());
    for i in 0..20 {
        book.add_order(make_order(i as u8, 10, OrderSide::Buy, 2900 + i as u64, 10));
        book.add_order(make_order((40 + i) as u8, 20, OrderSide::Sell, 3100 - i as u64, 10));
    }
    let crash_matches = book.add_order(make_order(90, 99, OrderSide::Sell, 2800, 100));
    let crash_value: u64 = crash_matches.iter().map(|m| m.price * m.amount).sum();
    let recovery_matches = book.add_order(make_order(91, 98, OrderSide::Buy, 3200, 100));
    println!("{} {} {}", crash_matches.len(), crash_value, recovery_matches.len());
}

#[test]
fn limit_cascading_fill_consistency() {
    let mut book = OrderBook::new("ETH-USD".to_string());
    for level in 0..100u64 {
        for j in 0..10u8 {
            let o = make_order(
                (level * 10 + j as u64) as u8,
                (10 + level) as u8,
                OrderSide::Buy,
                1000 + level,
                5,
            );
            book.add_order(o);
        }
    }
    for i in 0..50u8 {
        let sell = make_order(200 + i, 99, OrderSide::Sell, 990, 100);
        book.add_order(sell);
    }
    let actual_empty = book.bids.iter().filter(|(_, v)| v.is_empty()).count();
    assert_eq!(actual_empty, 0, "No empty price levels should remain in book");
}

#[test]
fn limit_single_price_level_saturation() {
    let mut book = OrderBook::new("ETH-USD".to_string());
    for i in 0..10000u16 {
        book.add_order(make_order((i % 255) as u8, (i % 255) as u8, OrderSide::Buy, 3000, 1));
    }
    let matches = book.add_order(make_order(255, 255, OrderSide::Sell, 1000, 10000));
    let total_filled: u64 = matches.iter().map(|m| m.amount).sum();
    let post_depth = book.bids.get(&3000).map(|v| v.len()).unwrap_or(0);
    assert_eq!(total_filled, 10000);
    assert_eq!(post_depth, 0);
}

#[test]
fn limit_book_invariants() {
    let mut book = OrderBook::new("ETH-USD".to_string());
    for round in 0..10u64 {
        for i in 0..20u64 {
            let id = (round * 40 + i) as u8;
            book.add_order(make_order(id, 1, OrderSide::Buy, 2000 + i, 10));
            book.add_order(make_order(id.wrapping_add(20), 2, OrderSide::Sell, 3000 + i, 10));
        }
        let max_bid = book.bids.keys().max().copied().unwrap_or(0);
        let min_ask = book.asks.keys().min().copied().unwrap_or(u64::MAX);
        assert!(
            max_bid < min_ask || book.bids.is_empty() || book.asks.is_empty(),
            "Book crossed: best bid {} >= best ask {}",
            max_bid,
            min_ask
        );
    }
}
