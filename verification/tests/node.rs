use chronos::batcher::{ProverBackend, TradeBatch};
use chronos::queries::{
    constant_time_eq, log_root, match_involves, match_log_entries, order_book_depth,
    order_log_entries, parse_trader_hex, read_match_log, read_order_log, spans_archive,
};
use chronos::receipts::{verify_receipt, OrderReceipt};
use chronos::reconcile::reconcile;
use chronos::recovery::replay_persistence_log;
use chronos::server::{
    derive_order_id, AppState, ConfirmCommitRequest, Submission, SubmitOrderRequest, WalEntry,
};
use chronos::snapshot::{apply_snapshot, build_snapshot, load_persistence};
use chronos::types::{
    Match, NodeId, Order, OrderSide, SettlementPreference, SettlementRequester,
};

struct Prover;

impl ProverBackend for Prover {
    fn prove_batch(&self, _batch: &TradeBatch) -> Result<Vec<u8>, String> {
        Ok(vec![1])
    }
}

fn test_state(sequencing: bool) -> AppState {
    AppState::new(NodeId(0), "ETH-USD".to_string(), [3u8; 32], sequencing)
}

fn request(trader: [u8; 32], side: OrderSide, price: u64, amount: u64, nonce: u64) -> SubmitOrderRequest {
    SubmitOrderRequest {
        trader,
        symbol: "ETH-USD".to_string(),
        side,
        price,
        amount,
        signature: vec![0u8; 64],
        nonce,
        expiry: 0,
        settlement_preference: SettlementPreference::Instant,
        settlement_requester: SettlementRequester::Seller,
    }
}

// What a node with a durable log does with a request: it decides, records, and carries on.
fn submit(
    state: &mut AppState,
    wal: &mut Vec<WalEntry>,
    req: SubmitOrderRequest,
) -> chronos::server::SubmitOrderResponse {
    let decision = state.begin_submit(req, true, 1_000);
    match &decision {
        Submission::Queue { order, receipt } => wal.push(WalEntry::OrderQueued {
            order: order.duplicate(),
            receipt: receipt.duplicate(),
        }),
        Submission::Apply { order, receipt } => wal.push(WalEntry::OrderAccepted {
            order: order.duplicate(),
            receipt: receipt.duplicate(),
            match_timestamp_us: None,
        }),
        Submission::Refused { .. } => {}
    }
    state.finish_submit_at(decision, Ok(()), 2_000)
}

fn confirm(state: &mut AppState, wal: &mut Vec<WalEntry>, m: &Match) -> bool {
    let key = (m.maker_order_id, m.taker_order_id);
    if let Some(pending) = state.pending_commits.get(&key) {
        wal.push(WalEntry::CommitConfirmed { m: pending.duplicate(), trade_hash: [0x42u8; 32] });
    }
    state
        .confirm_committed(
            &ConfirmCommitRequest {
                maker_order_id: m.maker_order_id,
                taker_order_id: m.taker_order_id,
                trade_hash: [0x42u8; 32],
            },
            Ok(()),
        )
        .success
}

#[test]
fn test_get_orderbook_empty() {
    let state = test_state(false);
    let book_resp = order_book_depth(&state.order_book);
    assert_eq!(book_resp.symbol, "ETH-USD");
    assert!(book_resp.bids.is_empty());
    assert!(book_resp.asks.is_empty());
}

#[test]
fn test_submit_invalid_signature_order() {
    let mut state = test_state(false);
    let req = SubmitOrderRequest {
        trader: [0u8; 32],
        symbol: "ETH-USD".to_string(),
        side: OrderSide::Buy,
        price: 3000,
        amount: 5,
        signature: vec![0u8; 64],
        nonce: 999,
        expiry: 0,
        settlement_preference: Default::default(),
        settlement_requester: Default::default(),
    };
    let submit_resp = state.submit_order(req, false);
    assert!(!submit_resp.success);
    assert!(submit_resp.error.unwrap().contains("signature"));
    assert!(state.order_book.bids.is_empty());
    assert!(state.order_log.is_empty());
}

#[test]
fn test_parse_trader_hex_rejects_non_hex() {
    assert!(parse_trader_hex("not-hex").is_err());
}

#[test]
fn test_parse_trader_hex_rejects_wrong_length() {
    assert!(parse_trader_hex(&"ab".repeat(16)).is_err());
}

#[test]
fn test_parse_trader_hex_accepts_valid_32_bytes_with_or_without_prefix() {
    let hex64 = "ab".repeat(32);
    assert_eq!(parse_trader_hex(&hex64).unwrap(), [0xABu8; 32]);
    assert_eq!(parse_trader_hex(&format!("0x{hex64}")).unwrap(), [0xABu8; 32]);
}

#[test]
fn malformed_trader_text_is_explained() {
    assert_eq!(
        parse_trader_hex("zz").unwrap_err(),
        "invalid hex: Invalid character 'z' at position 0"
    );
    assert_eq!(parse_trader_hex("abc").unwrap_err(), "invalid hex: Odd number of digits");
    assert_eq!(parse_trader_hex(&"ab".repeat(16)).unwrap_err(), "expected 32 bytes, got 16");
}

// Each trader's stream holds the matches that the trader took part in, and no others.
#[test]
fn test_ws_trades_filters_to_only_the_named_traders_matches() {
    let mut state = test_state(false);
    let (seller, buyer, bystander) = ([1u8; 32], [2u8; 32], [3u8; 32]);
    let sell_resp = state.submit_order(request(seller, OrderSide::Sell, 3000, 5, 1), true);
    assert!(sell_resp.success, "sell order rejected: {:?}", sell_resp.error);
    let buy_resp = state.submit_order(request(buyer, OrderSide::Buy, 3000, 5, 1), true);
    assert!(buy_resp.success, "buy order rejected: {:?}", buy_resp.error);
    assert_eq!(buy_resp.matches.len(), 1, "buy order should have matched the resting sell");
    let received = &buy_resp.matches[0];
    assert!(received.maker_trader == buyer || received.taker_trader == buyer);
    assert!(match_involves(received, &buyer));
    assert!(match_involves(received, &seller));
    assert!(!match_involves(received, &bystander));
}

#[test]
fn test_confirm_committed_moves_match_from_pending_to_batcher() {
    let mut state = test_state(false);
    let mut wal = Vec::new();
    let sell_resp = submit(&mut state, &mut wal, request([1u8; 32], OrderSide::Sell, 3000, 5, 1));
    assert!(sell_resp.success);
    let buy_resp = submit(&mut state, &mut wal, request([2u8; 32], OrderSide::Buy, 3000, 5, 1));
    assert!(buy_resp.success);
    assert_eq!(buy_resp.matches.len(), 1);
    let m = &buy_resp.matches[0];
    let key = (m.maker_order_id, m.taker_order_id);

    assert!(
        state.pending_commits.contains_key(&key),
        "a fresh match must sit in pending_commits before commit confirmation"
    );
    assert!(state.batcher.queued_trades().is_empty());

    let fake_trade_hash = [0x42u8; 32];
    assert!(confirm(&mut state, &mut wal, m));
    assert!(
        !state.pending_commits.contains_key(&key),
        "confirmed match must be removed from pending_commits"
    );
    assert_eq!(
        state.confirmed_trade_hashes.get(&key),
        Some(&fake_trade_hash),
        "the trader-reported trade_hash must be recorded"
    );
    assert_eq!(state.batcher.queued_trades().len(), 1);

    assert!(
        !confirm(&mut state, &mut wal, m),
        "confirming an already-confirmed match must not succeed again"
    );
}

#[test]
fn test_persisted_orders_are_recovered_after_a_simulated_restart() {
    let mut wal = Vec::new();
    let expected_match = {
        let mut state = test_state(false);
        let sell_resp =
            submit(&mut state, &mut wal, request([1u8; 32], OrderSide::Sell, 3000, 5, 1));
        assert!(sell_resp.success);
        let buy_resp =
            submit(&mut state, &mut wal, request([2u8; 32], OrderSide::Buy, 3000, 5, 1));
        assert!(buy_resp.success);
        assert_eq!(
            buy_resp.matches.len(),
            1,
            "a crossing buy/sell must match immediately in non-sequenced mode"
        );
        assert_eq!(state.order_log.len(), 2);
        buy_resp.matches[0].clone()
    };

    let mut recovered_state = test_state(false);
    let summary = replay_persistence_log(&mut recovered_state, wal);
    assert_eq!(summary.entries_replayed, 2, "both durably-recorded orders must be replayed");
    assert!(
        recovered_state.applied_order_ids.contains(&expected_match.maker_order_id)
            || recovered_state.applied_order_ids.contains(&expected_match.taker_order_id),
        "replay must mark both original order ids as applied"
    );
    assert_eq!(
        recovered_state.match_log.len(),
        1,
        "replay must reproduce exactly the one match that originally occurred"
    );
    assert!(recovered_state
        .pending_commits
        .contains_key(&(expected_match.maker_order_id, expected_match.taker_order_id)));
    assert_eq!(recovered_state.order_book.bids.len(), 0);
    assert_eq!(recovered_state.order_book.asks.len(), 0);
}

#[test]
fn test_settled_confirmations_are_not_replayed_but_unsettled_ones_are() {
    let mut wal = Vec::new();
    let (unsettled_match, settled_match) = {
        let mut state = test_state(false);
        submit(&mut state, &mut wal, request([1u8; 32], OrderSide::Sell, 3000, 5, 1));
        let buy1_resp =
            submit(&mut state, &mut wal, request([2u8; 32], OrderSide::Buy, 3000, 5, 1));
        assert_eq!(buy1_resp.matches.len(), 1);
        let unsettled_match = buy1_resp.matches[0].clone();

        submit(&mut state, &mut wal, request([3u8; 32], OrderSide::Sell, 3100, 4, 1));
        let buy2_resp =
            submit(&mut state, &mut wal, request([4u8; 32], OrderSide::Buy, 3100, 4, 1));
        assert_eq!(buy2_resp.matches.len(), 1);
        let settled_match = buy2_resp.matches[0].clone();

        assert!(confirm(&mut state, &mut wal, &unsettled_match));
        assert!(confirm(&mut state, &mut wal, &settled_match));
        wal.push(WalEntry::BatchSubmitted {
            keys: vec![(settled_match.maker_order_id, settled_match.taker_order_id)],
        });
        (unsettled_match, settled_match)
    };

    let mut recovered_state = test_state(false);
    let summary = replay_persistence_log(&mut recovered_state, wal);
    let candidate_ids: Vec<[u8; 32]> =
        summary.reconciliation_candidates.iter().map(|(m, _)| m.maker_order_id).collect();
    assert_eq!(
        candidate_ids,
        vec![unsettled_match.maker_order_id],
        "only the unsettled match should be a reconciliation candidate"
    );

    let unsettled = (unsettled_match.maker_order_id, unsettled_match.taker_order_id);
    let settled = (settled_match.maker_order_id, settled_match.taker_order_id);
    assert!(!recovered_state.pending_commits.contains_key(&unsettled));
    assert!(!recovered_state.pending_commits.contains_key(&settled));
    assert!(
        recovered_state.confirmed_trade_hashes.contains_key(&unsettled),
        "the unsettled match's confirmation must be reconstructed"
    );
    assert!(!recovered_state.confirmed_trade_hashes.contains_key(&settled));

    let batches = recovered_state.batcher.process_batches(&Prover);
    let all_settled_ids: Vec<[u8; 32]> =
        batches.iter().flat_map(|b| b.trades.iter().map(|t| t.maker_order_id)).collect();
    assert!(all_settled_ids.contains(&unsettled_match.maker_order_id));
    assert!(!all_settled_ids.contains(&settled_match.maker_order_id));
}

// A match that the chain turns out to have settled is dropped, and the other stays.
#[test]
fn settled_candidates_are_dropped_after_a_restart() {
    let mut wal = Vec::new();
    let mut state = test_state(false);
    let mut found = Vec::new();
    for (seller, buyer, price) in [(1, 2, 3000), (3, 4, 3100)] {
        submit(&mut state, &mut wal, request([seller; 32], OrderSide::Sell, price, 5, 1));
        let resp = submit(&mut state, &mut wal, request([buyer; 32], OrderSide::Buy, price, 5, 1));
        found.push(resp.matches[0].clone());
        assert!(confirm(&mut state, &mut wal, &found[found.len() - 1]));
    }
    let mut restarted = test_state(false);
    let summary = replay_persistence_log(&mut restarted, wal);
    assert_eq!(summary.reconciliation_candidates.len(), 2);
    let keys =
        reconcile(&mut restarted, &summary.reconciliation_candidates, &vec![true, false]);
    let first = (found[0].maker_order_id, found[0].taker_order_id);
    let second = (found[1].maker_order_id, found[1].taker_order_id);
    assert_eq!(keys, vec![first]);
    assert!(!restarted.confirmed_trade_hashes.contains_key(&first));
    assert!(restarted.confirmed_trade_hashes.contains_key(&second));
    let queued = restarted.batcher.queued_trades();
    assert_eq!(queued.len(), 1);
    assert_eq!(queued[0].maker_order_id, found[1].maker_order_id);
}

#[test]
fn test_unflushed_queued_orders_are_recovered_but_flushed_ones_are_not() {
    let mut wal = Vec::new();
    let (still_buffered_id, flushed_id) = {
        let mut state = test_state(true);
        let resp1 = submit(&mut state, &mut wal, request([1u8; 32], OrderSide::Buy, 3000, 5, 1));
        assert!(resp1.success && resp1.pending);
        let resp2 = submit(&mut state, &mut wal, request([2u8; 32], OrderSide::Buy, 3100, 3, 1));
        assert!(resp2.success && resp2.pending);
        let flushed_id = resp2.order_id;
        let (order, receipt) = state.take_queued(&flushed_id).unwrap();
        wal.push(WalEntry::OrderAccepted {
            order: order.duplicate(),
            receipt: receipt.duplicate(),
            match_timestamp_us: None,
        });
        state.apply_accepted_order(order, receipt, None);
        (resp1.order_id, flushed_id)
    };

    let mut recovered_state = test_state(true);
    replay_persistence_log(&mut recovered_state, wal);
    assert!(
        recovered_state.applied_order_ids.contains(&flushed_id),
        "the flushed order must be marked applied by replay"
    );
    assert!(
        !recovered_state.applied_order_ids.contains(&still_buffered_id),
        "the still-buffered order was never actually applied before the crash"
    );
    assert!(
        recovered_state.sequence.contains(&still_buffered_id),
        "replay must re-queue the order that was still buffered at crash time"
    );
    assert!(
        !recovered_state.sequence.contains(&flushed_id),
        "replay must NOT re-queue an order that was already flushed before the crash"
    );
    assert!(recovered_state.pending_order_data.contains_key(&still_buffered_id));
    assert!(!recovered_state.pending_order_data.contains_key(&flushed_id));
}

fn gossip(to: &mut AppState, from: &AppState, id: [u8; 32]) {
    let (order, _) = from.pending_order_data.get(&id).unwrap();
    if let Some(receipt) = to.begin_gossip(order, true, 5) {
        to.queue_for_sequencing(order.duplicate(), receipt);
    }
}

fn order_pair(m: &Match) -> ([u8; 32], [u8; 32]) {
    (
        m.maker_order_id.min(m.taker_order_id),
        m.maker_order_id.max(m.taker_order_id),
    )
}

// A node that no client ever talks to still ends up with the orders that others pass on.
#[test]
fn test_replica_never_submitted_to_still_applies_orders_via_gossip_alone() {
    let mut origin = test_state(true);
    let mut replica = test_state(true);
    let (pk_seller, pk_buyer) = ([1u8; 32], [2u8; 32]);
    let sell = origin.submit_order(request(pk_seller, OrderSide::Sell, 3000, 5, 1), true);
    let buy = origin.submit_order(request(pk_buyer, OrderSide::Buy, 3000, 5, 1), true);
    gossip(&mut replica, &origin, sell.order_id);
    gossip(&mut replica, &origin, buy.order_id);
    // What has been passed on before is not taken in again.
    gossip(&mut replica, &origin, buy.order_id);
    assert_eq!(replica.sequence.len(), 2);
    let (order, receipt) = replica.pending_order_data.get(&buy.order_id).unwrap();
    assert!(verify_receipt(receipt));
    assert!(test_state(true).begin_gossip(order, false, 6).is_none());
    let received =
        replica.apply_sequence(&vec![(sell.order_id, 1_000), (buy.order_id, 2_000)]).remove(0);
    assert!(received.maker_trader == pk_buyer || received.taker_trader == pk_buyer);
}

#[test]
fn test_sequenced_submission_acks_immediately_and_match_arrives_async_over_websocket() {
    let mut state = test_state(true);
    let (pk_seller, pk_buyer) = ([1u8; 32], [2u8; 32]);
    let sell_resp = state.submit_order(request(pk_seller, OrderSide::Sell, 3000, 5, 1), true);
    assert!(sell_resp.success, "sell order rejected: {:?}", sell_resp.error);
    assert!(sell_resp.pending);
    assert!(sell_resp.matches.is_empty());
    let buy_resp = state.submit_order(request(pk_buyer, OrderSide::Buy, 3000, 5, 1), true);
    assert!(buy_resp.success, "buy order rejected: {:?}", buy_resp.error);
    assert!(buy_resp.pending);
    assert!(buy_resp.matches.is_empty());
    let ids = state.take_sequence();
    assert_eq!(ids, vec![sell_resp.order_id, buy_resp.order_id]);
    assert!(state.take_sequence().is_empty());
    let resolved: Vec<([u8; 32], u64)> = ids.into_iter().map(|id| (id, 9_000)).collect();
    let received = state.apply_sequence(&resolved).remove(0);
    assert!(received.maker_trader == pk_buyer || received.taker_trader == pk_buyer);
    assert!(match_involves(&received, &pk_buyer));
}

#[test]
fn test_two_replicas_with_mixed_entry_points_converge_to_identical_match_history() {
    let mut a = test_state(true);
    let mut b = test_state(true);
    let sell1 = a.submit_order(request([1u8; 32], OrderSide::Sell, 3000, 5, 1), true).order_id;
    let buy1 = b.submit_order(request([2u8; 32], OrderSide::Buy, 3000, 5, 1), true).order_id;
    gossip(&mut b, &a, sell1);
    gossip(&mut a, &b, buy1);
    let sell2 = b.submit_order(request([3u8; 32], OrderSide::Sell, 3100, 3, 1), true).order_id;
    let buy2 = a.submit_order(request([4u8; 32], OrderSide::Buy, 3100, 3, 1), true).order_id;
    gossip(&mut a, &b, sell2);
    gossip(&mut b, &a, buy2);
    let ranked = vec![
        (sell1, 10_000_000),
        (buy1, 10_000_001),
        (buy2, 20_000_000),
        (sell2, 20_000_001),
    ];
    let a_matches = a.apply_sequence(&ranked);
    let b_matches = b.apply_sequence(&ranked);
    assert_eq!(a_matches.len(), 2);
    assert_eq!(b_matches.len(), 2);
    for (a_m, b_m) in a_matches.iter().zip(&b_matches) {
        assert_eq!(order_pair(a_m), order_pair(b_m));
        assert_eq!(a_m.price, b_m.price, "price must match exactly");
        assert_eq!(a_m.amount, b_m.amount, "amount must match exactly");
        assert_eq!(a_m.settlement_tier, b_m.settlement_tier);
        assert_eq!(a_m.fee_basis_points, b_m.fee_basis_points);
        assert_eq!(a_m.seller, b_m.seller);
        assert_eq!(a_m.fee_payer, b_m.fee_payer);
        assert_eq!(a_m.symbol, b_m.symbol);
        assert_eq!(a_m.timestamp_us, b_m.timestamp_us);
    }
    assert_eq!(a.match_log.len(), b.match_log.len());
}

#[test]
fn an_order_is_queued_once() {
    let mut state = test_state(true);
    let first = state.submit_order(request([1u8; 32], OrderSide::Buy, 3000, 5, 1), true);
    assert!(first.success && first.pending);
    assert_eq!(first.order_id, derive_order_id(&[1u8; 32], 1));
    assert!(verify_receipt(first.receipt.as_ref().unwrap()));
    let again = state.submit_order(request([1u8; 32], OrderSide::Buy, 3000, 5, 1), true);
    assert!(!again.success);
    assert_eq!(again.error.unwrap(), "Order already submitted");
    assert!(again.receipt.is_none());
    assert_eq!(state.sequence, vec![first.order_id]);
    let applied = state.apply_sequence(&vec![(first.order_id, 5)]);
    assert!(applied.is_empty());
    let late = state.submit_order(request([1u8; 32], OrderSide::Buy, 3000, 5, 1), true);
    assert_eq!(late.error.unwrap(), "Order already submitted");
    assert_eq!(state.order_log.len(), 1);
}

#[test]
fn what_cannot_be_recorded_is_not_done() {
    let mut state = test_state(false);
    let decision = state.begin_submit(request([1u8; 32], OrderSide::Buy, 3000, 5, 1), true, 7);
    let resp = state.finish_submit_at(decision, Err("disk full".to_string()), 8);
    assert!(!resp.success);
    assert_eq!(
        resp.error.unwrap(),
        "internal error: could not durably record order: disk full"
    );
    assert!(state.order_book.bids.is_empty());
    assert!(!state.applied_order_ids.contains(&derive_order_id(&[1u8; 32], 1)));

    let mut wal = Vec::new();
    submit(&mut state, &mut wal, request([1u8; 32], OrderSide::Sell, 3000, 5, 2));
    let m = submit(&mut state, &mut wal, request([2u8; 32], OrderSide::Buy, 3000, 5, 1))
        .matches
        .remove(0);
    let ask = ConfirmCommitRequest {
        maker_order_id: m.maker_order_id,
        taker_order_id: m.taker_order_id,
        trade_hash: [1u8; 32],
    };
    let r = state.confirm_committed(&ask, Err("disk full".to_string()));
    assert_eq!(
        r.error.unwrap(),
        "internal error: could not durably record confirmation: disk full"
    );
    assert!(state.pending_commits.contains_key(&(m.maker_order_id, m.taker_order_id)));
    let r = state.confirm_committed(
        &ConfirmCommitRequest {
            maker_order_id: [9u8; 32],
            taker_order_id: [9u8; 32],
            trade_hash: [1u8; 32],
        },
        Ok(()),
    );
    assert_eq!(
        r.error.unwrap(),
        "no pending match for that (maker_order_id, taker_order_id)"
    );
}

#[test]
fn a_match_is_confirmed_once() {
    let mut state = test_state(false);
    let mut wal = Vec::new();
    submit(&mut state, &mut wal, request([1u8; 32], OrderSide::Sell, 3000, 5, 2));
    let m = submit(&mut state, &mut wal, request([2u8; 32], OrderSide::Buy, 3000, 5, 1))
        .matches
        .remove(0);
    let key = (m.maker_order_id, m.taker_order_id);
    let mut ask = ConfirmCommitRequest {
        maker_order_id: m.maker_order_id,
        taker_order_id: m.taker_order_id,
        trade_hash: [1u8; 32],
    };
    let r = state.confirm_committed(&ask, Ok(()));
    assert!(r.success && r.error.is_none());
    ask.trade_hash = [2u8; 32];
    let r = state.confirm_committed(&ask, Ok(()));
    assert!(!r.success);
    assert_eq!(
        r.error.unwrap(),
        "no pending match for that (maker_order_id, taker_order_id)"
    );
    assert_eq!(state.confirmed_trade_hashes.get(&key), Some(&[1u8; 32]));
    assert_eq!(state.batcher.queued_trades().len(), 1);
    assert_eq!(state.batcher.balance_of([2u8; 32], "ETH-USD"), 15_000);
    assert_eq!(state.batcher.balance_of([1u8; 32], "ETH-USD"), 0);
}

#[test]
fn ids_tell_nonces_apart() {
    assert_ne!(derive_order_id(&[1u8; 32], 1), derive_order_id(&[1u8; 32], 2));
    let id = derive_order_id(&[7u8; 32], 0x0102);
    assert_eq!(id[..16], [7u8; 16]);
    assert_eq!(id[16..24], [0, 0, 0, 0, 0, 0, 1, 2]);
    assert_eq!(id[24..], [0u8; 8]);
}

#[test]
fn depth_is_listed_by_price() {
    let mut state = test_state(false);
    for (nonce, (side, price, amount)) in [
        (OrderSide::Buy, 2990, 5),
        (OrderSide::Buy, 2995, 1),
        (OrderSide::Buy, 2990, 2),
        (OrderSide::Sell, 3010, 4),
        (OrderSide::Sell, 3005, 3),
    ]
    .into_iter()
    .enumerate()
    {
        state.submit_order(request([1u8; 32], side, price, amount, nonce as u64), true);
    }
    let d = order_book_depth(&state.order_book);
    let bids: Vec<(u64, u64)> = d.bids.iter().map(|l| (l.price, l.total_amount)).collect();
    let asks: Vec<(u64, u64)> = d.asks.iter().map(|l| (l.price, l.total_amount)).collect();
    assert_eq!(bids, vec![(2990, 7), (2995, 1)]);
    assert_eq!(asks, vec![(3005, 3), (3010, 4)]);
}

#[test]
fn a_snapshot_restores_the_state_and_the_rest_is_replayed() {
    let mut state = test_state(false);
    let mut wal = Vec::new();
    submit(&mut state, &mut wal, request([1u8; 32], OrderSide::Sell, 3000, 5, 1));
    let m = submit(&mut state, &mut wal, request([2u8; 32], OrderSide::Buy, 3000, 7, 1))
        .matches
        .remove(0);
    assert!(confirm(&mut state, &mut wal, &m));
    let snapshot = build_snapshot(&state);
    let mut copy = test_state(false);
    apply_snapshot(&mut copy, build_snapshot(&state));
    assert_eq!(copy.order_book.bids.get(&3000).unwrap()[0].amount, 2);
    assert_eq!(copy.order_log.len(), 2);
    assert_eq!(copy.match_log.len(), 1);
    assert_eq!(copy.batcher.queued_trades().len(), 1);
    assert_eq!(
        copy.confirmed_trade_hashes.get(&(m.maker_order_id, m.taker_order_id)),
        Some(&[0x42u8; 32])
    );

    let mut later = Vec::new();
    submit(&mut state, &mut later, request([3u8; 32], OrderSide::Sell, 3000, 2, 1));
    let mut restarted = test_state(false);
    let summary = load_persistence(&mut restarted, Some(snapshot), later);
    assert_eq!(summary.entries_replayed, 1);
    assert!(restarted.order_book.bids.is_empty());
    assert_eq!(restarted.match_log.len(), 2);
}

fn receipt(n: u8) -> OrderReceipt {
    OrderReceipt {
        order_id: [n; 32],
        trader: [n; 32],
        symbol: "ETH-USD".to_string(),
        side: OrderSide::Buy,
        price: 1,
        amount: 1,
        nonce: n as u64,
        expiry: 0,
        received_at_us: 0,
        node_pubkey: [0u8; 32],
        signature: vec![],
    }
}

#[test]
fn log_reads_span_the_archive() {
    let held = vec![receipt(2), receipt(3)];
    assert!(spans_archive(2, 0, true));
    assert!(!spans_archive(2, 0, false));
    assert!(!spans_archive(2, 2, true));
    let all = order_log_entries(&held, 2, 0, vec![receipt(0), receipt(1)]);
    let ids: Vec<u64> = all.iter().map(|r| r.nonce).collect();
    assert_eq!(ids, vec![0, 1, 2, 3]);
    let tail = order_log_entries(&held, 2, 3, vec![]);
    assert_eq!(tail.len(), 1);
    assert_eq!(tail[0].nonce, 3);
    assert!(order_log_entries(&held, 2, 9, vec![]).is_empty());
    assert!(match_log_entries(&vec![], 0, 0, vec![]).is_empty());
    let r = log_root([5u8; 32], 2, 2);
    assert_eq!((r.root, r.len), ([5u8; 32], 4));
}

#[test]
fn a_read_that_cannot_reach_the_archive_fails() {
    let held = vec![receipt(2)];
    let failed = || Some(Err("disk".to_string()));
    assert_eq!(read_order_log(&held, 2, 0, failed()).unwrap_err(), "disk");
    assert_eq!(read_order_log(&held, 2, 2, failed()).unwrap().len(), 1);
    assert_eq!(read_order_log(&held, 2, 0, None).unwrap().len(), 1);
    let all = read_order_log(&held, 2, 0, Some(Ok(vec![receipt(0), receipt(1)]))).unwrap();
    assert_eq!(all.len(), 3);
    assert_eq!(read_match_log(&vec![], 2, 0, Some(Err("disk".to_string()))).unwrap_err(), "disk");
}

#[test]
fn keys_are_equal_when_every_byte_is() {
    assert!(constant_time_eq("dev-default-key", "dev-default-key"));
    assert!(!constant_time_eq("dev-default-key", "dev-default-kez"));
    assert!(!constant_time_eq("dev", "dev-default-key"));
    assert!(constant_time_eq("", ""));
}

#[test]
fn the_submission_of_an_order_keeps_its_terms() {
    let state = test_state(false);
    match state.begin_submit(request([1u8; 32], OrderSide::Buy, 3000, 5, 9), true, 77) {
        Submission::Apply { order, receipt } => {
            let o: Order = order;
            assert_eq!((o.price, o.amount, o.nonce), (3000, 5, 9));
            assert_eq!(o.settlement_preference, SettlementPreference::Instant);
            assert_eq!(receipt.received_at_us, 77);
            assert_eq!(receipt.order_id, o.id);
        }
        _ => panic!("applied at once"),
    }
}
