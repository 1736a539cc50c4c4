use chronos::batcher::{
    settlement_reports, ProverBackend, SettlementBatcher, TradeBatch, MAX_BATCH_TRADES,
};
use chronos::batcher_room::can_flush;
use chronos::bytes::u64_to_bytes32;
use chronos::ledger::BalanceLedger;
use chronos::types::{Match, SettlementPreference};

struct Prover;

impl ProverBackend for Prover {
    fn prove_batch(&self, batch: &TradeBatch) -> Result<Vec<u8>, String> {
        if batch.trades.is_empty() {
            Err("nothing to prove".to_string())
        } else {
            Ok(vec![batch.trades.len() as u8, 42])
        }
    }
}

struct Refuser;

impl ProverBackend for Refuser {
    fn prove_batch(&self, _batch: &TradeBatch) -> Result<Vec<u8>, String> {
        Err("no".to_string())
    }
}

fn make_match(tier: SettlementPreference, id_seed: u8) -> Match {
    Match {
        maker_order_id: [id_seed; 32],
        taker_order_id: [id_seed + 1; 32],
        maker_trader: [1u8; 32],
        taker_trader: [2u8; 32],
        price: 100,
        amount: 10,
        timestamp_us: 0,
        settlement_tier: tier,
        fee_basis_points: tier.fee_basis_points(),
        seller: [2u8; 32],
        fee_payer: [2u8; 32],
        symbol: "BTC-USD".to_string(),
        assigned_node: [0u8; 32],
        settlement_deadline: 0,
    }
}

#[test]
fn test_deposit_and_balance_of() {
    let mut ledger = BalanceLedger::new();
    let trader = [1u8; 32];
    assert_eq!(ledger.balance_of(trader, "BTC-USD"), 0);
    ledger.deposit(trader, "BTC-USD", 100);
    assert_eq!(ledger.balance_of(trader, "BTC-USD"), 100);
}

#[test]
fn test_debit_insufficient_balance_fails() {
    let mut ledger = BalanceLedger::new();
    let trader = [1u8; 32];
    ledger.deposit(trader, "BTC-USD", 50);
    assert!(ledger.debit(trader, "BTC-USD", 100).is_err());
    assert_eq!(ledger.balance_of(trader, "BTC-USD"), 50);
}

#[test]
fn test_debit_success_reduces_balance() {
    let mut ledger = BalanceLedger::new();
    let trader = [1u8; 32];
    ledger.deposit(trader, "BTC-USD", 100);
    assert!(ledger.debit(trader, "BTC-USD", 40).is_ok());
    assert_eq!(ledger.balance_of(trader, "BTC-USD"), 60);
}

#[test]
fn test_balances_are_per_symbol() {
    let mut ledger = BalanceLedger::new();
    let trader = [1u8; 32];
    ledger.deposit(trader, "BTC-USD", 100);
    assert_eq!(ledger.balance_of(trader, "ETH-USD"), 0);
}

#[test]
fn a_refused_debit_says_why() {
    let mut ledger = BalanceLedger::new();
    ledger.deposit([1u8; 32], "BTC-USD", 50);
    let e = ledger.debit([1u8; 32], "BTC-USD", 100).unwrap_err();
    assert_eq!(e, "insufficient balance: have 50, need 100");
}

#[test]
fn a_credit_undoes_a_debit() {
    let mut ledger = BalanceLedger::new();
    ledger.deposit([1u8; 32], "BTC-USD", 50);
    ledger.debit([1u8; 32], "BTC-USD", 50).unwrap();
    assert_eq!(ledger.balance_of([1u8; 32], "BTC-USD"), 0);
    ledger.credit([1u8; 32], "BTC-USD", 50);
    assert_eq!(ledger.balance_of([1u8; 32], "BTC-USD"), 50);
}

#[test]
fn test_instant_trade_flushes_immediately() {
    let mut batcher = SettlementBatcher::new();
    batcher.deposit([2u8; 32], "BTC-USD", 1_000_000);
    batcher.enqueue(make_match(SettlementPreference::Instant, 1));

    let batches = batcher.process_batches(&Prover);
    assert_eq!(batches.len(), 1);
    assert_eq!(batches[0].trades.len(), 1);
    assert_eq!(batches[0].proofs.len(), 1);
    assert!(!batches[0].proofs[0].is_empty());
}

#[test]
fn test_insolvent_trade_is_dropped_not_faked() {
    let mut batcher = SettlementBatcher::new();
    batcher.enqueue(make_match(SettlementPreference::Instant, 1));

    let batches = batcher.process_batches(&Prover);
    assert_eq!(batches.len(), 1);
    assert_eq!(batches[0].trades.len(), 0);
    assert_eq!(batches[0].proofs.len(), 0);
}

#[test]
fn test_standard_batch_spans_multiple_proof_chunks() {
    let mut batcher = SettlementBatcher::new();
    let n = MAX_BATCH_TRADES * 2 + 3;
    batcher.standard_batch_size = n;

    for i in 0..n {
        let maker = [(i * 2) as u8; 32];
        let taker = [(i * 2 + 1) as u8; 32];
        batcher.deposit(taker, "BTC-USD", 1_000_000);
        batcher.enqueue(Match {
            maker_order_id: [i as u8; 32],
            taker_order_id: [(i + 200) as u8; 32],
            maker_trader: maker,
            taker_trader: taker,
            price: 100,
            amount: 10,
            timestamp_us: 0,
            settlement_tier: SettlementPreference::Standard,
            fee_basis_points: SettlementPreference::Standard.fee_basis_points(),
            seller: taker,
            fee_payer: taker,
            symbol: "BTC-USD".to_string(),
            assigned_node: [0u8; 32],
            settlement_deadline: 0,
        });
    }

    let batches = batcher.process_batches(&Prover);
    assert_eq!(batches.len(), 1);
    let batch = &batches[0];
    assert_eq!(batch.trades.len(), n);

    let expected_proof_count = n.div_ceil(MAX_BATCH_TRADES);
    assert_eq!(batch.proofs.len(), expected_proof_count);
    assert_eq!(batch.proof_trade_counts.len(), expected_proof_count);
    assert_eq!(batch.proof_trade_counts.iter().sum::<usize>(), n);
    for &count in &batch.proof_trade_counts {
        assert!(count > 0 && count <= MAX_BATCH_TRADES);
    }
    for i in 0..n {
        let maker = [(i * 2) as u8; 32];
        assert_eq!(batcher.balance_of(maker, "BTC-USD"), 1000);
    }
}

#[test]
fn test_standard_batch_waits_for_size() {
    let mut batcher = SettlementBatcher::new();
    batcher.deposit([2u8; 32], "BTC-USD", 1_000_000);
    batcher.standard_batch_size = 3;

    batcher.enqueue(make_match(SettlementPreference::Standard, 1));
    batcher.enqueue(make_match(SettlementPreference::Standard, 2));

    let batches = batcher.process_batches(&Prover);
    assert_eq!(batches.len(), 0);

    batcher.enqueue(make_match(SettlementPreference::Standard, 3));

    let batches = batcher.process_batches(&Prover);
    assert_eq!(batches.len(), 1);
    assert_eq!(batches[0].trades.len(), 3);
}

// The roots and balances of a batch are what anyone who checks its proof works out for themselves.
#[test]
fn test_produced_batch_passes_independent_verification() {
    let mut batcher = SettlementBatcher::new();
    batcher.deposit([2u8; 32], "BTC-USD", 1_000_000);
    batcher.enqueue(make_match(SettlementPreference::Instant, 1));

    let batches = batcher.process_batches(&Prover);
    assert_eq!(batches.len(), 1);
    let batch = &batches[0];
    assert_eq!(batch.trade_batches.len(), 1);

    let trade_batch = &batch.trade_batches[0];
    assert_eq!(trade_batch.pre_state_root, [0u8; 32]);
    assert_eq!(trade_batch.post_state_root, u64_to_bytes32(1000));
    assert_eq!(trade_batch.maker_balances, vec![0]);
    assert_eq!(trade_batch.taker_balances, vec![1_000_000]);
    assert_eq!(Prover.prove_batch(trade_batch).unwrap(), batch.proofs[0]);
}

#[test]
fn test_mixed_tiers_flush_correctly() {
    let mut batcher = SettlementBatcher::new();
    batcher.deposit([2u8; 32], "BTC-USD", 1_000_000);
    batcher.express_batch_size = 2;

    batcher.enqueue(make_match(SettlementPreference::Standard, 1));
    batcher.enqueue(make_match(SettlementPreference::Instant, 2));
    batcher.enqueue(make_match(SettlementPreference::Express, 3));
    batcher.enqueue(make_match(SettlementPreference::Express, 4));

    let batches = batcher.process_batches(&Prover);
    assert_eq!(batches.len(), 2);

    let has_instant = batches.iter().any(|b| b.trades.len() == 1);
    let has_express = batches.iter().any(|b| b.trades.len() == 2);
    assert!(has_instant);
    assert!(has_express);
}

#[test]
fn test_express_timer_flush() {
    let mut batcher = SettlementBatcher::new();
    batcher.express_batch_size = 1000;
    batcher.express_interval_us = 1_000;

    batcher.enqueue(make_match(SettlementPreference::Express, 1));

    let batches = batcher.process_batches_at(&Prover, 5_000);
    assert_eq!(batches.len(), 1);
}

#[test]
fn the_machine_clock_counts_for_timers() {
    let mut batcher = SettlementBatcher::new();
    batcher.express_batch_size = 1000;
    batcher.express_interval_us = 0;
    batcher.enqueue(make_match(SettlementPreference::Express, 1));
    assert_eq!(batcher.process_batches(&Prover).len(), 1);
    batcher.express_interval_us = u64::MAX;
    batcher.enqueue(make_match(SettlementPreference::Express, 1));
    assert_eq!(batcher.process_batches(&Prover).len(), 0);
}

#[test]
fn queues_are_roomy_until_a_sum_overflows() {
    let mut batcher = SettlementBatcher::new();
    assert!(can_flush(&batcher));
    batcher.enqueue(make_match(SettlementPreference::Standard, 1));
    assert!(can_flush(&batcher));
    // The maker's balance has room for the value of the trade, and for no more.
    batcher.deposit([1u8; 32], "BTC-USD", u64::MAX - 1_000);
    assert!(can_flush(&batcher));
    batcher.deposit([1u8; 32], "BTC-USD", 1);
    assert!(!can_flush(&batcher));
    let mut big = make_match(SettlementPreference::Instant, 3);
    big.price = u64::MAX;
    let mut other = SettlementBatcher::new();
    other.enqueue(big);
    assert!(!can_flush(&other));
}

#[test]
fn a_failed_proof_moves_nothing() {
    let mut batcher = SettlementBatcher::new();
    batcher.deposit([2u8; 32], "BTC-USD", 5_000);
    batcher.enqueue(make_match(SettlementPreference::Instant, 1));
    let batches = batcher.process_batches(&Refuser);
    assert_eq!(batches.len(), 1);
    assert_eq!(batches[0].trades.len(), 0);
    assert_eq!(batches[0].total_value, 0);
    assert_eq!(batcher.balance_of([2u8; 32], "BTC-USD"), 5_000);
    assert_eq!(batcher.balance_of([1u8; 32], "BTC-USD"), 0);
}

// The proof of a settled chunk is the prover's answer on exactly that chunk.
#[test]
fn proofs_are_the_provers_answers() {
    let mut batcher = SettlementBatcher::new();
    batcher.deposit([2u8; 32], "BTC-USD", 1_000_000);
    batcher.standard_batch_size = 9;
    for i in 0..9 {
        batcher.enqueue(make_match(SettlementPreference::Standard, 2 * i));
    }
    let batch = batcher.process_batches(&Prover).remove(0);
    assert_eq!(batch.proofs, vec![vec![8, 42], vec![1, 42]]);
    for (tb, proof) in batch.trade_batches.iter().zip(&batch.proofs) {
        assert_eq!(&Prover.prove_batch(tb).unwrap(), proof);
    }
    assert_eq!(batch.total_value, 9_000);
    assert_eq!(batcher.balance_of([1u8; 32], "BTC-USD"), 9_000);
    assert_eq!(batcher.balance_of([2u8; 32], "BTC-USD"), 991_000);
}

#[test]
fn a_chunk_settles_whole_or_not_at_all() {
    let mut batcher = SettlementBatcher::new();
    // Enough for either trade, not for both.
    batcher.deposit([2u8; 32], "BTC-USD", 1_500);
    batcher.standard_batch_size = 2;
    batcher.enqueue(make_match(SettlementPreference::Standard, 1));
    batcher.enqueue(make_match(SettlementPreference::Standard, 2));
    let batches = batcher.process_batches(&Prover);
    assert_eq!(batches.len(), 1);
    assert_eq!(batches[0].trades.len(), 0);
    assert_eq!(batcher.balance_of([2u8; 32], "BTC-USD"), 1_500);
}

#[test]
fn chunks_are_of_one_node() {
    let mut batcher = SettlementBatcher::new();
    batcher.deposit([2u8; 32], "BTC-USD", 1_000_000);
    batcher.standard_batch_size = 3;
    for (i, node) in [7u8, 8, 7].into_iter().enumerate() {
        let mut m = make_match(SettlementPreference::Standard, 10 * i as u8);
        m.assigned_node = [node; 32];
        batcher.enqueue(m);
    }
    let batch = batcher.process_batches(&Prover).remove(0);
    assert_eq!(batch.proof_trade_counts, vec![2, 1]);
    assert_eq!(batch.trades[0].assigned_node, [7u8; 32]);
    assert_eq!(batch.trades[1].assigned_node, [7u8; 32]);
    assert_eq!(batch.trades[2].assigned_node, [8u8; 32]);
    assert_eq!(batch.total_value, 3_000);
}

#[test]
fn queued_trades_are_listed_by_tier() {
    let mut batcher = SettlementBatcher::new();
    batcher.enqueue(make_match(SettlementPreference::Standard, 1));
    batcher.enqueue(make_match(SettlementPreference::Express, 2));
    batcher.enqueue(make_match(SettlementPreference::Instant, 3));
    let ids: Vec<u8> = batcher.queued_trades().iter().map(|m| m.maker_order_id[0]).collect();
    assert_eq!(ids, vec![3, 2, 1]);
}

#[test]
fn settled_trades_are_reported() {
    let mut batcher = SettlementBatcher::new().with_ledger(BalanceLedger::new());
    batcher.ledger_mut().deposit([2u8; 32], "BTC-USD", 1_000);
    assert_eq!(batcher.ledger().balance_of([2u8; 32], "BTC-USD"), 1_000);
    batcher.enqueue(make_match(SettlementPreference::Instant, 1));
    let batch = batcher.process_batches(&Prover).remove(0);
    assert_eq!(settlement_reports(&batch).len(), 1);
}
