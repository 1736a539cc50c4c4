use chronos::accounts::{address_to_account, SettlementFeeConfig, SettlementTrade, Token};
use chronos::assoc::AssocMap;
use chronos::batcher::{ProverBackend, SettlementBatcher, TradeBatch};
use chronos::chains::{
    contracts_of, has_escrow, parse_contracts, settlement_call, stake_from_word, submit_outcome,
    transaction_name, FrgAdapter, ProofCalldata, SolanaAdapter, ValidatorEntry,
};
use chronos::registry::EscrowRegistry;
use chronos::settlement::{
    after_submission, build_settlement_trades, checkpoint_keys, note_status, own_chunks, ChainNodeStatus,
};
use chronos::types::{Match, SettlementPreference};

struct Prover;

impl ProverBackend for Prover {
    fn prove_batch(&self, _batch: &TradeBatch) -> Result<Vec<u8>, String> {
        Ok(vec![1])
    }
}

fn a_match(id: u8, maker: u8, taker: u8, node: u8) -> Match {
    Match {
        maker_order_id: [id; 32],
        taker_order_id: [id + 100; 32],
        maker_trader: [maker; 32],
        taker_trader: [taker; 32],
        price: 3000,
        amount: 5,
        timestamp_us: 0,
        settlement_tier: SettlementPreference::Standard,
        fee_basis_points: 5,
        seller: [maker; 32],
        fee_payer: [taker; 32],
        settlement_deadline: 99,
        symbol: "ETH-USD".to_string(),
        assigned_node: [node; 32],
    }
}

fn escrows() -> EscrowRegistry {
    let mut r = EscrowRegistry::new();
    r.record_escrow_created([1u8; 20], [11u8; 20], [1u8; 32]);
    r.record_escrow_created([2u8; 20], [12u8; 20], [2u8; 32]);
    r
}

#[test]
fn matches_become_trades_between_accounts() {
    let mut hashes = AssocMap::new();
    let m = a_match(7, 1, 2, 9);
    hashes.insert((m.maker_order_id, m.taker_order_id), [0x42u8; 32]);
    let trades = build_settlement_trades(&mut hashes, &escrows(), &[m.duplicate()]).unwrap();
    let t = &trades[0];
    assert_eq!(t.trader, address_to_account([2u8; 20]));
    assert_eq!(t.counterparty, address_to_account([1u8; 20]));
    assert_eq!((t.amount, t.fee, t.deadline), (15_000, 7, 99));
    assert_eq!(t.trade_hash, [0x42u8; 32]);
    assert_eq!(t.assigned_node, [9u8; 32]);
    assert!(matches!(t.token, Token::Native));
    assert_eq!(hashes.len(), 0);
    assert_eq!(checkpoint_keys(&trades), vec![([7u8; 32], [107u8; 32])]);
    // A hash serves once.
    assert!(build_settlement_trades(&mut hashes, &escrows(), &[m]).is_none());
}

#[test]
fn only_a_submission_that_went_through_is_recorded() {
    let trades = vec![trade()];
    assert_eq!(
        after_submission(&trades, &Ok("0xab".to_string())),
        Some(vec![([1u8; 32], [2u8; 32])])
    );
    assert_eq!(after_submission(&trades, &Err("reverted".to_string())), None);
}

#[test]
fn an_unknown_party_holds_the_chunk_back() {
    let mut hashes = AssocMap::new();
    let m = a_match(7, 1, 3, 9);
    hashes.insert((m.maker_order_id, m.taker_order_id), [0x42u8; 32]);
    assert!(build_settlement_trades(&mut hashes, &escrows(), &[m]).is_none());
}

#[test]
fn a_node_submits_its_own_chunks() {
    let mut batcher = SettlementBatcher::new();
    batcher.standard_batch_size = 3;
    batcher.deposit([2u8; 32], "ETH-USD", 1_000_000);
    for (id, node) in [(1, 7), (2, 8), (3, 7)] {
        batcher.enqueue(a_match(id, 1, 2, node));
    }
    let batch = batcher.process_batches(&Prover).remove(0);
    let mine: Vec<(usize, usize, usize)> =
        own_chunks(&batch, &[8u8; 32]).iter().map(|c| (c.index, c.start, c.count)).collect();
    assert_eq!(mine, vec![(1, 2, 1)]);
    let mine: Vec<(usize, usize, usize)> =
        own_chunks(&batch, &[7u8; 32]).iter().map(|c| (c.index, c.start, c.count)).collect();
    assert_eq!(mine, vec![(0, 0, 2)]);
    assert!(own_chunks(&batch, &[1u8; 32]).is_empty());
}

#[test]
fn the_last_good_status_stays() {
    let mut seen: AssocMap<[u8; 32], ChainNodeStatus> = AssocMap::new();
    note_status(&mut seen, [1u8; 32], Ok(true), Ok(50));
    assert_eq!(seen.get(&[1u8; 32]), Some(&ChainNodeStatus { active: true, stake: 50 }));
    note_status(&mut seen, [1u8; 32], Err("down".to_string()), Ok(60));
    assert_eq!(seen.get(&[1u8; 32]).unwrap().stake, 50);
    note_status(&mut seen, [2u8; 32], Ok(false), Err("down".to_string()));
    assert_eq!(seen.get(&[2u8; 32]), Some(&ChainNodeStatus { active: false, stake: 0 }));
}

fn trade() -> SettlementTrade {
    SettlementTrade {
        maker_order_id: [1u8; 32],
        taker_order_id: [2u8; 32],
        trader: address_to_account([1u8; 20]),
        counterparty: address_to_account([2u8; 20]),
        token: Token::Native,
        amount: 10,
        fee: 1,
        deadline: 2,
        trade_hash: [3u8; 32],
        assigned_node: [4u8; 32],
    }
}

fn calldata() -> ProofCalldata {
    ProofCalldata {
        a: [[1u8; 32]; 2],
        b: [[[2u8; 32]; 2]; 2],
        c: [[3u8; 32]; 2],
        public_inputs: vec![[4u8; 32]],
    }
}

#[test]
fn a_settlement_is_called_with_every_trade() {
    let fee = SettlementFeeConfig { fee_recipient: address_to_account([5u8; 20]), tier: 2 };
    let call = settlement_call(&vec![trade(), trade()], Ok(calldata()), &fee).unwrap();
    assert_eq!(call.entries.len(), 2);
    assert_eq!(call.entries[0].trader, [1u8; 20]);
    assert_eq!(call.fee_recipient, [5u8; 20]);
    assert_eq!(call.tier, 2);
    assert_eq!(call.calldata.public_inputs, vec![[4u8; 32]]);

    let e = settlement_call(&vec![], Ok(calldata()), &fee).unwrap_err();
    assert_eq!(e, "no trades to settle");
    let mut bad = trade();
    bad.trader = [9u8; 32];
    assert!(settlement_call(&vec![bad], Ok(calldata()), &fee).is_err());
    let e = settlement_call(&vec![trade()], Err("bad proof".to_string()), &fee).unwrap_err();
    assert!(e.contains("bad proof"));
    let wrong = SettlementFeeConfig { fee_recipient: [9u8; 32], tier: 2 };
    assert!(settlement_call(&vec![trade()], Ok(calldata()), &wrong).is_err());
}

#[test]
fn chain_values_are_read() {
    assert_eq!(transaction_name(&[0xABu8; 32]), "0x".to_string() + &"ab".repeat(32));
    let mut word = [0u8; 32];
    word[31] = 9;
    assert_eq!(stake_from_word(&word, "9"), Ok(9));
    word[0] = 1;
    assert_eq!(stake_from_word(&word, "much"), Err("stake much exceeds u64 range".to_string()));
    assert!(!has_escrow(&[0u8; 20]));
    assert!(has_escrow(&[1u8; 20]));
}

#[test]
fn contract_addresses_are_parsed() {
    let good = "0x".to_string() + &"0a".repeat(20);
    assert_eq!(parse_contracts(&good, &good), Ok(([0x0a; 20], [0x0a; 20])));
    let e = parse_contracts("zz", &good).unwrap_err();
    assert!(e.starts_with("invalid factory address: "));
    let e = parse_contracts(&good, "").unwrap_err();
    assert!(e.starts_with("invalid registry address: "));
    assert_eq!(
        contracts_of(Err("x".to_string()), Err("y".to_string())),
        Err("invalid factory address: x".to_string())
    );
}

#[test]
fn validators_are_found_by_key() {
    let frg = FrgAdapter {
        validators: vec![
            ValidatorEntry { pubkey: vec![1u8; 32], bond: "12".to_string() },
            ValidatorEntry { pubkey: vec![2u8; 32], bond: "x".to_string() },
        ],
    };
    assert_eq!((frg.chain_id(), frg.native_denomination()), ("frg", "FRG"));
    assert_eq!(frg.validator_bond(&[1u8; 32]), Ok(12));
    assert_eq!(
        frg.validator_bond(&[2u8; 32]),
        Err("chain-frg: unparsable bond \"x\": invalid digit found in string".to_string())
    );
    assert_eq!(frg.validator_bond(&[3u8; 32]), Ok(0));
    assert!(frg.is_validator(&[2u8; 32]));
    assert!(!frg.is_validator(&[3u8; 32]));
    assert!(frg.register_node(&[1u8; 32], "eu", 5).is_err());
    assert!(frg.submit_missed_deadline_report(&[1u8; 32]).is_err());
    assert!(frg.is_trade_settled(&[1u8; 32], &[2u8; 32]).is_err());
    assert_eq!(frg.get_node_reputation(&[1u8; 32]), Ok((5000, 0, 0)));
    assert_eq!(submit_outcome(true, ""), Ok(()));
    assert_eq!(
        submit_outcome(false, "nonce"),
        Err("chain-frg: SubmitTx rejected: nonce".to_string())
    );
}

#[test]
fn solana_settles_nothing() {
    let s = SolanaAdapter;
    assert_eq!((s.chain_id(), s.native_denomination()), ("solana", "SOL"));
    let fee = SettlementFeeConfig { fee_recipient: [0u8; 32], tier: 0 };
    assert_eq!(
        s.submit_settlement_batch(&vec![], &vec![], &fee),
        Err("Solana settlement not yet implemented".to_string())
    );
    assert_eq!(
        s.register_node(&[0u8; 32], "eu", 1),
        Err("Solana registry not yet implemented".to_string())
    );
    assert_eq!(
        s.submit_missed_deadline_report(&[0u8; 32]),
        Err("Solana registry not yet implemented".to_string())
    );
    assert_eq!(s.get_node_stake(&[0u8; 32]), Ok(0));
    assert_eq!(s.is_node_active(&[0u8; 32]), Ok(false));
    assert_eq!(s.get_node_reputation(&[0u8; 32]), Ok((5000, 0, 0)));
    assert_eq!(s.is_trade_settled(&[0u8; 32], &[1u8; 32]), Ok(false));
}
