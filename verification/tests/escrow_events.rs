use chronos::accounts::{
    account_to_address, address_to_account, compute_trade_hash, token_to_address, trade_to_entry,
    EthAddress, SettlementTrade, Token,
};
use chronos::ledger::BalanceLedger;
use chronos::registry::{EscrowOwner, EscrowRegistry, TokenRegistry};
use chronos::store::{plan_record, stored_number, StoreWrite};
use chronos::sync::{apply_event, ChainEvent, ChainSync, RawLog};
use std::collections::BTreeMap;

fn sample_trade() -> SettlementTrade {
    SettlementTrade {
        maker_order_id: [1u8; 32],
        taker_order_id: [2u8; 32],
        trader: {
            let mut a = [0u8; 32];
            a[12..].copy_from_slice(&[0xAAu8; 20]);
            a
        },
        counterparty: {
            let mut a = [0u8; 32];
            a[12..].copy_from_slice(&[0xBBu8; 20]);
            a
        },
        token: Token::Native,
        amount: 1_000_000_000_000_000_000,
        fee: 1_000,
        deadline: 1_800_000_000,
        trade_hash: [0u8; 32],
        assigned_node: [0xCCu8; 32],
    }
}

#[test]
fn test_deterministic_same_input_same_hash() {
    let trade = sample_trade();
    let h1 = compute_trade_hash(&trade).unwrap();
    let h2 = compute_trade_hash(&trade).unwrap();
    assert_eq!(h1, h2);
}

#[test]
fn test_sensitive_to_every_field() {
    let base = sample_trade();
    let base_hash = compute_trade_hash(&base).unwrap();

    let mut t = base.clone();
    t.maker_order_id = [9u8; 32];
    assert_ne!(compute_trade_hash(&t).unwrap(), base_hash, "maker_order_id");

    let mut t = base.clone();
    t.taker_order_id = [9u8; 32];
    assert_ne!(compute_trade_hash(&t).unwrap(), base_hash, "taker_order_id");

    let mut t = base.clone();
    t.trader[31] ^= 0xFF;
    assert_ne!(compute_trade_hash(&t).unwrap(), base_hash, "trader");

    let mut t = base.clone();
    t.counterparty[31] ^= 0xFF;
    assert_ne!(compute_trade_hash(&t).unwrap(), base_hash, "counterparty");

    let mut t = base.clone();
    t.amount += 1;
    assert_ne!(compute_trade_hash(&t).unwrap(), base_hash, "amount");

    let mut t = base.clone();
    t.fee += 1;
    assert_ne!(compute_trade_hash(&t).unwrap(), base_hash, "fee");

    let mut t = base.clone();
    t.deadline += 1;
    assert_ne!(compute_trade_hash(&t).unwrap(), base_hash, "deadline");

    let mut t = base.clone();
    t.assigned_node[31] ^= 0xFF;
    assert_ne!(compute_trade_hash(&t).unwrap(), base_hash, "assigned_node");

    let mut t = base.clone();
    t.trade_hash = [0xFFu8; 32];
    assert_eq!(
        compute_trade_hash(&t).unwrap(),
        base_hash,
        "trade_hash field itself must not affect derivation"
    );
}

#[test]
fn test_rejects_invalid_account_encoding() {
    let mut trade = sample_trade();
    trade.trader = [0xAAu8; 32];
    assert!(compute_trade_hash(&trade).is_err());
}

// The digest is that of nine words of thirty-two bytes, one for each term.
#[test]
fn the_commitment_is_the_digest_of_its_terms() {
    let t = sample_trade();
    let mut terms: Vec<u8> = Vec::new();
    terms.extend_from_slice(&t.maker_order_id);
    terms.extend_from_slice(&t.taker_order_id);
    terms.extend_from_slice(&t.trader);
    terms.extend_from_slice(&t.counterparty);
    terms.extend_from_slice(&[0u8; 32]);
    for n in [t.amount, t.fee, t.deadline] {
        terms.extend_from_slice(&[0u8; 24]);
        terms.extend_from_slice(&n.to_be_bytes());
    }
    terms.extend_from_slice(&t.assigned_node);
    assert_eq!(compute_trade_hash(&t).unwrap(), alloy::primitives::keccak256(&terms).0);
}

#[test]
fn accounts_and_addresses_are_inverse() {
    let a: EthAddress = [7u8; 20];
    let account = address_to_account(a);
    assert_eq!(account[..12], [0u8; 12]);
    assert_eq!(account_to_address(account), Ok(a));
    let e = account_to_address([0xABu8; 32]).unwrap_err();
    assert_eq!(
        e,
        format!(
            "OnChainAccount {} is not a valid left-zero-padded Ethereum address",
            "ab".repeat(32)
        )
    );
}

#[test]
fn tokens_have_addresses_on_ethereum_alone() {
    assert_eq!(token_to_address(&Token::Native), Ok([0u8; 20]));
    let text = "0x".to_string() + &"1b".repeat(20);
    assert_eq!(token_to_address(&Token::Erc20(text)), Ok([0x1b; 20]));
    let e = token_to_address(&Token::Erc20("0x12".to_string())).unwrap_err();
    assert!(e.starts_with("invalid ERC20 address 0x12: "));
    let e = token_to_address(&Token::Spl("a\"b".to_string())).unwrap_err();
    assert_eq!(e, "Spl(\"a\\\"b\") is not an Ethereum token type");
    let e = token_to_address(&Token::Cw20("c".to_string())).unwrap_err();
    assert_eq!(e, "Cw20(\"c\") is not an Ethereum token type");
}

#[test]
fn entries_keep_the_terms() {
    let mut t = sample_trade();
    t.trade_hash = [5u8; 32];
    let e = trade_to_entry(&t).unwrap();
    assert_eq!(e.trader, [0xAAu8; 20]);
    assert_eq!(e.counterparty, [0xBBu8; 20]);
    assert_eq!(e.token, [0u8; 20]);
    assert_eq!(e.amount, 1_000_000_000_000_000_000);
    assert_eq!(e.fee, 1_000);
    assert_eq!(e.deadline, 1_800_000_000);
    assert_eq!(e.trade_hash, [5u8; 32]);
    assert_eq!(e.assigned_node, [0xCCu8; 32]);
    t.counterparty = [1u8; 32];
    assert!(trade_to_entry(&t).is_err());
}

fn addr(byte: u8) -> EthAddress {
    [byte; 20]
}

fn pubkey(byte: u8) -> [u8; 32] {
    [byte; 32]
}

#[test]
fn test_token_registry_round_trip() {
    let mut reg = TokenRegistry::new();
    let token = addr(1);
    assert_eq!(reg.symbol_of(token), None);
    reg.register(token, "BTC-USD");
    assert_eq!(reg.symbol_of(token), Some("BTC-USD"));
}

#[test]
fn test_token_registry_unknown_address() {
    let reg = TokenRegistry::new();
    assert_eq!(reg.symbol_of(addr(99)), None);
}

#[test]
fn test_escrow_registry_records_and_resolves() {
    let mut reg = EscrowRegistry::new();
    let trader = addr(1);
    let escrow = addr(2);
    let pk = pubkey(0xAA);
    assert_eq!(reg.owner_of(escrow), None);
    reg.record_escrow_created(trader, escrow, pk);
    assert_eq!(reg.owner_of(escrow), Some(EscrowOwner { trader, offchain_pubkey: pk }));
}

#[test]
fn test_escrow_registry_known_escrows() {
    let mut reg = EscrowRegistry::new();
    reg.record_escrow_created(addr(1), addr(10), pubkey(1));
    reg.record_escrow_created(addr(2), addr(20), pubkey(2));

    let mut escrows: Vec<EthAddress> = reg.known_escrows();
    escrows.sort();
    assert_eq!(escrows, vec![addr(10), addr(20)]);
}

#[test]
fn test_escrow_registry_distinct_traders_distinct_escrows() {
    let mut reg = EscrowRegistry::new();
    let escrow_a = addr(10);
    let escrow_b = addr(11);
    reg.record_escrow_created(addr(1), escrow_a, pubkey(1));
    reg.record_escrow_created(addr(2), escrow_b, pubkey(2));

    assert_eq!(reg.owner_of(escrow_a).unwrap().trader, addr(1));
    assert_eq!(reg.owner_of(escrow_b).unwrap().trader, addr(2));
}

#[test]
fn a_bound_key_resolves_to_its_trader() {
    let mut reg = EscrowRegistry::new();
    assert_eq!(reg.resolve_address(pubkey(1)), None);
    reg.record_escrow_created(addr(1), addr(10), pubkey(1));
    assert_eq!(reg.resolve_address(pubkey(1)), Some(addr(1)));
    assert_eq!(reg.resolve_address(pubkey(2)), None);
}

fn pk(byte: u8) -> [u8; 32] {
    [byte; 32]
}

#[test]
fn test_deposit_credits_ledger() {
    let mut ledger = BalanceLedger::new();
    let trader = pk(1);
    apply_event(
        &mut ledger,
        &ChainEvent::Deposited {
            escrow: [0u8; 20],
            trader: [0u8; 20],
            offchain_pubkey: trader,
            token: [0u8; 20],
            symbol: Some("ETH-USD".to_string()),
            amount: 1_000,
            block_number: 1,
        },
    );
    assert_eq!(ledger.balance_of(trader, "ETH-USD"), 1_000);
}

#[test]
fn test_withdrawal_debits_ledger() {
    let mut ledger = BalanceLedger::new();
    let trader = pk(1);
    ledger.deposit(trader, "ETH-USD", 1_000);

    apply_event(
        &mut ledger,
        &ChainEvent::Withdrawn {
            escrow: [0u8; 20],
            trader: [0u8; 20],
            offchain_pubkey: trader,
            token: [0u8; 20],
            symbol: Some("ETH-USD".to_string()),
            amount: 400,
            block_number: 2,
        },
    );
    assert_eq!(ledger.balance_of(trader, "ETH-USD"), 600);
}

#[test]
fn test_deposit_with_unknown_symbol_is_skipped() {
    let mut ledger = BalanceLedger::new();
    let trader = pk(1);
    apply_event(
        &mut ledger,
        &ChainEvent::Deposited {
            escrow: [0u8; 20],
            trader: [0u8; 20],
            offchain_pubkey: trader,
            token: [0u8; 20],
            symbol: None,
            amount: 1_000,
            block_number: 1,
        },
    );
    assert_eq!(ledger.balance_of(trader, "ETH-USD"), 0);
}

#[test]
fn test_deposit_amount_too_large_for_u64_is_skipped() {
    let mut ledger = BalanceLedger::new();
    let trader = pk(1);
    apply_event(
        &mut ledger,
        &ChainEvent::Deposited {
            escrow: [0u8; 20],
            trader: [0u8; 20],
            offchain_pubkey: trader,
            token: [0u8; 20],
            symbol: Some("ETH-USD".to_string()),
            amount: u128::from(u64::MAX) + 1,
            block_number: 1,
        },
    );
    assert_eq!(ledger.balance_of(trader, "ETH-USD"), 0);
}

#[test]
fn test_withdrawal_exceeding_balance_does_not_panic_or_underflow() {
    let mut ledger = BalanceLedger::new();
    let trader = pk(1);
    ledger.deposit(trader, "ETH-USD", 100);

    apply_event(
        &mut ledger,
        &ChainEvent::Withdrawn {
            escrow: [0u8; 20],
            trader: [0u8; 20],
            offchain_pubkey: trader,
            token: [0u8; 20],
            symbol: Some("ETH-USD".to_string()),
            amount: 500,
            block_number: 2,
        },
    );
    assert_eq!(ledger.balance_of(trader, "ETH-USD"), 100);
}

#[test]
fn test_escrow_created_has_no_ledger_effect() {
    let mut ledger = BalanceLedger::new();
    let trader = pk(1);
    apply_event(
        &mut ledger,
        &ChainEvent::EscrowCreated {
            trader: [0u8; 20],
            escrow: [0u8; 20],
            offchain_pubkey: trader,
        },
    );
    assert_eq!(ledger.balance_of(trader, "ETH-USD"), 0);
}

fn topic(signature: &str) -> [u8; 32] {
    alloy::primitives::keccak256(signature.as_bytes()).0
}

fn word(a: EthAddress) -> [u8; 32] {
    address_to_account(a)
}

fn created(trader: EthAddress, escrow: EthAddress, key: [u8; 32]) -> RawLog {
    let mut data = word(escrow).to_vec();
    data.extend_from_slice(&key);
    RawLog {
        address: addr(99),
        topics: vec![topic("EscrowCreated(address,address,bytes32)"), word(trader)],
        data,
        block_number: Some(1),
    }
}

fn moved(signature: &str, escrow: EthAddress, token: EthAddress, amount: u64) -> RawLog {
    let mut data = vec![0u8; 24];
    data.extend_from_slice(&amount.to_be_bytes());
    RawLog {
        address: escrow,
        topics: vec![topic(signature), word(token)],
        data,
        block_number: Some(7),
    }
}

#[test]
fn scans_stop_short_of_the_head() {
    let sync = ChainSync::new(addr(99), TokenRegistry::new(), 12, 100);
    assert_eq!(sync.factory_address(), addr(99));
    assert_eq!(sync.last_synced_block(), 100);
    assert_eq!(sync.scan_range(112), None);
    assert_eq!(sync.scan_range(113), Some((101, 101)));
    assert_eq!(sync.scan_range(5), None);
}

#[test]
fn scans_do_not_overlap() {
    let mut sync = ChainSync::new(addr(99), TokenRegistry::new(), 0, 0);
    assert_eq!(sync.scan_range(10), Some((1, 10)));
    sync.finish_scan(10);
    assert_eq!(sync.last_synced_block(), 10);
    assert_eq!(sync.scan_range(10), None);
    assert_eq!(sync.scan_range(20), Some((11, 20)));
}

#[test]
fn logs_become_events() {
    let mut tokens = TokenRegistry::new();
    tokens.register(addr(3), "ETH-USD");
    let mut sync = ChainSync::new(addr(99), tokens, 0, 0);
    let events = sync.absorb_factory_logs(&vec![created(addr(1), addr(2), pk(4))]).unwrap();
    assert_eq!(
        events,
        vec![ChainEvent::EscrowCreated {
            trader: addr(1),
            escrow: addr(2),
            offchain_pubkey: pk(4)
        }]
    );
    let events = sync.escrow_log_events(
        &vec![
            moved("Deposited(address,uint256)", addr(2), addr(3), 50),
            moved("Withdrawn(address,uint256)", addr(2), addr(5), 20),
            moved("Transfer(address,uint256)", addr(2), addr(3), 20),
            moved("Deposited(address,uint256)", addr(8), addr(3), 20),
        ],
        9,
    );
    assert_eq!(
        events,
        vec![
            ChainEvent::Deposited {
                escrow: addr(2),
                trader: addr(1),
                offchain_pubkey: pk(4),
                token: addr(3),
                symbol: Some("ETH-USD".to_string()),
                amount: 50,
                block_number: 7,
            },
            ChainEvent::Withdrawn {
                escrow: addr(2),
                trader: addr(1),
                offchain_pubkey: pk(4),
                token: addr(5),
                symbol: None,
                amount: 20,
                block_number: 7,
            },
        ]
    );
    let mut late = moved("Deposited(address,uint256)", addr(2), addr(3), 1);
    late.block_number = None;
    match &sync.escrow_log_events(&vec![late], 9)[0] {
        ChainEvent::Deposited { block_number, .. } => assert_eq!(*block_number, 9),
        _ => panic!("a deposit"),
    }
}

// A deposit of an earlier block comes before a new escrow of a later one, and after one of its own.
#[test]
fn events_come_in_block_order() {
    let mut sync = ChainSync::new(addr(99), TokenRegistry::new(), 0, 0);
    let at = |mut log: RawLog, block: Option<u64>| {
        log.block_number = block;
        log
    };
    let created = vec![
        at(created(addr(1), addr(2), pk(4)), Some(5)),
        at(created(addr(6), addr(7), pk(8)), Some(9)),
    ];
    sync.absorb_factory_logs(&created).unwrap();
    let deposit = |amount: u64| moved("Deposited(address,uint256)", addr(2), addr(3), amount);
    let logs = vec![at(deposit(10), Some(5)), at(deposit(20), Some(8)), at(deposit(30), None)];
    let events = sync.try_complete_scan(&created, &logs, 12).unwrap();
    let shown: Vec<String> = events
        .iter()
        .map(|e| match e {
            ChainEvent::EscrowCreated { trader, .. } => format!("escrow {}", trader[0]),
            ChainEvent::Deposited { amount, block_number, .. } => {
                format!("{amount} at {block_number}")
            }
            ChainEvent::Withdrawn { .. } => "withdrawal".to_string(),
        })
        .collect();
    assert_eq!(shown, vec!["escrow 1", "10 at 5", "20 at 8", "escrow 6", "30 at 12"]);
    assert_eq!(sync.last_synced_block(), 12);
}

#[test]
fn a_scan_with_an_amount_too_wide_is_not_completed() {
    let mut sync = ChainSync::new(addr(99), TokenRegistry::new(), 0, 3);
    let new = vec![created(addr(1), addr(2), pk(4))];
    sync.absorb_factory_logs(&new).unwrap();
    let mut wide = moved("Deposited(address,uint256)", addr(2), addr(3), 1);
    wide.data[15] = 1;
    assert_eq!(sync.try_complete_scan(&new, &vec![wide], 12), None);
    assert_eq!(sync.last_synced_block(), 3);
    let mut top = moved("Deposited(address,uint256)", addr(2), addr(3), u64::MAX);
    top.data[16..24].copy_from_slice(&[0xFF; 8]);
    match &sync.try_complete_scan(&vec![], &vec![top], 12).unwrap()[0] {
        ChainEvent::Deposited { amount, .. } => assert_eq!(*amount, u128::MAX),
        _ => panic!("a deposit"),
    }
}

#[test]
fn an_amount_too_wide_of_an_unknown_escrow_is_skipped() {
    let mut sync = ChainSync::new(addr(99), TokenRegistry::new(), 0, 3);
    let new = vec![created(addr(1), addr(2), pk(4))];
    sync.absorb_factory_logs(&new).unwrap();
    let mut wide = moved("Deposited(address,uint256)", addr(8), addr(3), 1);
    wide.data[15] = 1;
    let fits = moved("Withdrawn(address,uint256)", addr(2), addr(3), 6);
    let events = sync.try_complete_scan(&new, &vec![wide, fits], 12).unwrap();
    assert_eq!(events.len(), 2);
    assert!(matches!(&events[1], ChainEvent::Withdrawn { amount: 6, .. }));
    assert_eq!(sync.last_synced_block(), 12);
}

fn refusal_of(bad: RawLog) -> String {
    let mut sync = ChainSync::new(addr(99), TokenRegistry::new(), 0, 0);
    sync.absorb_factory_logs(&vec![bad]).unwrap_err()
}

#[test]
fn a_malformed_factory_log_is_an_error() {
    let good = created(addr(1), addr(2), pk(4));
    let mut short = good.clone();
    short.data.truncate(63);
    let reason = alloy::sol_types::Error::Overrun;
    assert_eq!(refusal_of(short.clone()), format!("decode EscrowCreated failed: {reason}"));
    assert_eq!(
        refusal_of(short.clone()),
        "decode EscrowCreated failed: ABI decoding failed: buffer overrun while deserializing"
    );

    let mut other = good.clone();
    other.topics[0] = topic("Deposited(address,uint256)");
    let reason = alloy::sol_types::Error::InvalidEventSignatureHash {
        name: "EscrowCreated(address,address,bytes32)",
        got: alloy::primitives::B256::from(other.topics[0]),
        expected: alloy::primitives::B256::from(good.topics[0]),
    };
    assert_eq!(refusal_of(other.clone()), format!("decode EscrowCreated failed: {reason}"));

    // The number of topics is looked at first, then the first topic, then the data.
    other.topics.push([0u8; 32]);
    other.data.clear();
    let reason = <(
        alloy::sol_types::sol_data::FixedBytes<32>,
        alloy::sol_types::sol_data::Address,
    ) as alloy::sol_types::TopicList>::detokenize(
        other.topics.iter().map(|t| alloy::primitives::B256::from(*t)),
    )
    .unwrap_err();
    assert_eq!(refusal_of(other.clone()), format!("decode EscrowCreated failed: {reason}"));
    other.topics.pop();
    assert!(refusal_of(other).contains("invalid signature hash"));
    short.topics.clear();
    assert_eq!(refusal_of(short), "decode EscrowCreated failed: topic list length mismatch");
}

#[test]
fn replay_rebuilds_registry_and_ledger() {
    let events = vec![
        ChainEvent::EscrowCreated { trader: addr(1), escrow: addr(2), offchain_pubkey: pk(4) },
        ChainEvent::Deposited {
            escrow: addr(2),
            trader: addr(1),
            offchain_pubkey: pk(4),
            token: addr(3),
            symbol: Some("ETH-USD".to_string()),
            amount: 50,
            block_number: 7,
        },
    ];
    let mut sync = ChainSync::new(addr(99), TokenRegistry::new(), 0, 0);
    let mut ledger = BalanceLedger::new();
    assert_eq!(sync.replay_all(&mut ledger, &events), 2);
    assert_eq!(ledger.balance_of(pk(4), "ETH-USD"), 50);
    assert_eq!(sync.escrows().resolve_address(pk(4)), Some(addr(1)));

    // One event after the other comes to the same.
    let mut parts = ChainSync::new(addr(99), TokenRegistry::new(), 0, 0);
    for e in &events {
        parts.replay(e);
    }
    assert_eq!(parts.escrows().known_escrows(), sync.escrows().known_escrows());
}

fn record(db: &mut BTreeMap<Vec<u8>, Vec<u8>>, next: u64, events: &[&str], through: u64) {
    for w in plan_record(next, events.len(), through) {
        match w {
            StoreWrite::Event { key, index } => {
                db.insert(key, events[index].as_bytes().to_vec());
            }
            StoreWrite::Put { key, value } => {
                db.insert(key, value);
            }
        }
    }
}

#[test]
fn recorded_events_read_back_in_order() {
    let mut db: BTreeMap<Vec<u8>, Vec<u8>> = BTreeMap::new();
    record(&mut db, 0, &["a", "b"], 42);
    record(&mut db, 2, &["c"], 50);
    assert_eq!(stored_number(&db[&b"__last_synced_block__".to_vec()]), Some(50));
    assert_eq!(stored_number(&db[&b"__event_seq__".to_vec()]), Some(3));
    let events: Vec<Vec<u8>> =
        db.iter().filter(|(k, _)| k.starts_with(b"event:")).map(|(_, v)| v.clone()).collect();
    assert_eq!(events, vec![b"a".to_vec(), b"b".to_vec(), b"c".to_vec()]);
}

#[test]
fn an_empty_batch_moves_the_watermark_alone() {
    let mut db: BTreeMap<Vec<u8>, Vec<u8>> = BTreeMap::new();
    record(&mut db, 7, &[], 5);
    assert_eq!(db.len(), 1);
    assert_eq!(stored_number(&db[&b"__last_synced_block__".to_vec()]), Some(5));
}

#[test]
fn a_stored_number_has_eight_bytes() {
    assert_eq!(stored_number(&258u64.to_be_bytes()), Some(258));
    assert_eq!(stored_number(&[1, 2, 3]), None);
    assert_eq!(stored_number(&[0; 9]), None);
}
