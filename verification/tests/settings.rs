use chronos::config::{
    chain_peers, check_sequencing, choose_api_key, parse_active_nodes, parse_eth, parse_key,
    parse_peer, parse_peer_key, parse_region, parse_switch, peer_entries, positive_or,
    required_number, setting_or, simulation_node_key, stake_of, OnChainConfig,
};
use chronos::text::{parse_number, split_max, trim, NumberFault};
use chronos::types::Region;
use chronos::wallet::{
    accept_body, account_path, contract_address_path, contract_state_path, decode_pubkey,
    encode_pubkey, read_account, read_contract_state, read_deployment, read_pubkey, read_status,
    read_validators, unexpected_body, ContractStateAnswer, StatusAnswer, ValidatorAnswer,
};

#[test]
fn keys_are_thirty_two_bytes_of_hex() {
    let text = "ab".repeat(32);
    assert_eq!(parse_key("KEY", &text), Ok([0xABu8; 32]));
    assert_eq!(parse_key("KEY", &format!("0x{text}")), Ok([0xABu8; 32]));
    assert_eq!(
        parse_key("KEY", "abcd"),
        Err("KEY must be exactly 32 bytes, got 2".to_string())
    );
    assert_eq!(
        parse_key("KEY", "q0"),
        Err("KEY is not valid hex: Invalid character 'q' at position 0".to_string())
    );
}

#[test]
fn numbers_fall_back_to_defaults() {
    assert_eq!(setting_or(Some("12"), u64::MAX, 5), 12);
    assert_eq!(setting_or(Some("x"), u64::MAX, 5), 5);
    assert_eq!(setting_or(Some("300"), 255, 5), 5);
    assert_eq!(setting_or(None, u64::MAX, 5), 5);
    assert_eq!(positive_or(Some("0"), u64::MAX, 5), 5);
    assert_eq!(positive_or(Some("7"), u64::MAX, 5), 7);
    assert_eq!(required_number("PORT", "u16", "80", 65535), Ok(80));
    assert_eq!(
        required_number("PORT", "u16", "99999", 65535),
        Err("PORT is not a valid u16: number too large to fit in target type".to_string())
    );
}

#[test]
fn a_node_must_be_among_the_active() {
    let own = [1u8; 32];
    assert_eq!(parse_active_nodes(None, &own), Ok(vec![own]));
    let list = format!("{}, 0x{}", "01".repeat(32), "02".repeat(32));
    assert_eq!(parse_active_nodes(Some(&list), &own), Ok(vec![own, [2u8; 32]]));
    assert!(parse_active_nodes(Some(&list), &[3u8; 32])
        .unwrap_err()
        .starts_with("MEX_SETTLEMENT_ACTIVE_NODES is set but does not contain"));
    assert!(parse_active_nodes(Some("zz"), &own)
        .unwrap_err()
        .starts_with("MEX_SETTLEMENT_ACTIVE_NODES entry 'zz'"));
}

#[test]
fn regions_have_names() {
    assert_eq!(parse_region(None), Ok(Region::UsEast1));
    assert_eq!(parse_region(Some("eu-west-1")), Ok(Region::EuWest1));
    assert_eq!(parse_region(Some("ap-southeast-1")), Ok(Region::ApSoutheast1));
    assert_eq!(parse_region(Some("us-east-1")), Ok(Region::UsEast1));
    assert_eq!(
        parse_region(Some("moon")).unwrap_err(),
        "MEX_MESH_REGION must be one of us-east-1/eu-west-1/ap-southeast-1, got moon"
    );
}

#[test]
fn peers_are_listed_with_their_keys() {
    let entries = peer_entries("1@a:9,,2@b:8@0102");
    assert_eq!(entries, vec!["1@a:9", "2@b:8@0102"]);
    let p = parse_peer(entries[0]).unwrap();
    assert_eq!((p.id, p.address.as_str(), p.pubkey), (1, "a:9", None));
    let p = parse_peer(entries[1]).unwrap();
    assert_eq!((p.id, p.address.as_str()), (2, "b:8"));
    assert_eq!(p.pubkey.as_deref(), Some("0102"));
    assert_eq!(
        parse_peer("7").unwrap_err(),
        "MEX_MESH_PEERS entry '7' must be of the form id@host:port[@pubkeyhex]"
    );
    assert_eq!(
        parse_peer("x@a:9").unwrap_err(),
        "MEX_MESH_PEERS entry 'x@a:9' has an invalid id: invalid digit found in string"
    );
    assert_eq!(parse_peer_key("e", Some("0a".repeat(32).as_str())), Ok([0x0Au8; 32]));
    assert_eq!(parse_peer_key("e", None), Ok([0u8; 32]));
    assert!(parse_peer_key("e", Some("zz")).unwrap_err().contains("has invalid pubkey hex"));
    assert_eq!(chain_peers(&vec![[0u8; 32], [1u8; 32]]), vec![[1u8; 32]]);
}

#[test]
fn switches_and_keys() {
    assert!(parse_switch(Some("1")));
    assert!(parse_switch(Some("true")));
    assert!(!parse_switch(Some("0")));
    assert!(!parse_switch(None));
    assert_eq!(choose_api_key(Some("k".to_string()), false), Ok("k".to_string()));
    assert_eq!(choose_api_key(None, true), Ok("dev-default-key".to_string()));
    assert_eq!(
        choose_api_key(None, false),
        Err("MEX_API_KEY must be set in a release build".to_string())
    );
    assert!(check_sequencing(true, true).is_ok());
    assert!(check_sequencing(false, false).is_ok());
    assert!(check_sequencing(true, false).is_err());
}

#[test]
fn the_first_missing_setting_is_named() {
    let some = || Some("v".to_string());
    assert!(OnChainConfig::from_values(some(), some(), some(), some()).is_ok());
    let e = OnChainConfig::from_values(some(), None, None, some()).unwrap_err();
    assert_eq!(e, "required environment variable AGENT_SIM_DEPLOYER_KEY not set");
    let e = OnChainConfig::from_values(None, None, None, None).unwrap_err();
    assert_eq!(e, "required environment variable AGENT_SIM_RPC_URL not set");
    let e = OnChainConfig::from_values(some(), some(), some(), None).unwrap_err();
    assert_eq!(e, "required environment variable AGENT_SIM_REGISTRY_ADDRESS not set");
}

#[test]
fn stakes_are_in_wei() {
    assert_eq!(parse_eth("2"), 2_000_000_000_000_000_000);
    assert_eq!(stake_of("3"), Ok(3_000_000_000_000_000_000));
    assert_eq!(stake_of("19"), Err("NODE_STAKE_ETH exceeds u64 range".to_string()));
    assert_ne!(simulation_node_key(), [0u8; 32]);
}

#[test]
fn numbers_are_read_as_std_reads_them() {
    assert_eq!(parse_number("+007", 255), Ok(7));
    assert_eq!(parse_number("", 255), Err(NumberFault::Empty));
    assert_eq!(parse_number("+", 255), Err(NumberFault::InvalidDigit));
    assert_eq!(parse_number("-1", 255), Err(NumberFault::InvalidDigit));
    assert_eq!(parse_number("256", 255), Err(NumberFault::TooLarge));
    assert_eq!(parse_number("255", 255), Ok(255));
    assert_eq!(
        NumberFault::Empty.message(),
        "".parse::<u8>().unwrap_err().to_string()
    );
    assert_eq!(
        NumberFault::TooLarge.message(),
        "256".parse::<u8>().unwrap_err().to_string()
    );
}

#[test]
fn white_space_is_that_of_unicode() {
    let mut spaces = 0;
    for c in '\0'..=char::MAX {
        let text = c.to_string();
        assert_eq!(trim(&text).is_empty(), c.is_whitespace(), "{:x}", c as u32);
        spaces += trim(&text).is_empty() as usize;
    }
    assert_eq!(spaces, 25);
}

#[test]
fn text_is_cut_and_trimmed() {
    assert_eq!(split_max("a@b@c", '@', 2), vec!["a", "b@c"]);
    assert_eq!(split_max("a", '@', 3), vec!["a"]);
    assert_eq!(trim(" \u{a0}x y\t\n"), "x y");
    assert_eq!(trim("   "), "");
}

#[test]
fn wallet_keys_read_back() {
    let key = [0x5Au8; 32];
    let text = encode_pubkey(&key);
    assert_eq!(text, "5a".repeat(32));
    assert_eq!(decode_pubkey("pubkey", &text), Ok(key));
    assert_eq!(
        decode_pubkey("pubkey", "5a"),
        Err("frg-wallet: pubkey must be 32 bytes, got 1".to_string())
    );
    let e = decode_pubkey("pubkey", "zz").unwrap_err();
    assert_eq!(
        e,
        "frg-wallet: pubkey \"zz\" is not hex: Invalid character 'z' at position 0"
    );
}

#[test]
fn wallet_paths() {
    let key = [1u8; 32];
    let text = "01".repeat(32);
    assert_eq!(account_path(None), "/account");
    assert_eq!(account_path(Some(key)), format!("/account?pubkey={text}"));
    assert_eq!(contract_address_path(None), "/contracts/address");
    assert_eq!(contract_address_path(Some(12)), "/contracts/address?nonce=12");
    assert_eq!(
        contract_state_path(&key, None),
        format!("/contracts/state?contract_address={text}")
    );
    assert_eq!(
        contract_state_path(&key, Some(&[0xFF, 0])),
        format!("/contracts/state?contract_address={text}&key_hex=ff00")
    );
}

#[test]
fn wallet_answers_are_read() {
    let text = "01".repeat(32);
    assert_eq!(read_pubkey(&text, "frg".to_string()), Ok(([1u8; 32], "frg".to_string())));
    let a = read_account(&text, "5".to_string(), "0.5".to_string(), 9).unwrap();
    assert_eq!((a.pubkey, a.balance.as_str(), a.nonce), ([1u8; 32], "5", 9));
    assert!(read_account("", "5".to_string(), "0.5".to_string(), 9).is_err());
    let v = read_validators(vec![ValidatorAnswer {
        pubkey: text.clone(),
        bond: "7".to_string(),
        bond_frg: "7".to_string(),
    }])
    .unwrap();
    assert_eq!((v[0].pubkey, v[0].bond.as_str()), ([1u8; 32], "7"));
    assert!(read_validators(vec![ValidatorAnswer {
        pubkey: "x".to_string(),
        bond: "7".to_string(),
        bond_frg: "7".to_string(),
    }])
    .is_err());
    assert_eq!(read_deployment("t".to_string(), &text), Ok(("t".to_string(), [1u8; 32])));
}

fn status(root: &str) -> StatusAnswer {
    StatusAnswer {
        height: 4,
        state_root: root.to_string(),
        peer_count: 3,
        mempool_len: 2,
        validator_count: 1,
        consensus_round: 7,
        consensus_phase: "commit".to_string(),
        grpc_only: true,
    }
}

#[test]
fn the_state_root_is_base64() {
    let s = read_status(status("AQIDBA==")).unwrap();
    assert_eq!(s.state_root, vec![1, 2, 3, 4]);
    assert_eq!((s.height, s.consensus_round, s.grpc_only), (4, 7, true));
    let e = read_status(status("!")).unwrap_err();
    assert!(e.starts_with("frg-wallet: state_root is not base64: "));
}

#[test]
fn contract_state_is_hex() {
    let answer = |root: &str, key: &str, value: &str| ContractStateAnswer {
        contract_address: "01".repeat(32),
        exists: true,
        state_root: root.to_string(),
        key: key.to_string(),
        found: false,
        value: value.to_string(),
    };
    let s = read_contract_state(answer("0a", "0b", "")).unwrap();
    assert_eq!((s.state_root, s.key, s.value), (vec![10], vec![11], vec![]));
    assert!(s.exists && !s.found);
    let e = read_contract_state(answer("0", "0b", "")).unwrap_err();
    assert_eq!(e, "frg-wallet: state_root is not hex: Odd number of digits");
    assert!(read_contract_state(answer("00", "0", "")).is_err());
    assert!(read_contract_state(answer("00", "00", "x")).is_err());
}

#[test]
fn failed_requests_are_explained() {
    assert_eq!(accept_body(true, "200 OK", None, "{}".to_string()), Ok("{}".to_string()));
    assert_eq!(
        accept_body(false, "500", Some("why".to_string()), "{}".to_string()),
        Err("frg-wallet: 500: why".to_string())
    );
    assert_eq!(
        accept_body(false, "500", None, "body".to_string()),
        Err("frg-wallet: 500: body".to_string())
    );
    assert_eq!(
        unexpected_body("x", "eof"),
        "frg-wallet: unexpected response body (\"x\"): eof"
    );
}
