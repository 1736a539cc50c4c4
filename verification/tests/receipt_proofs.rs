use chronos::receipts::{receipt_message, sign_receipt, sign_receipt_at, verify_receipt};
use chronos::types::OrderSide;

fn random_key() -> [u8; 32] {
    ed25519_dalek::SigningKey::generate(&mut rand::rngs::OsRng).to_bytes()
}

#[test]
fn test_sign_and_verify_roundtrip() {
    let signing_key = random_key();
    let receipt = sign_receipt(
        &signing_key,
        [1u8; 32],
        [2u8; 32],
        "ETH-USD",
        OrderSide::Buy,
        3000,
        1,
        42,
        9999,
    );
    assert!(verify_receipt(&receipt));
}

#[test]
fn test_tampered_receipt_fails_verification() {
    let signing_key = random_key();
    let mut receipt = sign_receipt(
        &signing_key,
        [1u8; 32],
        [2u8; 32],
        "ETH-USD",
        OrderSide::Buy,
        3000,
        1,
        42,
        9999,
    );
    receipt.price = 4000;
    assert!(!verify_receipt(&receipt));
}

#[test]
fn test_wrong_key_fails_verification() {
    let signing_key = random_key();
    let other_key = ed25519_dalek::SigningKey::generate(&mut rand::rngs::OsRng);
    let mut receipt = sign_receipt(
        &signing_key,
        [1u8; 32],
        [2u8; 32],
        "ETH-USD",
        OrderSide::Buy,
        3000,
        1,
        42,
        9999,
    );
    receipt.node_pubkey = other_key.verifying_key().to_bytes();
    assert!(!verify_receipt(&receipt));
}

#[test]
fn a_key_is_not_signed_but_checked() {
    let seed = random_key();
    let other = random_key();
    let mut r =
        sign_receipt_at(&seed, [1u8; 32], [2u8; 32], "ETH-USD", OrderSide::Buy, 1, 2, 3, 4, 5);
    let s = sign_receipt_at(&other, [1u8; 32], [2u8; 32], "ETH-USD", OrderSide::Buy, 1, 2, 3, 4, 5);
    r.node_pubkey = s.node_pubkey;
    assert!(!verify_receipt(&r));
    // With the signature that the other key makes of the same fields it holds again.
    r.signature = s.signature.clone();
    assert!(verify_receipt(&r));
}

// The first key pair of the test vectors of RFC 8032.
#[test]
fn the_public_key_is_that_of_the_seed() {
    let seed: [u8; 32] =
        hex::decode("9d61b19deffd5a60ba844af492ec2cc44449c5697b326919703bac031cae7f60")
            .unwrap()
            .try_into()
            .unwrap();
    let r =
        sign_receipt_at(&seed, [1u8; 32], [2u8; 32], "ETH-USD", OrderSide::Sell, 1, 2, 3, 4, 5);
    assert_eq!(
        hex::encode(r.node_pubkey),
        "d75a980182b10ab7d54bfed3c964073a0ee172f3daa62325af021a68f707511a"
    );
    assert_eq!(r.received_at_us, 5);
    assert_eq!(r.signature.len(), 64);
    assert!(verify_receipt(&r));
}

#[test]
fn a_malformed_signature_is_refused() {
    let mut r = sign_receipt(
        &random_key(),
        [1u8; 32],
        [2u8; 32],
        "ETH-USD",
        OrderSide::Sell,
        1,
        2,
        3,
        4,
    );
    r.signature.pop();
    assert!(!verify_receipt(&r));
}

#[test]
fn an_invalid_public_key_is_refused() {
    let mut r = sign_receipt(
        &random_key(),
        [1u8; 32],
        [2u8; 32],
        "ETH-USD",
        OrderSide::Sell,
        1,
        2,
        3,
        4,
    );
    // No point of the curve has this y coordinate.
    r.node_pubkey = [0u8; 32];
    r.node_pubkey[0] = 2;
    assert!(!verify_receipt(&r));
}

#[test]
fn messages_tell_every_field_apart() {
    let base = receipt_message(&[1; 32], &[2; 32], "ETH", OrderSide::Buy, 1, 2, 3, 4, 5);
    let mut others = vec![
        receipt_message(&[9; 32], &[2; 32], "ETH", OrderSide::Buy, 1, 2, 3, 4, 5),
        receipt_message(&[1; 32], &[9; 32], "ETH", OrderSide::Buy, 1, 2, 3, 4, 5),
        receipt_message(&[1; 32], &[2; 32], "BTC", OrderSide::Buy, 1, 2, 3, 4, 5),
        receipt_message(&[1; 32], &[2; 32], "ETH", OrderSide::Sell, 1, 2, 3, 4, 5),
        receipt_message(&[1; 32], &[2; 32], "ETH", OrderSide::Buy, 9, 2, 3, 4, 5),
        receipt_message(&[1; 32], &[2; 32], "ETH", OrderSide::Buy, 1, 9, 3, 4, 5),
        receipt_message(&[1; 32], &[2; 32], "ETH", OrderSide::Buy, 1, 2, 9, 4, 5),
        receipt_message(&[1; 32], &[2; 32], "ETH", OrderSide::Buy, 1, 2, 3, 9, 5),
        receipt_message(&[1; 32], &[2; 32], "ETH", OrderSide::Buy, 1, 2, 3, 4, 9),
    ];
    others.push(base);
    for i in 0..others.len() {
        for j in 0..i {
            assert_ne!(others[i], others[j]);
        }
    }
}
