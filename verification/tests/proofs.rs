use ark_bn254::{Fq, Fq2, Fr, G1Affine, G2Affine};
use ark_ec::{AffineRepr, CurveGroup};
use ark_ff::{BigInteger, PrimeField};
use chronos::bn254::{fq_from_be, fq_to_be, fr_from_be, G1, G2};
use chronos::bytes::u64_to_bytes32;
use chronos::groth16::{
    begin_settle, build_pairing_input, parse_calldata, settled_hashes, MAX_CALLDATA_LEN,
    MAX_TRADES, PROOF_LEN,
};
use chronos::vk;

fn fq(be: &[u8]) -> Fq {
    Fq::from_be_bytes_mod_order(be)
}

fn g1(p: G1) -> G1Affine {
    G1Affine::new_unchecked(fq(&p.x.be), fq(&p.y.be))
}

fn g2(p: G2) -> G2Affine {
    G2Affine::new_unchecked(
        Fq2::new(fq(&p.x0.be), fq(&p.x1.be)),
        Fq2::new(fq(&p.y0.be), fq(&p.y1.be)),
    )
}

fn put(out: &mut Vec<u8>, f: Fq) {
    out.extend_from_slice(&f.into_bigint().to_bytes_be());
}

// A message of the given trades whose proof is made of three points of the curve.
fn build_calldata(trades: &[(u8, u64, u64)]) -> Vec<u8> {
    let total: u64 = trades.iter().map(|t| t.1 * t.2).sum();
    let mut out = Vec::new();
    out.extend_from_slice(&[0u8; 32]);
    out.extend_from_slice(&u64_to_bytes32(total));
    out.push(trades.len() as u8);
    for t in trades {
        out.extend_from_slice(&[t.0; 32]);
    }
    let a = G1Affine::generator();
    let b = G2Affine::generator();
    let c = a.mul_bigint([2u64]).into_affine();
    put(&mut out, a.x);
    put(&mut out, a.y);
    put(&mut out, b.x.c0);
    put(&mut out, b.x.c1);
    put(&mut out, b.y.c0);
    put(&mut out, b.y.c1);
    put(&mut out, c.x);
    put(&mut out, c.y);
    out
}

#[test]
fn vk_constants_are_valid_points() {
    assert!(
        g1(vk::alpha()).is_on_curve()
            && g1(vk::alpha()).is_in_correct_subgroup_assuming_on_curve()
    );
    assert!(
        g2(vk::beta()).is_on_curve() && g2(vk::beta()).is_in_correct_subgroup_assuming_on_curve()
    );
    assert!(
        g2(vk::gamma()).is_on_curve()
            && g2(vk::gamma()).is_in_correct_subgroup_assuming_on_curve()
    );
    assert!(
        g2(vk::delta()).is_on_curve()
            && g2(vk::delta()).is_in_correct_subgroup_assuming_on_curve()
    );
    for i in 0..3 {
        assert!(
            g1(vk::ic(i)).is_on_curve()
                && g1(vk::ic(i)).is_in_correct_subgroup_assuming_on_curve()
        );
    }
}

#[test]
fn wrong_trade_count_length_is_rejected() {
    let mut calldata = build_calldata(&[(1, 3000, 5)]);
    calldata.pop();
    assert!(parse_calldata(&calldata).is_none());
}

#[test]
fn zero_trades_is_rejected() {
    let mut calldata = build_calldata(&[(1, 3000, 5)]);
    calldata[64] = 0;
    assert!(parse_calldata(&calldata).is_none());
}

#[test]
fn too_many_trades_is_rejected() {
    let mut calldata = build_calldata(&[(1, 3000, 5)]);
    calldata[64] = (MAX_TRADES + 1) as u8;
    assert!(parse_calldata(&calldata).is_none());
}

#[test]
fn calldata_parses_into_its_parts() {
    let calldata = build_calldata(&[(1, 3000, 5), (10, 2950, 3), (20, 3010, 7)]);
    let batch = parse_calldata(&calldata).unwrap();
    assert_eq!(batch.pre_root, [0u8; 32]);
    assert_eq!(batch.post_root, u64_to_bytes32(3000 * 5 + 2950 * 3 + 3010 * 7));
    assert_eq!(batch.trade_hashes, vec![[1u8; 32], [10u8; 32], [20u8; 32]]);
    assert_eq!(batch.proof[..], calldata[calldata.len() - PROOF_LEN..]);
    assert_eq!(settled_hashes(batch.clone(), false), None);
    assert_eq!(settled_hashes(batch, true).unwrap().len(), 3);
    assert!(parse_calldata(&[]).is_none());
    assert!(parse_calldata(&[1u8; 64]).is_none());
}

#[test]
fn the_longest_calldata_parses() {
    let trades: Vec<(u8, u64, u64)> = (0..8).map(|i| (i as u8, 1, 1)).collect();
    let calldata = build_calldata(&trades);
    assert_eq!(calldata.len(), MAX_CALLDATA_LEN);
    assert_eq!(parse_calldata(&calldata).unwrap().trade_hashes.len(), 8);
}

fn put_g1(out: &mut Vec<u8>, p: G1Affine) {
    put(out, p.x);
    put(out, p.y);
}

fn put_g2(out: &mut Vec<u8>, p: G2Affine) {
    put(out, p.x.c1);
    put(out, p.x.c0);
    put(out, p.y.c1);
    put(out, p.y.c0);
}

#[test]
fn the_pairing_input_is_made_of_the_proof_and_the_key() {
    let calldata = build_calldata(&[(1, 3000, 5)]);
    let input = build_pairing_input(&parse_calldata(&calldata).unwrap()).unwrap();
    let a = G1Affine::generator();
    let vk_x = (g1(vk::ic(0)) + g1(vk::ic(2)).mul_bigint(Fr::from(15_000u64).into_bigint()))
        .into_affine();
    let mut expected = Vec::new();
    put_g1(&mut expected, a);
    put_g2(&mut expected, G2Affine::generator());
    put_g1(&mut expected, -g1(vk::alpha()));
    put_g2(&mut expected, g2(vk::beta()));
    put_g1(&mut expected, -vk_x);
    put_g2(&mut expected, g2(vk::gamma()));
    put_g1(&mut expected, -(a + a).into_affine());
    put_g2(&mut expected, g2(vk::delta()));
    assert_eq!(input.to_vec(), expected);
}

#[test]
fn both_roots_count() {
    let mut calldata = build_calldata(&[(1, 3000, 5)]);
    calldata[31] = 7;
    let input = build_pairing_input(&parse_calldata(&calldata).unwrap()).unwrap();
    let vk_x = (g1(vk::ic(0))
        + g1(vk::ic(1)).mul_bigint([7u64])
        + g1(vk::ic(2)).mul_bigint([15_000u64]))
    .into_affine();
    let mut expected = Vec::new();
    put_g1(&mut expected, -vk_x);
    assert_eq!(input[384..448].to_vec(), expected);
}

#[test]
fn a_proof_off_the_curve_is_refused() {
    for at in [0, 64, 192] {
        let mut calldata = build_calldata(&[(1, 3000, 5)]);
        let start = calldata.len() - PROOF_LEN;
        calldata[start + at + 31] ^= 0x01;
        assert!(build_pairing_input(&parse_calldata(&calldata).unwrap()).is_none());
    }
}

#[test]
fn a_proof_out_of_the_second_group_is_refused() {
    // The curve of the second group holds points that are not in it.
    let outside = (1u64..)
        .filter_map(|n| G2Affine::get_point_from_x_unchecked(Fq2::from(n), false))
        .find(|p| !p.is_in_correct_subgroup_assuming_on_curve())
        .unwrap();
    assert!(outside.is_on_curve());
    let mut calldata = build_calldata(&[(1, 3000, 5)]);
    let start = calldata.len() - PROOF_LEN;
    let mut point = Vec::new();
    put(&mut point, outside.x.c0);
    put(&mut point, outside.x.c1);
    put(&mut point, outside.y.c0);
    put(&mut point, outside.y.c1);
    calldata[start + 64..start + 192].copy_from_slice(&point);
    assert!(build_pairing_input(&parse_calldata(&calldata).unwrap()).is_none());
    assert!(begin_settle(&calldata).is_none());
}

#[test]
fn a_settlement_call_begins_where_its_proof_can_be_checked() {
    let calldata = build_calldata(&[(1, 3000, 5), (10, 2950, 3)]);
    let (batch, input) = begin_settle(&calldata).unwrap();
    let parsed = parse_calldata(&calldata).unwrap();
    assert_eq!(batch.trade_hashes, parsed.trade_hashes);
    assert_eq!(batch.pre_root, parsed.pre_root);
    assert_eq!(batch.post_root, parsed.post_root);
    assert_eq!(batch.proof, parsed.proof);
    assert_eq!(input, build_pairing_input(&parsed).unwrap());
    assert_eq!(settled_hashes(batch, true), Some(vec![[1u8; 32], [10u8; 32]]));

    assert!(begin_settle(&[]).is_none());
    assert!(begin_settle(&calldata[1..]).is_none());
    let mut off = calldata.clone();
    let last = off.len() - 1;
    off[last] ^= 1;
    assert!(parse_calldata(&off).is_some());
    assert!(begin_settle(&off).is_none());
}

#[test]
fn numbers_are_reduced_by_the_field() {
    assert_eq!(fq_to_be(&fq_from_be(&[0u8; 32])), [0u8; 32]);
    assert_eq!(fr_from_be(&u64_to_bytes32(9)).be, u64_to_bytes32(9));
    let top = Fq::from_be_bytes_mod_order(&[0xFFu8; 32]).into_bigint().to_bytes_be();
    assert_eq!(fq_to_be(&fq_from_be(&[0xFFu8; 32])).to_vec(), top);
    assert_ne!(fq_to_be(&fq_from_be(&[0xFFu8; 32])), [0xFFu8; 32]);
    // The order of the field itself is zero in it.
    let order: [u8; 32] = Fr::MODULUS.to_bytes_be().try_into().unwrap();
    assert_eq!(fr_from_be(&order).be, [0u8; 32]);
}
