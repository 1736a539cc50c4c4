//! Points and numbers of the BN254 curve, as the bytes that they are written in.

use crate::bytes::{be_value, Id32};
use ark_bn254::{Fq2, G1Affine, G2Affine};
use ark_ec::{AffineRepr, CurveGroup};
use ark_ff::{BigInteger, PrimeField};
use vstd::prelude::*;

verus! {

/// The order of the field that coordinates are in.
pub open spec fn fq_modulus() -> nat {
    21888242871839275222246405745257275088696311157297823662689037894645226208583nat
}

/// The order of the group, and of the field that scalars are in.
pub open spec fn fr_modulus() -> nat {
    21888242871839275222246405745257275088548364400416034343698204186575808495617nat
}

/// A number in `len` big-endian bytes.
pub open spec fn be_text(n: nat, len: nat) -> Seq<u8>
    decreases len,
{
    if len == 0 {
        Seq::empty()
    } else {
        be_text(n / 256, (len - 1) as nat).push((n % 256) as u8)
    }
}

/// The coordinate that bytes stand for, in 32 bytes.
pub open spec fn fq_text(s: Seq<u8>) -> Seq<u8> {
    be_text(be_value(s) % fq_modulus(), 32)
}

/// The scalar that bytes stand for, in 32 bytes.
pub open spec fn fr_text(s: Seq<u8>) -> Seq<u8> {
    be_text(be_value(s) % fr_modulus(), 32)
}

/// What is added to a coordinate to give zero, in 32 bytes.
pub open spec fn negated_text(s: Seq<u8>) -> Seq<u8> {
    be_text(((fq_modulus() - be_value(s) % fq_modulus()) % (fq_modulus() as int)) as nat, 32)
}

/// A coordinate, by the 32 big-endian bytes of the number below the field's order.
#[derive(Clone, Copy, Debug)]
pub struct Fq {
    pub be: Id32,
}

/// A scalar, by the 32 big-endian bytes of the number below the group's order.
#[derive(Clone, Copy, Debug)]
pub struct Fr {
    pub be: Id32,
}

/// A point of the first group other than its zero.
#[derive(Clone, Copy, Debug)]
pub struct G1 {
    pub x: Fq,
    pub y: Fq,
}

/// A point of the second group other than its zero; each coordinate has a real part (`0`) and an
/// imaginary part (`1`).
#[derive(Clone, Copy, Debug)]
pub struct G2 {
    pub x0: Fq,
    pub x1: Fq,
    pub y0: Fq,
    pub y1: Fq,
}

/// `from_be_bytes_mod_order` of `ark_ff::PrimeField` on `ark_bn254::Fr`: the number that the bytes
/// stand for, reduced by the field's order. It is handed out in 32 bytes.
#[verifier::external_body]
pub fn fr_from_be(b: &Id32) -> (r: Fr)
    ensures
        r.be@ == fr_text(b@),
{
    let bytes = ark_bn254::Fr::from_be_bytes_mod_order(b).into_bigint().to_bytes_be();
    let mut be = [0u8; 32];
    be.copy_from_slice(&bytes);
    Fr { be }
}

/// `from_be_bytes_mod_order` of `ark_ff::PrimeField` on `ark_bn254::Fq`: the number that the bytes
/// stand for, reduced by the field's order. It is handed out in 32 bytes.
#[verifier::external_body]
pub fn fq_from_be(b: &Id32) -> (r: Fq)
    ensures
        r.be@ == fq_text(b@),
{
    let bytes = ark_bn254::Fq::from_be_bytes_mod_order(b).into_bigint().to_bytes_be();
    let mut be = [0u8; 32];
    be.copy_from_slice(&bytes);
    Fq { be }
}

/// The bytes of a coordinate.
pub fn fq_to_be(f: &Fq) -> (r: Id32)
    ensures
        r == f.be,
{
    f.be
}

/// Negation of an `ark_bn254::Fq`: what gives zero when it is added, in 32 bytes.
#[verifier::external_body]
pub(crate) fn fq_negate(f: &Fq) -> (r: Fq)
    ensures
        r.be@ == negated_text(f.be@),
{
    let negated = -ark_bn254::Fq::from_be_bytes_mod_order(&f.be);
    let mut be = [0u8; 32];
    be.copy_from_slice(&negated.into_bigint().to_bytes_be());
    Fq { be }
}

/// Whether a point with these coordinates is on the curve of the first group: `y^2 = x^3 + 3`.
#[verifier::opaque]
pub open spec fn g1_curve_holds(x: Seq<u8>, y: Seq<u8>) -> bool {
    let (a, b) = (be_value(x) as int, be_value(y) as int);
    (b * b) % (fq_modulus() as int) == (a * a * a + 3) % (fq_modulus() as int)
}

/// `is_on_curve` on an `ark_bn254::G1Affine` with these coordinates: whether they meet the curve's
/// equation over the field.
#[verifier::external_body]
pub(crate) fn g1_on_curve(p: &G1) -> (r: bool)
    ensures
        r == g1_curve_holds(p.x.be@, p.y.be@),
{
    let x = ark_bn254::Fq::from_be_bytes_mod_order(&p.x.be);
    let y = ark_bn254::Fq::from_be_bytes_mod_order(&p.y.be);
    G1Affine::new_unchecked(x, y).is_on_curve()
}

/// `is_in_correct_subgroup_assuming_on_curve` on an `ark_bn254::G1Affine` with these coordinates:
/// always, since the first group is all of its curve.
#[verifier::external_body]
pub(crate) fn g1_in_group(p: &G1) -> (r: bool)
    ensures
        r,
{
    let x = ark_bn254::Fq::from_be_bytes_mod_order(&p.x.be);
    let y = ark_bn254::Fq::from_be_bytes_mod_order(&p.y.be);
    G1Affine::new_unchecked(x, y).is_in_correct_subgroup_assuming_on_curve()
}

/// A number with a real part (`0`) and an imaginary part (`1`), times another.
pub open spec fn complex_product(a: (int, int), b: (int, int)) -> (int, int) {
    (a.0 * b.0 - a.1 * b.1, a.0 * b.1 + a.1 * b.0)
}

/// Whether a point with these coordinates is on the curve of the second group:
/// `(9 + i) * (y^2 - x^3) = 3`, where `i^2 = -1`.
#[verifier::opaque]
pub open spec fn g2_curve_holds(x0: Seq<u8>, x1: Seq<u8>, y0: Seq<u8>, y1: Seq<u8>) -> bool {
    let x = (be_value(x0) as int, be_value(x1) as int);
    let y = (be_value(y0) as int, be_value(y1) as int);
    let square = complex_product(y, y);
    let cube = complex_product(x, complex_product(x, x));
    let r = complex_product((9, 1), (square.0 - cube.0, square.1 - cube.1));
    r.0 % (fq_modulus() as int) == 3 && r.1 % (fq_modulus() as int) == 0
}

/// `is_on_curve` on an `ark_bn254::G2Affine` with these coordinates: whether they meet the curve's
/// equation over the field, `y^2 = x^3 + 3 / (9 + i)`.
#[verifier::external_body]
pub(crate) fn g2_on_curve(p: &G2) -> (r: bool)
    ensures
        r == g2_curve_holds(p.x0.be@, p.x1.be@, p.y0.be@, p.y1.be@),
{
    let fq = |f: &Fq| ark_bn254::Fq::from_be_bytes_mod_order(&f.be);
    let x = Fq2::new(fq(&p.x0), fq(&p.x1));
    let y = Fq2::new(fq(&p.y0), fq(&p.y1));
    G2Affine::new_unchecked(x, y).is_on_curve()
}

/// Whether a point of the curve is in the second group.
pub uninterp spec fn g2_group_holds(x0: Seq<u8>, x1: Seq<u8>, y0: Seq<u8>, y1: Seq<u8>) -> bool;

/// `is_in_correct_subgroup_assuming_on_curve` on an `ark_bn254::G2Affine` with these coordinates;
/// the answer depends on them alone.
#[verifier::external_body]
pub(crate) fn g2_in_group(p: &G2) -> (r: bool)
    ensures
        r == g2_group_holds(p.x0.be@, p.x1.be@, p.y0.be@, p.y1.be@),
{
    let fq = |f: &Fq| ark_bn254::Fq::from_be_bytes_mod_order(&f.be);
    let x = Fq2::new(fq(&p.x0), fq(&p.x1));
    let y = Fq2::new(fq(&p.y0), fq(&p.y1));
    G2Affine::new_unchecked(x, y).is_in_correct_subgroup_assuming_on_curve()
}

/// A point by the bytes of its coordinates; none for the zero of the group.
pub open spec fn g1_bytes(p: Option<G1>) -> Option<(Seq<u8>, Seq<u8>)> {
    match p {
        Some(q) => Some((q.x.be@, q.y.be@)),
        None => None,
    }
}

/// The multiple of a point by a scalar.
pub uninterp spec fn g1_times(x: Seq<u8>, y: Seq<u8>, k: Seq<u8>) -> Option<(Seq<u8>, Seq<u8>)>;

/// `mul_bigint` of an `ark_bn254::G1Affine` by a scalar's number, brought back to coordinates by
/// `into_affine`; none where the product is the zero of the group. It depends on the point and the
/// scalar alone.
#[verifier::external_body]
pub(crate) fn g1_mul(p: &G1, k: &Fr) -> (r: Option<G1>)
    ensures
        g1_bytes(r) == g1_times(p.x.be@, p.y.be@, k.be@),
{
    let fq = |f: &Fq| ark_bn254::Fq::from_be_bytes_mod_order(&f.be);
    let point = G1Affine::new_unchecked(fq(&p.x), fq(&p.y));
    let scalar = ark_bn254::Fr::from_be_bytes_mod_order(&k.be);
    let product = point.mul_bigint(scalar.into_bigint()).into_affine();
    product.xy().map(|(x, y)| {
        let (mut a, mut b) = ([0u8; 32], [0u8; 32]);
        a.copy_from_slice(&x.into_bigint().to_bytes_be());
        b.copy_from_slice(&y.into_bigint().to_bytes_be());
        G1 { x: Fq { be: a }, y: Fq { be: b } }
    })
}

/// The sum of two points.
pub uninterp spec fn g1_sum(
    p: Option<(Seq<u8>, Seq<u8>)>,
    q: Option<(Seq<u8>, Seq<u8>)>,
) -> Option<(Seq<u8>, Seq<u8>)>;

/// The sum of two `ark_bn254::G1Affine`, brought back to coordinates by `into_affine`; none stands
/// for the zero of the group. It depends on the points alone.
#[verifier::external_body]
pub(crate) fn g1_add(p: &Option<G1>, q: &Option<G1>) -> (r: Option<G1>)
    ensures
        g1_bytes(r) == g1_sum(g1_bytes(*p), g1_bytes(*q)),
{
    let fq = |f: &Fq| ark_bn254::Fq::from_be_bytes_mod_order(&f.be);
    let point = |o: &Option<G1>| match o {
        Some(v) => G1Affine::new_unchecked(fq(&v.x), fq(&v.y)),
        None => G1Affine::identity(),
    };
    (point(p) + point(q)).into_affine().xy().map(|(x, y)| {
        let (mut a, mut b) = ([0u8; 32], [0u8; 32]);
        a.copy_from_slice(&x.into_bigint().to_bytes_be());
        b.copy_from_slice(&y.into_bigint().to_bytes_be());
        G1 { x: Fq { be: a }, y: Fq { be: b } }
    })
}

} // verus!
