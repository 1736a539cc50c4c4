//! The calldata of a batch proof, and what its verification pairs.
//!
//! Calldata is `pre_root` (32 bytes), `post_root` (32 bytes), the number of trades (one byte, from
//! one to `MAX_TRADES`), that many trade hashes (32 bytes each) and the proof (`PROOF_LEN` bytes):
//! `a.x a.y b.x.c0 b.x.c1 b.y.c0 b.y.c1 c.x c.y`, 32 big-endian bytes each.

use crate::bn254::{
    fq_from_be, fq_negate, fq_text, fr_from_be, fr_text, g1_add, g1_bytes, g1_curve_holds,
    g1_in_group, g1_mul, g1_on_curve, g1_sum, g1_times, g2_curve_holds, g2_group_holds,
    g2_in_group, g2_on_curve, negated_text, Fr, G1, G2,
};
use crate::bytes::{id_from_slice, push_id, Id32};
use crate::vk;
use vstd::prelude::*;
use vstd::slice::slice_subrange;

verus! {

pub const PROOF_LEN: usize = 256;

pub const MAX_TRADES: usize = 8;

/// What comes before the trade hashes.
pub const HEADER_LEN: usize = 65;

pub const MAX_CALLDATA_LEN: usize = 577;

/// How many bytes the pairing check takes.
pub const PAIRING_LEN: usize = 768;

/// Calldata taken apart.
#[derive(Clone, Debug)]
pub struct ParsedBatch {
    pub pre_root: Id32,
    pub post_root: Id32,
    pub trade_hashes: Vec<Id32>,
    pub proof: [u8; 256],
}

/// The calldata has the length that its own number of trades asks for, and that number is right.
pub open spec fn calldata_ok(data: Seq<u8>) -> bool {
    &&& data.len() >= HEADER_LEN
    &&& 1 <= data[64] <= MAX_TRADES
    &&& data.len() == HEADER_LEN + 32 * data[64] + PROOF_LEN
}

/// `b` is what is in `data`.
pub open spec fn parsed_as(data: Seq<u8>, b: ParsedBatch) -> bool {
    &&& b.pre_root@ == data.subrange(0, 32)
    &&& b.post_root@ == data.subrange(32, 64)
    &&& b.trade_hashes@.len() == data[64]
    &&& forall|i: int|
        0 <= i < b.trade_hashes@.len() ==> (#[trigger] b.trade_hashes@[i])@ == data.subrange(
            HEADER_LEN + 32 * i,
            HEADER_LEN + 32 * i + 32,
        )
    &&& b.proof@ == data.subrange(HEADER_LEN + 32 * data[64], data.len() as int)
}

/// Takes calldata apart. Whether the proof's points are any is not looked at here.
pub fn parse_calldata(data: &[u8]) -> (r: Option<ParsedBatch>)
    ensures
        match r {
            Some(b) => calldata_ok(data@) && parsed_as(data@, b),
            None => !calldata_ok(data@),
        },
{
    if data.len() < HEADER_LEN {
        return None;
    }
    let trade_count: usize = data[64] as usize;
    if trade_count == 0 || trade_count > MAX_TRADES {
        return None;
    }
    let trades_end: usize = HEADER_LEN + trade_count * 32;
    if data.len() != trades_end + PROOF_LEN {
        return None;
    }
    let pre: &[u8] = slice_subrange(data, 0, 32);
    let post: &[u8] = slice_subrange(data, 32, 64);
    let pre_root: Id32 = id_from_slice(pre);
    let post_root: Id32 = id_from_slice(post);
    proof {
        assert(pre@.take(32) =~= data@.subrange(0, 32));
        assert(post@.take(32) =~= data@.subrange(32, 64));
    }
    let mut trade_hashes: Vec<Id32> = Vec::new();
    let mut i: usize = 0;
    while i < trade_count
        invariant
            i <= trade_count <= MAX_TRADES,
            trade_hashes@.len() == i,
            data@.len() == HEADER_LEN + 32 * trade_count + PROOF_LEN,
            forall|k: int|
                0 <= k < i ==> (#[trigger] trade_hashes@[k])@ == data@.subrange(
                    HEADER_LEN + 32 * k,
                    HEADER_LEN + 32 * k + 32,
                ),
        decreases trade_count - i,
    {
        let base: usize = HEADER_LEN + i * 32;
        let part: &[u8] = slice_subrange(data, base, base + 32);
        let hash: Id32 = id_from_slice(part);
        proof {
            assert(part@.take(32) =~= data@.subrange(HEADER_LEN + 32 * i, HEADER_LEN + 32 * i + 32));
        }
        trade_hashes.push(hash);
        i = i + 1;
    }
    let mut proof_bytes: [u8; 256] = [0u8; 256];
    let mut j: usize = 0;
    while j < PROOF_LEN
        invariant
            j <= PROOF_LEN,
            trades_end <= MAX_CALLDATA_LEN,
            trades_end + PROOF_LEN == data@.len(),
            forall|k: int| 0 <= k < j ==> proof_bytes@[k] == data@[trades_end + k],
        decreases PROOF_LEN - j,
    {
        proof_bytes[j] = data[trades_end + j];
        j = j + 1;
    }
    proof {
        assert(proof_bytes@ =~= data@.subrange(trades_end as int, data@.len() as int));
    }
    Some(ParsedBatch { pre_root, post_root, trade_hashes, proof: proof_bytes })
}

/// The hashes of trades one after the other.
pub open spec fn hashes_text(hashes: Seq<Seq<u8>>) -> Seq<u8>
    decreases hashes.len(),
{
    if hashes.len() == 0 {
        Seq::empty()
    } else {
        hashes_text(hashes.drop_last()) + hashes.last()
    }
}

/// The calldata of a batch.
pub open spec fn calldata_of(
    pre_root: Seq<u8>,
    post_root: Seq<u8>,
    hashes: Seq<Seq<u8>>,
    proof_bytes: Seq<u8>,
) -> Seq<u8> {
    pre_root + post_root + seq![hashes.len() as u8] + hashes_text(hashes) + proof_bytes
}

proof fn lemma_hashes_text(hashes: Seq<Seq<u8>>)
    requires
        forall|i: int| 0 <= i < hashes.len() ==> (#[trigger] hashes[i]).len() == 32,
    ensures
        hashes_text(hashes).len() == 32 * hashes.len(),
        forall|i: int|
            0 <= i < hashes.len() ==> hashes_text(hashes).subrange(32 * i, 32 * i + 32)
                == #[trigger] hashes[i],
    decreases hashes.len(),
{
    if hashes.len() > 0 {
        let h = hashes.drop_last();
        lemma_hashes_text(h);
        let t = hashes_text(hashes);
        assert(hashes[hashes.len() - 1].len() == 32);
        assert forall|i: int| 0 <= i < hashes.len() implies t.subrange(32 * i, 32 * i + 32)
            == #[trigger] hashes[i] by {
            if i < h.len() {
                assert(hashes_text(h).subrange(32 * i, 32 * i + 32) == h[i]);
                assert(t.subrange(32 * i, 32 * i + 32) =~= hashes_text(h).subrange(
                    32 * i,
                    32 * i + 32,
                ));
            } else {
                assert(t.subrange(32 * i, 32 * i + 32) =~= hashes[i]);
            }
        }
    }
}

/// Calldata that is put together comes apart into what it was put together from.
pub proof fn law_calldata_round_trip(
    pre_root: Seq<u8>,
    post_root: Seq<u8>,
    hashes: Seq<Seq<u8>>,
    proof_bytes: Seq<u8>,
    b: ParsedBatch,
)
    requires
        pre_root.len() == 32,
        post_root.len() == 32,
        1 <= hashes.len() <= MAX_TRADES,
        forall|i: int| 0 <= i < hashes.len() ==> (#[trigger] hashes[i]).len() == 32,
        proof_bytes.len() == PROOF_LEN,
        parsed_as(calldata_of(pre_root, post_root, hashes, proof_bytes), b),
    ensures
        calldata_ok(calldata_of(pre_root, post_root, hashes, proof_bytes)),
        b.pre_root@ == pre_root,
        b.post_root@ == post_root,
        b.trade_hashes@.len() == hashes.len(),
        forall|i: int| 0 <= i < hashes.len() ==> (#[trigger] b.trade_hashes@[i])@ == hashes[i],
        b.proof@ == proof_bytes,
{
    let d = calldata_of(pre_root, post_root, hashes, proof_bytes);
    lemma_hashes_text(hashes);
    assert(d.len() == 65 + 32 * hashes.len() + 256);
    assert(d[64] == hashes.len() as u8);
    assert(d.subrange(0, 32) =~= pre_root);
    assert(d.subrange(32, 64) =~= post_root);
    assert forall|i: int| 0 <= i < hashes.len() implies (#[trigger] b.trade_hashes@[i])@
        == hashes[i] by {
        assert(d.subrange(65 + 32 * i, 65 + 32 * i + 32) =~= hashes_text(hashes).subrange(
            32 * i,
            32 * i + 32,
        ));
    }
    assert(d.subrange(65 + 32 * (hashes.len() as int), d.len() as int) =~= proof_bytes);
}

/// The `i`-th word of a proof.
pub open spec fn proof_word(p: Seq<u8>, i: int) -> Seq<u8> {
    p.subrange(32 * i, 32 * i + 32)
}

/// A point's coordinates, each part in 32 bytes, are those of a point of the first group.
pub open spec fn g1_sound(x: Seq<u8>, y: Seq<u8>) -> bool {
    g1_curve_holds(x, y)
}

/// A point's coordinates, each part in 32 bytes, are those of a point of the second group.
pub open spec fn g2_sound(x0: Seq<u8>, x1: Seq<u8>, y0: Seq<u8>, y1: Seq<u8>) -> bool {
    g2_curve_holds(x0, x1, y0, y1) && g2_group_holds(x0, x1, y0, y1)
}

/// The proof's points, each taken modulo the field's order, are points of their groups.
#[verifier::opaque]
pub open spec fn proof_sound(p: Seq<u8>) -> bool {
    &&& g1_sound(fq_text(proof_word(p, 0)), fq_text(proof_word(p, 1)))
    &&& g2_sound(
        fq_text(proof_word(p, 2)),
        fq_text(proof_word(p, 3)),
        fq_text(proof_word(p, 4)),
        fq_text(proof_word(p, 5)),
    )
    &&& g1_sound(fq_text(proof_word(p, 6)), fq_text(proof_word(p, 7)))
}

/// A point of the first group with these coordinates, if there is one. The bytes are taken modulo
/// the field's order.
fn g1_from_be(x: &[u8], y: &[u8]) -> (r: Option<G1>)
    requires
        x@.len() == 32,
        y@.len() == 32,
    ensures
        match r {
            Some(p) => g1_sound(fq_text(x@), fq_text(y@)) && p.x.be@ == fq_text(x@) && p.y.be@
                == fq_text(y@),
            None => !g1_sound(fq_text(x@), fq_text(y@)),
        },
{
    proof {
        assert(x@.take(32) =~= x@);
        assert(y@.take(32) =~= y@);
    }
    let p = G1 { x: fq_from_be(&id_from_slice(x)), y: fq_from_be(&id_from_slice(y)) };
    if g1_on_curve(&p) && g1_in_group(&p) {
        Some(p)
    } else {
        None
    }
}

/// A point of the second group with these coordinates, if there is one.
fn g2_from_be(x0: &[u8], x1: &[u8], y0: &[u8], y1: &[u8]) -> (r: Option<G2>)
    requires
        x0@.len() == 32,
        x1@.len() == 32,
        y0@.len() == 32,
        y1@.len() == 32,
    ensures
        match r {
            Some(p) => {
                &&& g2_sound(fq_text(x0@), fq_text(x1@), fq_text(y0@), fq_text(y1@))
                &&& p.x0.be@ == fq_text(x0@)
                &&& p.x1.be@ == fq_text(x1@)
                &&& p.y0.be@ == fq_text(y0@)
                &&& p.y1.be@ == fq_text(y1@)
            },
            None => !g2_sound(fq_text(x0@), fq_text(x1@), fq_text(y0@), fq_text(y1@)),
        },
{
    proof {
        assert(x0@.take(32) =~= x0@);
        assert(x1@.take(32) =~= x1@);
        assert(y0@.take(32) =~= y0@);
        assert(y1@.take(32) =~= y1@);
    }
    let p = G2 {
        x0: fq_from_be(&id_from_slice(x0)),
        x1: fq_from_be(&id_from_slice(x1)),
        y0: fq_from_be(&id_from_slice(y0)),
        y1: fq_from_be(&id_from_slice(y1)),
    };
    if g2_on_curve(&p) && g2_in_group(&p) {
        Some(p)
    } else {
        None
    }
}

/// A point of the first group as it is written for the pairing check.
pub open spec fn g1_written(p: G1) -> Seq<u8> {
    p.x.be@ + p.y.be@
}

/// A point of the second group as it is written for the pairing check: the imaginary part of each
/// coordinate comes first.
pub open spec fn g2_written(p: G2) -> Seq<u8> {
    p.x1.be@ + p.x0.be@ + p.y1.be@ + p.y0.be@
}

fn write_g1(buf: &mut Vec<u8>, p: &G1)
    ensures
        final(buf)@ == old(buf)@ + g1_written(*p),
{
    push_id(buf, &p.x.be);
    push_id(buf, &p.y.be);
    assert(buf@ =~= old(buf)@ + g1_written(*p));
}

fn write_g2(buf: &mut Vec<u8>, p: &G2)
    ensures
        final(buf)@ == old(buf)@ + g2_written(*p),
{
    push_id(buf, &p.x1.be);
    push_id(buf, &p.x0.be);
    push_id(buf, &p.y1.be);
    push_id(buf, &p.y0.be);
    assert(buf@ =~= old(buf)@ + g2_written(*p));
}

/// The point that gives zero when it is added.
pub open spec fn is_negated(p: G1, n: G1) -> bool {
    n.x.be@ == p.x.be@ && n.y.be@ == negated_text(p.y.be@)
}

fn negate_g1(p: &G1) -> (r: G1)
    ensures
        is_negated(*p, r),
{
    G1 { x: p.x, y: fq_negate(&p.y) }
}

/// What the four pairings are made over: the proof's points, and those that the key and the public
/// inputs give, three of them negated.
pub open spec fn pairing_layout(
    a: G1,
    b: G2,
    neg_alpha: G1,
    beta: G2,
    neg_vk_x: G1,
    gamma: G2,
    neg_c: G1,
    delta: G2,
) -> Seq<u8> {
    g1_written(a) + g2_written(b) + g1_written(neg_alpha) + g2_written(beta) + g1_written(neg_vk_x)
        + g2_written(gamma) + g1_written(neg_c) + g2_written(delta)
}

/// The key's points and the proof's, in their places.
#[verifier::opaque]
pub open spec fn pairs(a: G1, b: G2, c: G1, vk_x: G1, out: Seq<u8>) -> bool {
    exists|neg_alpha: G1, beta: G2, neg_vk_x: G1, gamma: G2, neg_c: G1, delta: G2, alpha: G1|
        #![trigger pairing_layout(a, b, neg_alpha, beta, neg_vk_x, gamma, neg_c, delta), vk::g1_of(vk::ALPHA_X@, vk::ALPHA_Y@, alpha)]
        {
            &&& vk::g1_of(vk::ALPHA_X@, vk::ALPHA_Y@, alpha)
            &&& is_negated(alpha, neg_alpha)
            &&& vk::g2_of(vk::BETA_X0@, vk::BETA_X1@, vk::BETA_Y0@, vk::BETA_Y1@, beta)
            &&& is_negated(vk_x, neg_vk_x)
            &&& vk::g2_of(vk::GAMMA_X0@, vk::GAMMA_X1@, vk::GAMMA_Y0@, vk::GAMMA_Y1@, gamma)
            &&& is_negated(c, neg_c)
            &&& vk::g2_of(vk::DELTA_X0@, vk::DELTA_X1@, vk::DELTA_Y0@, vk::DELTA_Y1@, delta)
            &&& out == pairing_layout(a, b, neg_alpha, beta, neg_vk_x, gamma, neg_c, delta)
        }
}

/// Writes the input of the pairing check for a proof whose points, and the public inputs' point,
/// are given.
pub fn assemble_pairing_input(a: &G1, b: &G2, c: &G1, vk_x: &G1) -> (r: [u8; 768])
    ensures
        pairs(*a, *b, *c, *vk_x, r@),
{
    let alpha: G1 = vk::alpha();
    let neg_alpha: G1 = negate_g1(&alpha);
    let neg_vk_x: G1 = negate_g1(vk_x);
    let neg_c: G1 = negate_g1(c);
    let beta: G2 = vk::beta();
    let gamma: G2 = vk::gamma();
    let delta: G2 = vk::delta();
    let mut buf: Vec<u8> = Vec::new();
    write_g1(&mut buf, a);
    write_g2(&mut buf, b);
    write_g1(&mut buf, &neg_alpha);
    write_g2(&mut buf, &beta);
    write_g1(&mut buf, &neg_vk_x);
    write_g2(&mut buf, &gamma);
    write_g1(&mut buf, &neg_c);
    write_g2(&mut buf, &delta);
    let ghost want = pairing_layout(*a, *b, neg_alpha, beta, neg_vk_x, gamma, neg_c, delta);
    proof {
        assert(buf@ =~= want);
        assert(want.len() == 768);
    }
    let mut out: [u8; 768] = [0u8; 768];
    let mut i: usize = 0;
    while i < PAIRING_LEN
        invariant
            i <= PAIRING_LEN,
            buf@.len() == PAIRING_LEN,
            forall|k: int| 0 <= k < i ==> out@[k] == buf@[k],
        decreases PAIRING_LEN - i,
    {
        out[i] = buf[i];
        i = i + 1;
    }
    proof {
        assert(out@ =~= want);
        assert(vk::g1_of(vk::ALPHA_X@, vk::ALPHA_Y@, alpha));
        reveal(pairs);
    }
    out
}

/// The point that the public inputs give: the key's constant point, plus its first point times the
/// one root, plus its second point times the other.
#[verifier::opaque]
pub open spec fn inputs_point(pre_root: Seq<u8>, post_root: Seq<u8>) -> Option<(Seq<u8>, Seq<u8>)> {
    let ic0 = Some((fq_text(vk::IC0_X@), fq_text(vk::IC0_Y@)));
    let t1 = g1_times(fq_text(vk::IC1_X@), fq_text(vk::IC1_Y@), fr_text(pre_root));
    let t2 = g1_times(fq_text(vk::IC2_X@), fq_text(vk::IC2_Y@), fr_text(post_root));
    g1_sum(g1_sum(ic0, t1), t2)
}

fn public_point(pre_root: &Id32, post_root: &Id32) -> (r: Option<G1>)
    ensures
        g1_bytes(r) == inputs_point(pre_root@, post_root@),
{
    proof {
        reveal(inputs_point);
    }
    let pre: Fr = fr_from_be(pre_root);
    let post: Fr = fr_from_be(post_root);
    let ic0: Option<G1> = Some(vk::ic(0));
    let t1: Option<G1> = g1_mul(&vk::ic(1), &pre);
    let t2: Option<G1> = g1_mul(&vk::ic(2), &post);
    let s: Option<G1> = g1_add(&ic0, &t1);
    g1_add(&s, &t2)
}

/// `a`, `b` and `c` are the points of a proof.
#[verifier::opaque]
pub open spec fn proof_points_are(p: Seq<u8>, a: G1, b: G2, c: G1) -> bool {
    &&& a.x.be@ == fq_text(proof_word(p, 0))
    &&& a.y.be@ == fq_text(proof_word(p, 1))
    &&& b.x0.be@ == fq_text(proof_word(p, 2))
    &&& b.x1.be@ == fq_text(proof_word(p, 3))
    &&& b.y0.be@ == fq_text(proof_word(p, 4))
    &&& b.y1.be@ == fq_text(proof_word(p, 5))
    &&& c.x.be@ == fq_text(proof_word(p, 6))
    &&& c.y.be@ == fq_text(proof_word(p, 7))
}

/// The points of a proof, if they are points of their groups.
fn proof_points(p: &[u8]) -> (r: Option<(G1, G2, G1)>)
    requires
        p@.len() == PROOF_LEN,
    ensures
        match r {
            Some((a, b, c)) => proof_sound(p@) && proof_points_are(p@, a, b, c),
            None => !proof_sound(p@),
        },
{
    proof {
        reveal(proof_sound);
        reveal(proof_points_are);
    }
    let w0: &[u8] = slice_subrange(p, 0, 32);
    let w1: &[u8] = slice_subrange(p, 32, 64);
    let w2: &[u8] = slice_subrange(p, 64, 96);
    let w3: &[u8] = slice_subrange(p, 96, 128);
    let w4: &[u8] = slice_subrange(p, 128, 160);
    let w5: &[u8] = slice_subrange(p, 160, 192);
    let w6: &[u8] = slice_subrange(p, 192, 224);
    let w7: &[u8] = slice_subrange(p, 224, 256);
    let a: G1 = match g1_from_be(w0, w1) {
        Some(v) => v,
        None => {
            return None;
        },
    };
    let b: G2 = match g2_from_be(w2, w3, w4, w5) {
        Some(v) => v,
        None => {
            return None;
        },
    };
    let c: G1 = match g1_from_be(w6, w7) {
        Some(v) => v,
        None => {
            return None;
        },
    };
    Some((a, b, c))
}

/// `out` is the input of the pairing check for a batch: over the points of its proof and the point
/// that its roots give.
pub open spec fn is_pairing_input(batch: ParsedBatch, out: Seq<u8>) -> bool {
    exists|a: G1, b: G2, c: G1, vk_x: G1|
        #![trigger pairs(a, b, c, vk_x, out)]
        proof_points_are(batch.proof@, a, b, c) && inputs_point(batch.pre_root@, batch.post_root@)
            == Some((vk_x.x.be@, vk_x.y.be@)) && pairs(a, b, c, vk_x, out)
}

/// The input of the pairing check that holds exactly where the batch's proof is right. There is
/// none where the proof's points are not points, or where the public inputs give the group's zero.
pub fn build_pairing_input(batch: &ParsedBatch) -> (r: Option<[u8; 768]>)
    ensures
        match r {
            Some(out) => proof_sound(batch.proof@) && is_pairing_input(*batch, out@),
            None => !proof_sound(batch.proof@) || inputs_point(batch.pre_root@, batch.post_root@)
                is None,
        },
{
    let p: &[u8] = batch.proof.as_slice();
    assert(p@ == batch.proof@);
    let (a, b, c): (G1, G2, G1) = match proof_points(p) {
        Some(v) => v,
        None => {
            return None;
        },
    };
    let vk_x: G1 = match public_point(&batch.pre_root, &batch.post_root) {
        Some(v) => v,
        None => {
            return None;
        },
    };
    let out: [u8; 768] = assemble_pairing_input(&a, &b, &c, &vk_x);
    proof {
        assert(inputs_point(batch.pre_root@, batch.post_root@) == Some(
            (vk_x.x.be@, vk_x.y.be@),
        ));
        assert(proof_points_are(batch.proof@, a, b, c));
        assert(pairs(a, b, c, vk_x, out@));
        assert(is_pairing_input(*batch, out@));
    }
    Some(out)
}

/// A call's proof can be checked: its calldata are well formed, the proof's points are points of
/// their groups, and the roots do not give the group's zero.
pub open spec fn can_be_checked(d: Seq<u8>) -> bool {
    &&& calldata_ok(d)
    &&& proof_sound(d.subrange(d.len() - PROOF_LEN, d.len() as int))
    &&& inputs_point(d.subrange(0, 32), d.subrange(32, 64)) is Some
}

/// The first half of a settlement call: the batch in its calldata, and the input of the pairing
/// check that decides on it. There is none, and the call fails, exactly where the proof cannot be
/// checked.
pub fn begin_settle(data: &[u8]) -> (r: Option<(ParsedBatch, [u8; 768])>)
    ensures
        match r {
            Some((batch, input)) => {
                &&& can_be_checked(data@)
                &&& parsed_as(data@, batch)
                &&& is_pairing_input(batch, input@)
            },
            None => !can_be_checked(data@),
        },
{
    let batch: ParsedBatch = match parse_calldata(data) {
        Some(b) => b,
        None => {
            return None;
        },
    };
    match build_pairing_input(&batch) {
        Some(input) => Some((batch, input)),
        None => None,
    }
}

/// The second half of a settlement call: which trades it settles. They are all that its batch
/// lists where the pairing check has held; where it has not, the call fails and settles none.
pub fn settled_hashes(batch: ParsedBatch, pairing_holds: bool) -> (r: Option<Vec<Id32>>)
    ensures
        match r {
            Some(h) => pairing_holds && h@ == batch.trade_hashes@,
            None => !pairing_holds,
        },
{
    if pairing_holds {
        Some(batch.trade_hashes)
    } else {
        None
    }
}

/// What is paired with what: the proof's first point with its second, the key's first point with its
/// second, the point of the public inputs with the key's third, and the proof's last point with the key's
/// last. Each point of the first group but the proof's first has its second coordinate negated, and each
/// coordinate of the second group has its imaginary part in front.
pub proof fn law_pairing_input_is_laid_out(batch: ParsedBatch, out: Seq<u8>)
    requires
        is_pairing_input(batch, out),
    ensures
        ({
            let w = |i: int| out.subrange(32 * i, 32 * i + 32);
            let p = |i: int| fq_text(batch.proof@.subrange(32 * i, 32 * i + 32));
            let point = inputs_point(batch.pre_root@, batch.post_root@);
            let (_, y) = point.unwrap();
            &&& out.len() == 768
            &&& point is Some
            &&& w(0) == p(0) && w(1) == p(1)
            &&& w(2) == p(3) && w(3) == p(2) && w(4) == p(5) && w(5) == p(4)
            &&& w(6) == fq_text(vk::ALPHA_X@) && w(7) == negated_text(fq_text(vk::ALPHA_Y@))
            &&& w(8) == fq_text(vk::BETA_X1@) && w(9) == fq_text(vk::BETA_X0@)
            &&& w(10) == fq_text(vk::BETA_Y1@) && w(11) == fq_text(vk::BETA_Y0@)
            &&& point == Some((w(12), y)) && w(13) == negated_text(y)
            &&& w(14) == fq_text(vk::GAMMA_X1@) && w(15) == fq_text(vk::GAMMA_X0@)
            &&& w(16) == fq_text(vk::GAMMA_Y1@) && w(17) == fq_text(vk::GAMMA_Y0@)
            &&& w(18) == p(6) && w(19) == negated_text(p(7))
            &&& w(20) == fq_text(vk::DELTA_X1@) && w(21) == fq_text(vk::DELTA_X0@)
            &&& w(22) == fq_text(vk::DELTA_Y1@) && w(23) == fq_text(vk::DELTA_Y0@)
        }),
{
    reveal(proof_points_are);
    reveal(pairs);
    let (a, b, c, vk_x) = choose|a: G1, b: G2, c: G1, vk_x: G1|
        #![trigger pairs(a, b, c, vk_x, out)]
        proof_points_are(batch.proof@, a, b, c) && inputs_point(batch.pre_root@, batch.post_root@)
            == Some((vk_x.x.be@, vk_x.y.be@)) && pairs(a, b, c, vk_x, out);
    let (neg_alpha, beta, neg_vk_x, gamma, neg_c, delta, alpha) = choose|
        neg_alpha: G1,
        beta: G2,
        neg_vk_x: G1,
        gamma: G2,
        neg_c: G1,
        delta: G2,
        alpha: G1,
    |
        #![trigger pairing_layout(a, b, neg_alpha, beta, neg_vk_x, gamma, neg_c, delta), vk::g1_of(vk::ALPHA_X@, vk::ALPHA_Y@, alpha)]
        {
            &&& vk::g1_of(vk::ALPHA_X@, vk::ALPHA_Y@, alpha)
            &&& is_negated(alpha, neg_alpha)
            &&& vk::g2_of(vk::BETA_X0@, vk::BETA_X1@, vk::BETA_Y0@, vk::BETA_Y1@, beta)
            &&& is_negated(vk_x, neg_vk_x)
            &&& vk::g2_of(vk::GAMMA_X0@, vk::GAMMA_X1@, vk::GAMMA_Y0@, vk::GAMMA_Y1@, gamma)
            &&& is_negated(c, neg_c)
            &&& vk::g2_of(vk::DELTA_X0@, vk::DELTA_X1@, vk::DELTA_Y0@, vk::DELTA_Y1@, delta)
            &&& out == pairing_layout(a, b, neg_alpha, beta, neg_vk_x, gamma, neg_c, delta)
        };
    lemma_layout_words(a, b, neg_alpha, beta, neg_vk_x, gamma, neg_c, delta);
}

proof fn lemma_layout_words(
    a: G1,
    b: G2,
    c: G1,
    d: G2,
    e: G1,
    f: G2,
    g: G1,
    h: G2,
)
    ensures
        ({
            let out = pairing_layout(a, b, c, d, e, f, g, h);
            let w = |i: int| out.subrange(32 * i, 32 * i + 32);
            &&& out.len() == 768
            &&& w(0) == a.x.be@ && w(1) == a.y.be@
            &&& w(2) == b.x1.be@ && w(3) == b.x0.be@ && w(4) == b.y1.be@ && w(5) == b.y0.be@
            &&& w(6) == c.x.be@ && w(7) == c.y.be@
            &&& w(8) == d.x1.be@ && w(9) == d.x0.be@ && w(10) == d.y1.be@ && w(11) == d.y0.be@
            &&& w(12) == e.x.be@ && w(13) == e.y.be@
            &&& w(14) == f.x1.be@ && w(15) == f.x0.be@ && w(16) == f.y1.be@ && w(17) == f.y0.be@
            &&& w(18) == g.x.be@ && w(19) == g.y.be@
            &&& w(20) == h.x1.be@ && w(21) == h.x0.be@ && w(22) == h.y1.be@ && w(23) == h.y0.be@
        }),
{
    let out = pairing_layout(a, b, c, d, e, f, g, h);
    assert(out.subrange(0, 32) =~= a.x.be@ && out.subrange(32, 64) =~= a.y.be@);
    assert(out.subrange(64, 96) =~= b.x1.be@ && out.subrange(96, 128) =~= b.x0.be@);
    assert(out.subrange(128, 160) =~= b.y1.be@ && out.subrange(160, 192) =~= b.y0.be@);
    assert(out.subrange(192, 224) =~= c.x.be@ && out.subrange(224, 256) =~= c.y.be@);
    assert(out.subrange(256, 288) =~= d.x1.be@ && out.subrange(288, 320) =~= d.x0.be@);
    assert(out.subrange(320, 352) =~= d.y1.be@ && out.subrange(352, 384) =~= d.y0.be@);
    assert(out.subrange(384, 416) =~= e.x.be@ && out.subrange(416, 448) =~= e.y.be@);
    assert(out.subrange(448, 480) =~= f.x1.be@ && out.subrange(480, 512) =~= f.x0.be@);
    assert(out.subrange(512, 544) =~= f.y1.be@ && out.subrange(544, 576) =~= f.y0.be@);
    assert(out.subrange(576, 608) =~= g.x.be@ && out.subrange(608, 640) =~= g.y.be@);
    assert(out.subrange(640, 672) =~= h.x1.be@ && out.subrange(672, 704) =~= h.x0.be@);
    assert(out.subrange(704, 736) =~= h.y1.be@ && out.subrange(736, 768) =~= h.y0.be@);
}

/// The root before goes with the key's first input, the root after with its second; both count modulo
/// the group's order. A proof is looked at further exactly where each of its points meets its curve's
/// equation, and the second also is in its group.
pub proof fn law_roots_and_points_are_as_given(pre: Seq<u8>, post: Seq<u8>, p: Seq<u8>)
    ensures
        inputs_point(pre, post) == g1_sum(
            g1_sum(
                Some((fq_text(vk::IC0_X@), fq_text(vk::IC0_Y@))),
                g1_times(fq_text(vk::IC1_X@), fq_text(vk::IC1_Y@), fr_text(pre)),
            ),
            g1_times(fq_text(vk::IC2_X@), fq_text(vk::IC2_Y@), fr_text(post)),
        ),
        ({
            let w = |i: int| fq_text(p.subrange(32 * i, 32 * i + 32));
            proof_sound(p) <==> g1_curve_holds(w(0), w(1)) && g2_curve_holds(
                w(2),
                w(3),
                w(4),
                w(5),
            ) && g2_group_holds(w(2), w(3), w(4), w(5)) && g1_curve_holds(w(6), w(7))
        }),
{
    reveal(inputs_point);
    reveal(proof_sound);
}

} // verus!
