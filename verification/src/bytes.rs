//! Fixed-width byte encodings and comparisons.

use vstd::prelude::*;

verus! {

/// A 32-byte identifier: an order id, a public key, an address padded on the left, a hash.
pub type Id32 = [u8; 32];

/// The eight bytes of `v`, most significant first.
#[verifier::opaque]
pub open spec fn be8(v: u64) -> Seq<u8> {
    seq![
        (v / 0x0100_0000_0000_0000) as u8,
        (v / 0x0001_0000_0000_0000 % 256) as u8,
        (v / 0x0000_0100_0000_0000 % 256) as u8,
        (v / 0x0000_0001_0000_0000 % 256) as u8,
        (v / 0x0000_0000_0100_0000 % 256) as u8,
        (v / 0x0000_0000_0001_0000 % 256) as u8,
        (v / 0x0000_0000_0000_0100 % 256) as u8,
        (v % 256) as u8,
    ]
}

/// There are eight of them.
pub proof fn lemma_be8_len(v: u64)
    ensures
        be8(v).len() == 8,
{
    reveal(be8);
}

/// The number whose big-endian bytes are `s`.
pub open spec fn be_value(s: Seq<u8>) -> nat
    decreases s.len(),
{
    if s.len() == 0 {
        0
    } else {
        be_value(s.drop_last()) * 256 + s.last() as nat
    }
}

/// `n` zero bytes.
pub open spec fn zeros(n: nat) -> Seq<u8> {
    Seq::new(n, |i: int| 0u8)
}

/// Reading back the eight bytes of a number gives the number.
pub proof fn law_be8_round_trip(v: u64)
    ensures
        be_value(be8(v)) == v,
        be8(v).len() == 8,
{
    reveal(be8);
    let s = be8(v);
    let q1 = v / 0x100;
    let q2 = v / 0x1_0000;
    let q3 = v / 0x100_0000;
    let q4 = v / 0x1_0000_0000;
    let q5 = v / 0x100_0000_0000;
    let q6 = v / 0x1_0000_0000_0000;
    let q7 = v / 0x100_0000_0000_0000;
    assert(q1 / 256 == q2 && q2 / 256 == q3 && q3 / 256 == q4 && q4 / 256 == q5 && q5 / 256 == q6
        && q6 / 256 == q7 && q7 < 256);
    lemma_be_value_push(s.take(0), s[0]);
    lemma_be_value_push(s.take(1), s[1]);
    lemma_be_value_push(s.take(2), s[2]);
    lemma_be_value_push(s.take(3), s[3]);
    lemma_be_value_push(s.take(4), s[4]);
    lemma_be_value_push(s.take(5), s[5]);
    lemma_be_value_push(s.take(6), s[6]);
    lemma_be_value_push(s.take(7), s[7]);
    assert(s.take(0).push(s[0]) =~= s.take(1));
    assert(s.take(1).push(s[1]) =~= s.take(2));
    assert(s.take(2).push(s[2]) =~= s.take(3));
    assert(s.take(3).push(s[3]) =~= s.take(4));
    assert(s.take(4).push(s[4]) =~= s.take(5));
    assert(s.take(5).push(s[5]) =~= s.take(6));
    assert(s.take(6).push(s[6]) =~= s.take(7));
    assert(s.take(7).push(s[7]) =~= s);
    assert(be_value(s.take(1)) == q7);
    assert(be_value(s.take(2)) == q6);
    assert(be_value(s.take(3)) == q5);
    assert(be_value(s.take(4)) == q4);
    assert(be_value(s.take(5)) == q3);
    assert(be_value(s.take(6)) == q2);
    assert(be_value(s.take(7)) == q1);
}

proof fn lemma_be_value_push(s: Seq<u8>, b: u8)
    ensures
        be_value(s.push(b)) == be_value(s) * 256 + b,
{
    assert(s.push(b).drop_last() =~= s);
}

/// Distinct numbers have distinct big-endian encodings.
pub proof fn law_be8_injective(a: u64, b: u64)
    requires
        be8(a) == be8(b),
    ensures
        a == b,
{
    law_be8_round_trip(a);
    law_be8_round_trip(b);
}

/// Leading zero bytes do not change the number that bytes stand for.
pub proof fn lemma_be_value_leading_zeros(n: nat, s: Seq<u8>)
    ensures
        be_value(zeros(n) + s) == be_value(s),
    decreases n + s.len(),
{
    if s.len() > 0 {
        assert((zeros(n) + s).drop_last() =~= zeros(n) + s.drop_last());
        lemma_be_value_leading_zeros(n, s.drop_last());
    } else if n > 0 {
        assert((zeros(n) + s).drop_last() =~= zeros((n - 1) as nat) + s);
        lemma_be_value_leading_zeros((n - 1) as nat, s);
    } else {
        assert(zeros(n) + s =~= s);
    }
}

/// Compares two identifiers.
pub fn same_id(a: &Id32, b: &Id32) -> (r: bool)
    ensures
        r == (*a == *b),
{
    let mut i: usize = 0;
    while i < 32
        invariant
            i <= 32,
            forall|k: int| 0 <= k < i ==> a[k] == b[k],
        decreases 32 - i,
    {
        if a[i] != b[i] {
            return false;
        }
        i = i + 1;
    }
    assert(*a =~= *b);
    true
}

/// Compares two byte strings.
pub fn same_bytes(a: &[u8], b: &[u8]) -> (r: bool)
    ensures
        r == (a@ == b@),
{
    if a.len() != b.len() {
        return false;
    }
    let mut i: usize = 0;
    while i < a.len()
        invariant
            i <= a@.len(),
            a@.len() == b@.len(),
            forall|k: int| 0 <= k < i ==> a@[k] == b@[k],
        decreases a@.len() - i,
    {
        if a[i] != b[i] {
            return false;
        }
        i = i + 1;
    }
    assert(a@ =~= b@);
    true
}

/// Appends the eight big-endian bytes of `v`.
pub fn push_be8(out: &mut Vec<u8>, v: u64)
    ensures
        final(out)@ == old(out)@ + be8(v),
{
    out.push((v / 0x0100_0000_0000_0000) as u8);
    out.push((v / 0x0001_0000_0000_0000 % 256) as u8);
    out.push((v / 0x0000_0100_0000_0000 % 256) as u8);
    out.push((v / 0x0000_0001_0000_0000 % 256) as u8);
    out.push((v / 0x0000_0000_0100_0000 % 256) as u8);
    out.push((v / 0x0000_0000_0001_0000 % 256) as u8);
    out.push((v / 0x0000_0000_0000_0100 % 256) as u8);
    out.push((v % 256) as u8);
    proof {
        reveal(be8);
        assert(out@ =~= old(out)@ + be8(v));
    }
}

/// Appends `src`.
pub fn push_bytes(out: &mut Vec<u8>, src: &[u8])
    ensures
        final(out)@ == old(out)@ + src@,
{
    let mut i: usize = 0;
    while i < src.len()
        invariant
            i <= src@.len(),
            out@ == old(out)@ + src@.take(i as int),
        decreases src@.len() - i,
    {
        out.push(src[i]);
        proof {
            assert(src@.take(i + 1) =~= src@.take(i as int).push(src@[i as int]));
        }
        i = i + 1;
    }
    proof {
        assert(src@.take(i as int) =~= src@);
    }
}

/// Appends the 32 bytes of `id`.
pub fn push_id(out: &mut Vec<u8>, id: &Id32)
    ensures
        final(out)@ == old(out)@ + id@,
{
    let mut i: usize = 0;
    while i < 32
        invariant
            i <= 32,
            out@ == old(out)@ + id@.take(i as int),
        decreases 32 - i,
    {
        out.push(id[i]);
        proof {
            assert(id@.take(i + 1) =~= id@.take(i as int).push(id@[i as int]));
        }
        i = i + 1;
    }
    proof {
        assert(id@.take(i as int) =~= id@);
    }
}

/// The first 32 bytes of `src` as an identifier.
pub fn id_from_slice(src: &[u8]) -> (r: Id32)
    requires
        src@.len() >= 32,
    ensures
        r@ == src@.take(32),
{
    let mut out: Id32 = [0u8; 32];
    let mut i: usize = 0;
    while i < 32
        invariant
            i <= 32,
            src@.len() >= 32,
            forall|k: int| 0 <= k < i ==> out@[k] == src@[k],
        decreases 32 - i,
    {
        out[i] = src[i];
        i = i + 1;
    }
    assert(out@ =~= src@.take(32));
    out
}

/// A number as a 32-byte word: 24 zero bytes, then its eight big-endian bytes.
pub fn u64_to_bytes32(val: u64) -> (r: Id32)
    ensures
        r@ == zeros(24) + be8(val),
{
    let mut buf: Vec<u8> = Vec::new();
    let mut i: usize = 0;
    while i < 24
        invariant
            i <= 24,
            buf@ == zeros(i as nat),
        decreases 24 - i,
    {
        buf.push(0u8);
        proof {
            assert(buf@ =~= zeros((i + 1) as nat));
        }
        i = i + 1;
    }
    push_be8(&mut buf, val);
    proof {
        lemma_be8_len(val);
    }
    let out: Id32 = id_from_slice(buf.as_slice());
    assert(out@ =~= zeros(24) + be8(val));
    out
}

/// A 32-byte word made from a number stands for that number.
pub proof fn law_u64_word_value(v: u64)
    ensures
        be_value(zeros(24) + be8(v)) == v,
{
    lemma_be_value_leading_zeros(24, be8(v));
    law_be8_round_trip(v);
}

/// The first bytes of a number count no more than all of it.
pub proof fn lemma_be_value_grows(s: Seq<u8>, n: int)
    requires
        0 <= n <= s.len(),
    ensures
        be_value(s.take(n)) <= be_value(s),
    decreases s.len() - n,
{
    if n < s.len() {
        lemma_be_value_grows(s, n + 1);
        assert(s.take(n + 1).drop_last() =~= s.take(n));
    } else {
        assert(s.take(n) =~= s);
    }
}

/// The number in a word, if it fits in a machine word.
pub fn word_to_u64(word: &Id32) -> (r: Option<u64>)
    ensures
        match r {
            Some(v) => be_value(word@) == v,
            None => be_value(word@) > u64::MAX,
        },
{
    let mut v: u64 = 0;
    let mut i: usize = 0;
    proof {
        assert(word@.take(0) =~= Seq::empty());
    }
    while i < 32
        invariant
            i <= 32,
            v == be_value(word@.take(i as int)),
        decreases 32 - i,
    {
        proof {
            assert(word@.take(i + 1).drop_last() =~= word@.take(i as int));
            lemma_be_value_grows(word@, i + 1);
        }
        let b: u64 = word[i] as u64;
        if v > (u64::MAX - b) / 256 {
            return None;
        }
        v = v * 256 + b;
        i = i + 1;
    }
    proof {
        assert(word@.take(32) =~= word@);
    }
    Some(v)
}

} // verus!
