//! How the event log and the watermark are laid out in a key-value store.

use crate::bytes::{be8, be_value, push_be8};
use vstd::prelude::*;
use vstd::utf8::encode_utf8;

verus! {

/// The key of the block up to which events have been recorded.
pub open spec fn watermark_key() -> Seq<u8> {
    encode_utf8("__last_synced_block__"@)
}

/// The key of the number of events recorded.
pub open spec fn sequence_key() -> Seq<u8> {
    encode_utf8("__event_seq__"@)
}

/// The key of the `n`-th event.
pub open spec fn event_key(n: u64) -> Seq<u8> {
    encode_utf8("event:"@) + be8(n)
}

/// One write of a batch.
#[derive(Clone, Debug)]
pub enum StoreWrite {
    /// The `index`-th event of the batch goes under `key`.
    Event { key: Vec<u8>, index: usize },
    /// `value` goes under `key`.
    Put { key: Vec<u8>, value: Vec<u8> },
}

/// What a [`StoreWrite`] stands for.
pub enum WriteSpec {
    Event { key: Seq<u8>, index: nat },
    Put { key: Seq<u8>, value: Seq<u8> },
}

impl View for StoreWrite {
    type V = WriteSpec;

    open spec fn view(&self) -> WriteSpec {
        match self {
            StoreWrite::Event { key, index } => WriteSpec::Event { key: key@, index: *index as nat },
            StoreWrite::Put { key, value } => WriteSpec::Put { key: key@, value: value@ },
        }
    }
}

/// Writes, each by its view.
pub open spec fn writes_view(s: Seq<StoreWrite>) -> Seq<WriteSpec> {
    Seq::new(s.len(), |i: int| s[i]@)
}

/// What recording `n` events from sequence number `next` on, up to a block, writes. An empty batch
/// moves the watermark alone.
pub open spec fn recorded(next: u64, n: nat, synced_through: u64) -> Seq<WriteSpec> {
    let mark = WriteSpec::Put { key: watermark_key(), value: be8(synced_through) };
    if n == 0 {
        seq![mark]
    } else {
        Seq::new(
            n,
            |i: int| WriteSpec::Event { key: event_key((next + i) as u64), index: i as nat },
        ).push(WriteSpec::Put { key: sequence_key(), value: be8((next + n) as u64) }).push(mark)
    }
}

fn text_bytes(s: &str) -> (r: Vec<u8>)
    ensures
        r@ == encode_utf8(s@),
{
    let mut out: Vec<u8> = Vec::new();
    crate::bytes::push_bytes(&mut out, s.as_bytes());
    assert(out@ =~= encode_utf8(s@));
    out
}

fn number_bytes(v: u64) -> (r: Vec<u8>)
    ensures
        r@ == be8(v),
{
    let mut out: Vec<u8> = Vec::new();
    push_be8(&mut out, v);
    assert(out@ =~= be8(v));
    out
}

/// The writes, to be made all at once, that record a batch of events and move the watermark.
pub fn plan_record(next_seq: u64, events: usize, synced_through: u64) -> (r: Vec<StoreWrite>)
    requires
        next_seq + events <= u64::MAX,
    ensures
        writes_view(r@) == recorded(next_seq, events as nat, synced_through),
{
    let mut out: Vec<StoreWrite> = Vec::new();
    if events > 0 {
        let ghost evs = Seq::new(
            events as nat,
            |i: int|
                WriteSpec::Event { key: event_key((next_seq + i) as u64), index: i as nat },
        );
        let mut i: usize = 0;
        proof {
            assert(writes_view(out@) =~= evs.take(0));
        }
        while i < events
            invariant
                i <= events,
                next_seq + events <= u64::MAX,
                evs == Seq::new(
                    events as nat,
                    |i: int|
                        WriteSpec::Event {
                            key: event_key((next_seq + i) as u64),
                            index: i as nat,
                        },
                ),
                writes_view(out@) == evs.take(i as int),
            decreases events - i,
        {
            let mut key: Vec<u8> = text_bytes("event:");
            push_be8(&mut key, next_seq + i as u64);
            let ghost o0 = out@;
            let w = StoreWrite::Event { key, index: i };
            out.push(w);
            proof {
                assert(writes_view(out@) =~= writes_view(o0).push(w@));
                assert(evs.take(i + 1) =~= evs.take(i as int).push(evs[i as int]));
                assert(w@ == evs[i as int]);
            }
            i = i + 1;
        }
        let ghost o1 = out@;
        let w = StoreWrite::Put {
            key: text_bytes("__event_seq__"),
            value: number_bytes(next_seq + events as u64),
        };
        out.push(w);
        proof {
            assert(evs.take(events as int) =~= evs);
            assert(writes_view(out@) =~= writes_view(o1).push(w@));
        }
    }
    let ghost o2 = out@;
    let w = StoreWrite::Put {
        key: text_bytes("__last_synced_block__"),
        value: number_bytes(synced_through),
    };
    out.push(w);
    proof {
        assert(writes_view(out@) =~= writes_view(o2).push(w@));
        assert(writes_view(out@) =~= recorded(next_seq, events as nat, synced_through));
    }
    out
}

/// The number that a stored value holds: eight big-endian bytes, and nothing else.
pub open spec fn number_stored(value: Seq<u8>) -> Option<u64> {
    if value.len() == 8 {
        Some(be_value(value) as u64)
    } else {
        None
    }
}

/// Reads the number that a stored value holds.
pub fn stored_number(value: &[u8]) -> (r: Option<u64>)
    ensures
        r == number_stored(value@),
        match r {
            Some(v) => value@.len() == 8 && value@ == be8(v),
            None => value@.len() != 8,
        },
{
    if value.len() != 8 {
        return None;
    }
    let mut v: u64 = 0;
    let mut i: usize = 0;
    proof {
        assert(value@.take(0) =~= Seq::empty());
    }
    while i < 8
        invariant
            i <= 8,
            value@.len() == 8,
            v == be_value(value@.take(i as int)),
            i == 0 ==> v == 0,
            i == 1 ==> v < 0x100,
            i == 2 ==> v < 0x1_0000,
            i == 3 ==> v < 0x100_0000,
            i == 4 ==> v < 0x1_0000_0000,
            i == 5 ==> v < 0x100_0000_0000,
            i == 6 ==> v < 0x1_0000_0000_0000,
            i == 7 ==> v < 0x100_0000_0000_0000,
        decreases 8 - i,
    {
        proof {
            assert(value@.take(i + 1).drop_last() =~= value@.take(i as int));
        }
        v = v * 256 + value[i] as u64;
        i = i + 1;
    }
    proof {
        assert(value@.take(8) =~= value@);
        crate::bytes::law_be8_round_trip(v);
        lemma_be_value_unique(value@, be8(v));
    }
    Some(v)
}

proof fn lemma_be_value_unique(a: Seq<u8>, b: Seq<u8>)
    requires
        a.len() == b.len(),
        be_value(a) == be_value(b),
    ensures
        a == b,
    decreases a.len(),
{
    if a.len() > 0 {
        lemma_be_value_unique(a.drop_last(), b.drop_last());
        assert(a =~= a.drop_last().push(a.last()));
        assert(b =~= b.drop_last().push(b.last()));
    } else {
        assert(a =~= b);
    }
}

/// A stored number reads back as the number that was stored.
pub proof fn law_stored_number_reads_back(v: u64)
    ensures
        number_stored(be8(v)) == Some(v),
{
    crate::bytes::law_be8_round_trip(v);
}

/// `a` comes before `b` where keys are kept in order of their bytes.
pub open spec fn key_before(a: Seq<u8>, b: Seq<u8>) -> bool {
    exists|k: int|
        0 <= k < a.len() && k < b.len() && #[trigger] a[k] < b[k] && forall|j: int|
            0 <= j < k ==> a[j] == b[j]
}

/// Events that are recorded later have keys that come later, so that reading them in the order of
/// their keys gives them back in the order in which they were recorded.
pub proof fn law_event_keys_are_in_order(m: u64, n: u64)
    requires
        m < n,
    ensures
        key_before(event_key(m), event_key(n)),
{
    reveal(be8);
    let p = encode_utf8("event:"@);
    let a = be8(m);
    let b = be8(n);
    let m1 = m / 0x100;
    let m2 = m / 0x1_0000;
    let m3 = m / 0x100_0000;
    let m4 = m / 0x1_0000_0000;
    let m5 = m / 0x100_0000_0000;
    let m6 = m / 0x1_0000_0000_0000;
    let m7 = m / 0x100_0000_0000_0000;
    let n1 = n / 0x100;
    let n2 = n / 0x1_0000;
    let n3 = n / 0x100_0000;
    let n4 = n / 0x1_0000_0000;
    let n5 = n / 0x100_0000_0000;
    let n6 = n / 0x1_0000_0000_0000;
    let n7 = n / 0x100_0000_0000_0000;
    assert(m1 / 256 == m2 && m2 / 256 == m3 && m3 / 256 == m4 && m4 / 256 == m5 && m5 / 256 == m6
        && m6 / 256 == m7 && m7 < 256);
    assert(n1 / 256 == n2 && n2 / 256 == n3 && n3 / 256 == n4 && n4 / 256 == n5 && n5 / 256 == n6
        && n6 / 256 == n7 && n7 < 256);
    assert(m7 <= n7 && m6 <= n6 && m5 <= n5 && m4 <= n4 && m3 <= n3 && m2 <= n2 && m1 <= n1);
    let k = if m7 != n7 {
        0int
    } else if m6 != n6 {
        1int
    } else if m5 != n5 {
        2int
    } else if m4 != n4 {
        3int
    } else if m3 != n3 {
        4int
    } else if m2 != n2 {
        5int
    } else if m1 != n1 {
        6int
    } else {
        7int
    };
    assert(a[k] < b[k]);
    assert forall|j: int| 0 <= j < k implies a[j] == b[j] by {}
    let x = event_key(m);
    let y = event_key(n);
    let q = p.len() + k;
    assert(x[q] == a[k] && y[q] == b[k]);
    assert forall|j: int| 0 <= j < q implies x[j] == y[j] by {
        if j >= p.len() {
            assert(x[j] == a[j - p.len()] && y[j] == b[j - p.len()]);
        }
    }
}

} // verus!
