//! What a store holds after a batch has been recorded.

use crate::bytes::{be8, law_be8_injective, lemma_be8_len};
use crate::store::{
    event_key, key_before, law_event_keys_are_in_order, law_stored_number_reads_back,
    number_stored, recorded, sequence_key, watermark_key, WriteSpec,
};
use vstd::prelude::*;
use vstd::utf8::{encode_utf8, is_ascii_chars_encode_utf8};

verus! {

/// A key-value store.
pub type Db = Map<Seq<u8>, Seq<u8>>;

/// A write has been made. `values` are the events of the batch, each as it is stored.
pub open spec fn written(db: Db, w: WriteSpec, values: Seq<Seq<u8>>) -> Db {
    match w {
        WriteSpec::Event { key, index } => db.insert(key, values[index as int]),
        WriteSpec::Put { key, value } => db.insert(key, value),
    }
}

/// The first `n` writes have been made.
pub open spec fn all_written(db: Db, ws: Seq<WriteSpec>, values: Seq<Seq<u8>>, n: nat) -> Db
    decreases n,
{
    if n == 0 {
        db
    } else {
        written(all_written(db, ws, values, (n - 1) as nat), ws[n - 1], values)
    }
}

/// A key of an event: it begins as one does.
pub open spec fn is_event_key(k: Seq<u8>) -> bool {
    k.len() >= 6 && k.take(6) == encode_utf8("event:"@)
}

/// The key is that of one of the first `n` events.
pub open spec fn is_key_of(k: Seq<u8>, n: nat) -> bool {
    exists|i: u64| i < n && k == #[trigger] event_key(i)
}

/// `db` holds these events, numbered from zero on, and says how many there are.
pub open spec fn holds_events(db: Db, events: Seq<Seq<u8>>) -> bool {
    &&& events.len() <= u64::MAX
    &&& forall|i: u64|
        i < events.len() ==> db.contains_key(#[trigger] event_key(i)) && db[event_key(i)]
            == events[i as int]
    &&& forall|k: Seq<u8>| #[trigger]
        db.contains_key(k) && is_event_key(k) ==> is_key_of(k, events.len())
    &&& if db.contains_key(sequence_key()) {
        number_stored(db[sequence_key()]) == Some(events.len() as u64)
    } else {
        events.len() == 0
    }
}

/// `db` says that events up to a block have been recorded.
pub open spec fn synced_through(db: Db, block: u64) -> bool {
    db.contains_key(watermark_key()) && number_stored(db[watermark_key()]) == Some(block)
}

proof fn lemma_key_bytes()
    ensures
        encode_utf8("event:"@).len() == 6,
        !is_event_key(sequence_key()),
        !is_event_key(watermark_key()),
        sequence_key() != watermark_key(),
{
    reveal_strlit("event:");
    reveal_strlit("__event_seq__");
    reveal_strlit("__last_synced_block__");
    is_ascii_chars_encode_utf8("event:"@);
    is_ascii_chars_encode_utf8("__event_seq__"@);
    is_ascii_chars_encode_utf8("__last_synced_block__"@);
    assert(encode_utf8("event:"@)[0] == 101u8);
    assert(sequence_key()[0] == 95u8);
    assert(watermark_key()[0] == 95u8);
    assert(sequence_key().len() == 13 && watermark_key().len() == 21);
    if is_event_key(sequence_key()) {
        assert(sequence_key().take(6)[0] == 95u8);
    }
    if is_event_key(watermark_key()) {
        assert(watermark_key().take(6)[0] == 95u8);
    }
}

proof fn lemma_event_key(i: u64, j: u64)
    ensures
        is_event_key(event_key(i)),
        event_key(i) == event_key(j) ==> i == j,
{
    lemma_key_bytes();
    lemma_be8_len(i);
    lemma_be8_len(j);
    assert(event_key(i).take(6) =~= encode_utf8("event:"@));
    if event_key(i) == event_key(j) {
        assert(event_key(i).skip(6) =~= be8(i));
        assert(event_key(j).skip(6) =~= be8(j));
        law_be8_injective(i, j);
    }
}

/// After the first `n` events of the batch: they are there, and the rest is as it was.
proof fn lemma_events_written(
    db: Db,
    events: Seq<Seq<u8>>,
    values: Seq<Seq<u8>>,
    through: u64,
    n: nat,
)
    requires
        holds_events(db, events),
        events.len() + values.len() <= u64::MAX,
        n <= values.len(),
        values.len() > 0,
    ensures
        ({
            let ws = recorded(events.len() as u64, values.len(), through);
            let d = all_written(db, ws, values, n);
            &&& forall|i: u64|
                i < events.len() + n ==> d.contains_key(#[trigger] event_key(i))
                    && d[event_key(i)] == (events + values)[i as int]
            &&& forall|k: Seq<u8>| #[trigger]
                d.contains_key(k) && is_event_key(k) ==> is_key_of(k, events.len() + n)
        }),
    decreases n,
{
    let ws = recorded(events.len() as u64, values.len(), through);
    let d = all_written(db, ws, values, n);
    if n > 0 {
        lemma_events_written(db, events, values, through, (n - 1) as nat);
        let c = all_written(db, ws, values, (n - 1) as nat);
        let at = (events.len() + n - 1) as u64;
        assert(ws[n - 1] == (WriteSpec::Event { key: event_key(at), index: (n - 1) as nat }));
        assert(d == c.insert(event_key(at), values[n - 1]));
        assert forall|i: u64| i < events.len() + n implies d.contains_key(#[trigger] event_key(i))
            && d[event_key(i)] == (events + values)[i as int] by {
            lemma_event_key(i, at);
        }
        assert forall|k: Seq<u8>| #[trigger] d.contains_key(k) && is_event_key(k) implies is_key_of(
            k,
            events.len() + n,
        ) by {
            if k == event_key(at) {
            } else {
                assert(c.contains_key(k));
                let i = choose|i: u64| i < events.len() + n - 1 && k == #[trigger] event_key(i);
                assert(i < events.len() + n && k == event_key(i));
            }
        }
    } else {
        assert forall|i: u64| i < events.len() implies d.contains_key(#[trigger] event_key(i))
            && d[event_key(i)] == (events + values)[i as int] by {
            assert(db.contains_key(event_key(i)));
        }
    }
}

/// Recording a batch appends it: the store holds the events that it held, in their order, followed
/// by the batch, and is synced through the block given. An empty batch moves the block alone.
pub proof fn law_recording_appends(
    db: Db,
    events: Seq<Seq<u8>>,
    values: Seq<Seq<u8>>,
    through: u64,
)
    requires
        holds_events(db, events),
        events.len() + values.len() <= u64::MAX,
    ensures
        ({
            let ws = recorded(events.len() as u64, values.len(), through);
            let after = all_written(db, ws, values, ws.len());
            holds_events(after, events + values) && synced_through(after, through)
        }),
{
    let ws = recorded(events.len() as u64, values.len(), through);
    let n = values.len();
    let after = all_written(db, ws, values, ws.len());
    let all = events + values;
    lemma_key_bytes();
    law_stored_number_reads_back(through);
    law_stored_number_reads_back((events.len() + n) as u64);
    if n == 0 {
        assert(ws.len() == 1);
        assert(all_written(db, ws, values, 0) == db);
        assert(after == db.insert(watermark_key(), be8(through)));
        assert(all =~= events);
        assert forall|i: u64| i < all.len() implies after.contains_key(#[trigger] event_key(i))
            && after[event_key(i)] == all[i as int] by {
            lemma_event_key(i, i);
            assert(db.contains_key(event_key(i)));
        }
        assert forall|k: Seq<u8>| #[trigger]
            after.contains_key(k) && is_event_key(k) implies is_key_of(k, all.len()) by {
            assert(db.contains_key(k));
        }
    } else {
        lemma_events_written(db, events, values, through, n);
        let c = all_written(db, ws, values, n);
        let count = (events.len() + n) as u64;
        assert(ws.len() == n + 2);
        assert(ws[n as int] == (WriteSpec::Put { key: sequence_key(), value: be8(count) }));
        assert(ws[n as int + 1] == (WriteSpec::Put { key: watermark_key(), value: be8(through) }));
        let d = all_written(db, ws, values, n + 1);
        assert(d == c.insert(sequence_key(), be8(count)));
        assert(after == d.insert(watermark_key(), be8(through)));
        assert forall|i: u64| i < all.len() implies after.contains_key(#[trigger] event_key(i))
            && after[event_key(i)] == all[i as int] by {
            lemma_event_key(i, i);
            assert(c.contains_key(event_key(i)));
        }
        assert forall|k: Seq<u8>| #[trigger]
            after.contains_key(k) && is_event_key(k) implies is_key_of(k, all.len()) by {
            assert(c.contains_key(k));
        }
    }
}

/// `ks` lists the keys of events in a store, in the order of their bytes: what reading the events
/// back goes through.
pub open spec fn scans(db: Db, ks: Seq<Seq<u8>>) -> bool {
    &&& forall|i: int, j: int| 0 <= i < j < ks.len() ==> key_before(#[trigger] ks[i], #[trigger] ks[j])
    &&& forall|k: Seq<u8>| #[trigger]
        ks.contains(k) <==> db.contains_key(k) && is_event_key(k)
}

proof fn lemma_one_before(a: Seq<u8>, b: Seq<u8>)
    requires
        key_before(a, b),
    ensures
        !key_before(b, a),
{
    let x = choose|k: int|
        0 <= k < a.len() && k < b.len() && #[trigger] a[k] < b[k] && forall|j: int|
            0 <= j < k ==> a[j] == b[j];
    if key_before(b, a) {
        let y = choose|k: int|
            0 <= k < b.len() && k < a.len() && #[trigger] b[k] < a[k] && forall|j: int|
                0 <= j < k ==> b[j] == a[j];
        assert(b[y] < a[y]);
        if x < y {
            assert(b[x] == a[x]);
        } else if y < x {
            assert(a[y] == b[y]);
        }
    }
}

/// Reading the events of a store back in the order of their keys gives them in the order in which
/// they were recorded.
pub proof fn law_events_read_back_in_order(db: Db, events: Seq<Seq<u8>>, ks: Seq<Seq<u8>>)
    requires
        holds_events(db, events),
        scans(db, ks),
    ensures
        ks.len() == events.len(),
        forall|i: int| 0 <= i < ks.len() ==> db[#[trigger] ks[i]] == events[i],
{
    lemma_scan(db, events, ks, events.len());
    assert forall|i: int| 0 <= i < ks.len() implies db[#[trigger] ks[i]] == events[i] by {
        assert(ks[i] == event_key(i as u64));
        assert(db.contains_key(event_key(i as u64)));
    }
}

/// The first keys of a scan are those of the first events.
proof fn lemma_scan(db: Db, events: Seq<Seq<u8>>, ks: Seq<Seq<u8>>, n: nat)
    requires
        holds_events(db, events),
        scans(db, ks),
        n <= events.len(),
    ensures
        n <= ks.len(),
        forall|i: int| 0 <= i < n ==> #[trigger] ks[i] == event_key(i as u64),
        n == events.len() ==> ks.len() == n,
    decreases n,
{
    if n > 0 {
        let m = (n - 1) as nat;
        lemma_scan(db, events, ks, m);
        let key = event_key(m as u64);
        lemma_event_key(m as u64, m as u64);
        assert(db.contains_key(key));
        assert(ks.contains(key));
        let at = choose|at: int| 0 <= at < ks.len() && ks[at] == key;
        if at < m {
            assert(ks[at] == event_key(at as u64));
            lemma_event_key(at as u64, m as u64);
        }
        if at > m {
            assert(ks.contains(ks[m as int]));
            let other = ks[m as int];
            assert(is_key_of(other, events.len()));
            let i = choose|i: u64| i < events.len() && other == #[trigger] event_key(i);
            assert(key_before(ks[m as int], ks[at]));
            lemma_one_before(other, key);
            if i > m {
                law_event_keys_are_in_order(m as u64, i);
            } else if i < m {
                assert(ks[i as int] == event_key(i));
                assert(key_before(ks[i as int], ks[m as int]));
                lemma_one_before(other, other);
            } else {
                lemma_one_before(key, key);
            }
        }
    }
    if n == events.len() && ks.len() > n {
        let other = ks[n as int];
        assert(ks.contains(other));
        assert(is_key_of(other, events.len()));
        let i = choose|i: u64| i < events.len() && other == #[trigger] event_key(i);
        assert(ks[i as int] == event_key(i));
        assert(key_before(ks[i as int], ks[n as int]));
        lemma_one_before(other, other);
    }
}

} // verus!
