//! The end of a scan: what the factory and the escrows have logged, in the order of the blocks.

use crate::sync::{
    amount_fits, amounts_fit, announces_escrow, created_event, created_log_event, created_prefix, escrow_event,
    events_view, holds_amount, is_created_log, ChainEvent, ChainSync, EventSpec, RawLog, SyncSpec,
};
use vstd::prelude::*;

verus! {

/// An event and the block that it is of.
pub type Dated = (u64, EventSpec);

/// The block that a log is of. One without a number counts as of the end of the range.
pub open spec fn log_block(log: RawLog, to_block: u64) -> u64 {
    match log.block_number {
        Some(n) => n,
        None => to_block,
    }
}

/// The new escrows, each with its block.
pub open spec fn dated_created(logs: Seq<RawLog>, to_block: u64) -> Seq<Dated> {
    Seq::new(logs.len(), |i: int| (log_block(logs[i], to_block), created_event(logs[i])))
}

/// The deposits and withdrawals in the first `n` logs, each with its block.
pub open spec fn dated_moves(s: SyncSpec, logs: Seq<RawLog>, to_block: u64, n: nat) -> Seq<Dated>
    decreases n,
{
    if n == 0 {
        Seq::empty()
    } else {
        let before = dated_moves(s, logs, to_block, (n - 1) as nat);
        match escrow_event(s, logs[n - 1], to_block) {
            Some(e) => before.push((log_block(logs[n - 1], to_block), e)),
            None => before,
        }
    }
}

/// A list with an event put behind those of its own block and of earlier ones.
pub open spec fn placed(s: Seq<Dated>, e: Dated) -> Seq<Dated>
    decreases s.len(),
{
    if s.len() == 0 || s.last().0 <= e.0 {
        s.push(e)
    } else {
        placed(s.drop_last(), e).push(s.last())
    }
}

/// A list in the order of its blocks. Within a block the order stays.
pub open spec fn by_block(s: Seq<Dated>) -> Seq<Dated>
    decreases s.len(),
{
    if s.len() == 0 {
        Seq::empty()
    } else {
        placed(by_block(s.drop_last()), s.last())
    }
}

/// The events of a list.
pub open spec fn undated(s: Seq<Dated>) -> Seq<EventSpec> {
    Seq::new(s.len(), |i: int| s[i].1)
}

/// All that was logged, in no order of blocks: the new escrows, then what was moved.
pub open spec fn logged(
    s: SyncSpec,
    created: Seq<RawLog>,
    moved: Seq<RawLog>,
    to_block: u64,
) -> Seq<Dated> {
    dated_created(created, to_block) + dated_moves(s, moved, to_block, moved.len())
}

/// All that was logged, block by block: in each the new escrows first, and otherwise in the order
/// of the logs.
pub open spec fn events_by_block(
    s: SyncSpec,
    created: Seq<RawLog>,
    moved: Seq<RawLog>,
    to_block: u64,
) -> Seq<EventSpec> {
    undated(by_block(logged(s, created, moved, to_block)))
}

/// Logs that can be taken in: of new escrows, and with amounts that fit where the escrow is known.
pub open spec fn logs_ok(s: SyncSpec, created: Seq<RawLog>, moved: Seq<RawLog>) -> bool {
    &&& forall|i: int| 0 <= i < created.len() ==> is_created_log(#[trigger] created[i])
    &&& amounts_fit(s, moved)
}

/// The dated events of a list, each by its view.
spec fn dated_view(s: Seq<(u64, ChainEvent)>) -> Seq<Dated> {
    Seq::new(s.len(), |i: int| (s[i].0, s[i].1@))
}

proof fn lemma_placed(s: Seq<Dated>, e: Dated, at: int)
    requires
        0 <= at <= s.len(),
        at == 0 || s[at - 1].0 <= e.0,
        forall|j: int| at <= j < s.len() ==> (#[trigger] s[j]).0 > e.0,
    ensures
        placed(s, e) == s.insert(at, e),
    decreases s.len(),
{
    if at == s.len() {
        assert(s.insert(at, e) =~= s.push(e));
    } else {
        assert(s[s.len() - 1].0 > e.0);
        lemma_placed(s.drop_last(), e, at);
        assert(s.insert(at, e) =~= s.drop_last().insert(at, e).push(s.last()));
    }
}

fn place(v: &mut Vec<(u64, ChainEvent)>, block: u64, event: ChainEvent)
    ensures
        dated_view(final(v)@) == placed(dated_view(old(v)@), (block, event@)),
{
    let ghost s = dated_view(v@);
    let ghost ev = event@;
    let mut at: usize = v.len();
    while at > 0 && v[at - 1].0 > block
        invariant
            at <= v@.len(),
            s == dated_view(v@),
            forall|j: int| at <= j < v@.len() ==> (#[trigger] s[j]).0 > block,
        decreases at,
    {
        assert(s[at - 1].0 == v@[at - 1].0);
        at = at - 1;
    }
    proof {
        if at > 0 {
            assert(s[at - 1].0 == v@[at - 1].0);
        }
        lemma_placed(s, (block, ev), at as int);
    }
    v.insert(at, (block, event));
    assert(dated_view(v@) =~= s.insert(at as int, (block, ev)));
}

/// The block that a log is of.
fn block_of(log: &RawLog, to_block: u64) -> (r: u64)
    ensures
        r == log_block(*log, to_block),
{
    match log.block_number {
        Some(n) => n,
        None => to_block,
    }
}

impl ChainSync {
    /// Ends a scan whose new escrows have been taken in: joins them with what escrows have logged,
    /// in the order of the blocks. The range counts as scanned.
    pub fn complete_scan(
        &mut self,
        created: &Vec<RawLog>,
        moved: &Vec<RawLog>,
        to_block: u64,
    ) -> (r: Vec<ChainEvent>)
        requires
            created_prefix(created@, created@.len() as int),
            amounts_fit(old(self)@, moved@),
        ensures
            events_view(r@) == events_by_block(old(self)@, created@, moved@, to_block),
            final(self)@ == (SyncSpec { last_synced_block: to_block, ..old(self)@ }),
    {
        let ghost s = self@;
        let ghost first = dated_created(created@, to_block);
        let ghost all = logged(s, created@, moved@, to_block);
        let mut sorted: Vec<(u64, ChainEvent)> = Vec::new();
        let mut i: usize = 0;
        assert(dated_view(sorted@) =~= by_block(first.take(0)));
        while i < created.len()
            invariant
                i <= created@.len(),
                s == self@,
                s == old(self)@,
                first == dated_created(created@, to_block),
                created_prefix(created@, created@.len() as int),
                dated_view(sorted@) == by_block(first.take(i as int)),
            decreases created@.len() - i,
        {
            assert(is_created_log(created@[i as int]));
            let event: ChainEvent = created_log_event(&created[i]);
            let block: u64 = block_of(&created[i], to_block);
            proof {
                let t = first.take(i + 1);
                assert(t.drop_last() =~= first.take(i as int));
                assert(t.last() == (block, event@));
            }
            place(&mut sorted, block, event);
            i = i + 1;
        }
        let mut j: usize = 0;
        proof {
            assert(first.take(i as int) =~= first + dated_moves(s, moved@, to_block, 0));
        }
        while j < moved.len()
            invariant
                j <= moved@.len(),
                s == self@,
                s == old(self)@,
                amounts_fit(s, moved@),
                dated_view(sorted@) == by_block(
                    first + dated_moves(s, moved@, to_block, j as nat),
                ),
            decreases moved@.len() - j,
        {
            if let Some(event) = self.escrow_log_event(&moved[j], to_block) {
                let block: u64 = block_of(&moved[j], to_block);
                proof {
                    let t = first + dated_moves(s, moved@, to_block, (j + 1) as nat);
                    assert(t.drop_last() =~= first + dated_moves(s, moved@, to_block, j as nat));
                    assert(t.last() == (block, event@));
                }
                place(&mut sorted, block, event);
            }
            j = j + 1;
        }
        let ghost done = sorted@;
        let mut out: Vec<ChainEvent> = Vec::new();
        for pair in it: sorted.into_iter()
            invariant
                it.seq() == done,
                events_view(out@) == undated(dated_view(done)).take(it.index() as int),
        {
            let ghost o0 = out@;
            let ghost k = it.index() as int;
            out.push(pair.1);
            proof {
                assert(events_view(out@) =~= events_view(o0).push(pair.1@));
                assert(undated(dated_view(done)).take(k + 1) =~= undated(dated_view(done)).take(
                    k,
                ).push(pair.1@));
            }
        }
        proof {
            assert(dated_view(done) == by_block(all));
            let u = undated(dated_view(done));
            assert(u.take(u.len() as int) =~= u);
        }
        self.finish_scan(to_block);
        out
    }

    /// Ends a scan as [`ChainSync::complete_scan`] does, where the logs can be taken in. Where one
    /// cannot, nothing changes.
    pub fn try_complete_scan(
        &mut self,
        created: &Vec<RawLog>,
        moved: &Vec<RawLog>,
        to_block: u64,
    ) -> (r: Option<Vec<ChainEvent>>)
        ensures
            match r {
                Some(events) => {
                    &&& logs_ok(old(self)@, created@, moved@)
                    &&& events_view(events@) == events_by_block(
                        old(self)@,
                        created@,
                        moved@,
                        to_block,
                    )
                    &&& final(self)@ == (SyncSpec { last_synced_block: to_block, ..old(self)@ })
                },
                None => !logs_ok(old(self)@, created@, moved@) && final(self)@ == old(self)@,
            },
    {
        let mut i: usize = 0;
        while i < created.len()
            invariant
                i <= created@.len(),
                self@ == old(self)@,
                forall|k: int| 0 <= k < i ==> is_created_log(#[trigger] created@[k]),
            decreases created@.len() - i,
        {
            if !announces_escrow(&created[i]) {
                assert(!is_created_log(created@[i as int]));
                return None;
            }
            i = i + 1;
        }
        let mut j: usize = 0;
        while j < moved.len()
            invariant
                j <= moved@.len(),
                self@ == old(self)@,
                forall|k: int|
                    0 <= k < j && self@.owners.contains_key((#[trigger] moved@[k]).address)
                        ==> amount_fits(moved@[k]),
            decreases moved@.len() - j,
        {
            if self.knows(moved[j].address) && !holds_amount(&moved[j]) {
                assert(!amount_fits(moved@[j as int]));
                return None;
            }
            j = j + 1;
        }
        Some(self.complete_scan(created, moved, to_block))
    }
}

/// The events of a list that are of a block.
pub open spec fn of_block(s: Seq<Dated>, block: u64) -> Seq<Dated>
    decreases s.len(),
{
    if s.len() == 0 {
        Seq::empty()
    } else if s.last().0 == block {
        of_block(s.drop_last(), block).push(s.last())
    } else {
        of_block(s.drop_last(), block)
    }
}

/// No event comes before one of an earlier block.
pub open spec fn rising(s: Seq<Dated>) -> bool {
    forall|i: int, j: int| 0 <= i < j < s.len() ==> (#[trigger] s[i]).0 <= (#[trigger] s[j]).0
}

proof fn lemma_of_block_push(s: Seq<Dated>, e: Dated, block: u64)
    ensures
        of_block(s.push(e), block) == if e.0 == block {
            of_block(s, block).push(e)
        } else {
            of_block(s, block)
        },
{
    assert(s.push(e).drop_last() =~= s);
}

proof fn lemma_place_in_order(s: Seq<Dated>, e: Dated, block: u64)
    requires
        rising(s),
    ensures
        rising(placed(s, e)),
        placed(s, e).len() == s.len() + 1,
        forall|i: int|
            0 <= i < placed(s, e).len() ==> (#[trigger] placed(s, e)[i]).0 <= e.0 || (s.len() > 0
                && placed(s, e)[i].0 <= s.last().0),
        of_block(placed(s, e), block) == if e.0 == block {
            of_block(s, block).push(e)
        } else {
            of_block(s, block)
        },
    decreases s.len(),
{
    lemma_of_block_push(s, e, block);
    if s.len() == 0 || s.last().0 <= e.0 {
        let p = s.push(e);
        assert forall|i: int, j: int| 0 <= i < j < p.len() implies (#[trigger] p[i]).0 <= (
        #[trigger] p[j]).0 by {
            if j == s.len() {
                assert(s[i].0 <= s[s.len() - 1].0);
            }
        }
    } else {
        let t = s.drop_last();
        assert forall|i: int, j: int| 0 <= i < j < t.len() implies (#[trigger] t[i]).0 <= (
        #[trigger] t[j]).0 by {
            assert(s[i].0 <= s[j].0);
        }
        lemma_place_in_order(t, e, block);
        let p = placed(t, e);
        if t.len() > 0 {
            assert(s[t.len() - 1].0 <= s[s.len() - 1].0);
        }
        assert forall|i: int, j: int| 0 <= i < j < p.push(s.last()).len() implies (
        #[trigger] p.push(s.last())[i]).0 <= (#[trigger] p.push(s.last())[j]).0 by {
            if j < p.len() {
                assert(p[i].0 <= p[j].0);
            }
        }
        lemma_of_block_push(p, s.last(), block);
        lemma_of_block_push(t, s.last(), block);
        assert(t.push(s.last()) =~= s);
        assert(of_block(s, block) == if s.last().0 == block {
            of_block(t, block).push(s.last())
        } else {
            of_block(t, block)
        });
    }
}

/// A scan hands out its events in the order of the blocks, leaves none out and adds none, and keeps
/// the order of those of one block.
pub proof fn law_events_come_in_block_order(s: Seq<Dated>, block: u64)
    ensures
        rising(by_block(s)),
        by_block(s).len() == s.len(),
        of_block(by_block(s), block) == of_block(s, block),
    decreases s.len(),
{
    if s.len() > 0 {
        law_events_come_in_block_order(s.drop_last(), block);
        lemma_place_in_order(by_block(s.drop_last()), s.last(), block);
    }
}

/// Every log of a new escrow, and every log of a known escrow that moves money, gives its event, dated
/// with its own block, or with the end of the range where it has none. There are no other events.
pub proof fn law_every_log_gives_its_event(
    s: SyncSpec,
    created: Seq<RawLog>,
    moved: Seq<RawLog>,
    to_block: u64,
    i: int,
    e: Dated,
)
    requires
        0 <= i < created.len() + moved.len(),
    ensures
        ({
            let all = logged(s, created, moved, to_block);
            let log = if i < created.len() {
                created[i]
            } else {
                moved[i - created.len()]
            };
            let block = if log.block_number is Some {
                log.block_number->0
            } else {
                to_block
            };
            &&& i < created.len() ==> all[i] == (block, created_event(log))
            &&& i >= created.len() && escrow_event(s, log, to_block) is Some ==> all.contains(
                (block, escrow_event(s, log, to_block)->0),
            )
            &&& all.len() <= created.len() + moved.len()
        }),
        logged(s, created, moved, to_block).contains(e) ==> (exists|k: int|
            0 <= k < created.len() && #[trigger] created_event(created[k]) == e.1) || (exists|k: int|

            0 <= k < moved.len() && #[trigger] escrow_event(s, moved[k], to_block) == Some(e.1)),
{
    let all = logged(s, created, moved, to_block);
    let d = dated_moves(s, moved, to_block, moved.len());
    let c = dated_created(created, to_block);
    lemma_moves_are(s, moved, to_block, moved.len(), i - created.len(), e);
    if i >= created.len() {
        let log = moved[i - created.len()];
        if escrow_event(s, log, to_block) is Some {
            let x = (log_block(log, to_block), escrow_event(s, log, to_block)->0);
            let j = choose|j: int| 0 <= j < d.len() && d[j] == x;
            assert(all[c.len() + j] == x);
        }
    }
    if all.contains(e) {
        let j = choose|j: int| 0 <= j < all.len() && all[j] == e;
        if j < c.len() {
            assert(created_event(created[j]) == e.1);
        } else {
            assert(d[j - c.len()] == e);
        }
    }
}

proof fn lemma_moves_are(
    s: SyncSpec,
    logs: Seq<RawLog>,
    to_block: u64,
    n: nat,
    i: int,
    e: Dated,
)
    requires
        n <= logs.len(),
    ensures
        ({
            let d = dated_moves(s, logs, to_block, n);
            &&& d.len() <= n
            &&& 0 <= i < n && escrow_event(s, logs[i], to_block) is Some ==> d.contains(
                (log_block(logs[i], to_block), escrow_event(s, logs[i], to_block)->0),
            )
            &&& d.contains(e) ==> exists|k: int|
                0 <= k < n && #[trigger] escrow_event(s, logs[k], to_block) == Some(e.1)
        }),
    decreases n,
{
    let d = dated_moves(s, logs, to_block, n);
    if n > 0 {
        let b = dated_moves(s, logs, to_block, (n - 1) as nat);
        lemma_moves_are(s, logs, to_block, (n - 1) as nat, i, e);
        if 0 <= i < n && escrow_event(s, logs[i], to_block) is Some {
            let x = (log_block(logs[i], to_block), escrow_event(s, logs[i], to_block)->0);
            if i < n - 1 {
                let j = choose|j: int| 0 <= j < b.len() && b[j] == x;
                assert(d[j] == x);
            } else {
                assert(d[b.len() as int] == x);
            }
        }
        if d.contains(e) {
            let j = choose|j: int| 0 <= j < d.len() && d[j] == e;
            if j < b.len() {
                assert(b[j] == e);
            } else {
                assert(escrow_event(s, logs[n - 1], to_block) == Some(e.1));
            }
        }
    }
}

} // verus!
