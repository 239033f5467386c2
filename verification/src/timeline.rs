//! The timeline: an ordered set of shared cold arenas and the iteration
//! engine over them.
//!
//! Readers take a snapshot of the arena list; a [`Slice`] yields entries
//! from that snapshot only, so later additions and removals never affect
//! an iterator that already exists. Within each arena entries come in
//! strict `(timestamp, cid)` order; arenas are visited in epoch order,
//! ascending or descending.

use std::sync::Arc;
use vstd::prelude::*;

use crate::arena::{visible, Cold, Entry, Rec};
use crate::order::Order;
use crate::Timestamp;

verus! {

/// Relies on `alloc::sync::Arc::clone`: cloning a shared pointer
/// yields a pointer to the same arena.
#[verifier::external_body]
fn arc_clone(a: &Arc<Cold>) -> (r: Arc<Cold>)
    ensures
        r == *a,
{
    a.clone()
}

/// What one arena contributes to a walk: its visible entries, reversed
/// for descending order.
pub open spec fn arena_yield(c: Cold, start: Timestamp, order: Order) -> Seq<Rec> {
    match order {
        Order::Asc => visible(c, start),
        Order::Desc => visible(c, start).reverse(),
    }
}

/// The entries still to come when the walk stands at arena position
/// `pos` of the relevant range `[first, snap.len())`: ascending walks
/// visit `first + pos`, descending walks `snap.len() - 1 - pos`.
pub open spec fn yield_from(
    snap: Seq<Cold>,
    first: int,
    start: Timestamp,
    order: Order,
    pos: int,
) -> Seq<Rec>
    decreases snap.len() - first - pos,
{
    if pos < 0 || first < 0 || pos >= snap.len() - first {
        Seq::empty()
    } else {
        let idx = match order {
            Order::Asc => first + pos,
            Order::Desc => snap.len() - 1 - pos,
        };
        arena_yield(snap[idx], start, order) + yield_from(snap, first, start, order, pos + 1)
    }
}

/// Everything a walk over these arenas yields, from the first arena on.
pub open spec fn timeline_yield(snap: Seq<Cold>, start: Timestamp, order: Order) -> Seq<Rec> {
    yield_from(snap, 0, start, order, 0)
}

/// The absolute `(timestamp, cid)` keys one arena contributes to an
/// ascending walk: the keys of its visible entries, in yield order.
pub open spec fn arena_keys(c: Cold, start: Timestamp) -> Seq<(u64, u64)> {
    Seq::new(
        visible(c, start).len(),
        |i: int| ((c.spec_span().epoch + visible(c, start)[i].2) as u64, visible(c, start)[i].1),
    )
}

/// The absolute keys an ascending walk yields from arena position `pos`
/// of the relevant range on: `arena_keys` of each visited arena,
/// concatenated. Entry `k` keys the walk's `k`-th yielded record.
pub open spec fn yield_keys_from(
    snap: Seq<Cold>,
    first: int,
    start: Timestamp,
    pos: int,
) -> Seq<(u64, u64)>
    decreases snap.len() - first - pos,
{
    if pos < 0 || first < 0 || pos >= snap.len() - first {
        Seq::empty()
    } else {
        arena_keys(snap[first + pos], start) + yield_keys_from(snap, first, start, pos + 1)
    }
}

/// Strictly increasing lexicographic order on `(timestamp, cid)` keys.
pub open spec fn keys_increasing(keys: Seq<(u64, u64)>) -> bool {
    forall|a: int, b: int|
        0 <= a < b < keys.len() ==> (#[trigger] keys[a]).0 < (#[trigger] keys[b]).0 || (keys[a].0
            == keys[b].0 && keys[a].1 < keys[b].1)
}

/// Every key of one arena's contribution lies inside its window.
proof fn lemma_arena_keys_in_window(c: Cold, start: Timestamp)
    requires
        c.wf(),
    ensures
        forall|i: int|
            0 <= i < arena_keys(c, start).len() ==> c.spec_span().epoch <= (#[trigger] arena_keys(
                c,
                start,
            )[i]).0 < c.spec_span().epoch + c.spec_span().duration,
        keys_increasing(arena_keys(c, start)),
{
    crate::arena::lemma_visible_exact(c, start);
    crate::arena::lemma_rows_duration(c);
    crate::arena::lemma_cold_bounded(c);
    let vis = visible(c, start);
    let keys = arena_keys(c, start);
    assert forall|i: int| 0 <= i < vis.len() implies (#[trigger] vis[i]).2
        < c.spec_span().duration by {
        assert(c.rows().contains(vis[i]));
        let t = choose|t: int| 0 <= t < c.rows().len() && c.rows()[t] == vis[i];
        assert(c.rows()[t].2 < c.spec_span().duration);
    }
    assert forall|i: int| 0 <= i < keys.len() implies c.spec_span().epoch <= (#[trigger] keys[
        i
    ]).0 < c.spec_span().epoch + c.spec_span().duration by {
        assert(vis[i].2 < c.spec_span().duration);
        assert(keys[i].0 == c.spec_span().epoch + vis[i].2);
    }
    assert forall|a: int, b: int| 0 <= a < b < keys.len() implies (#[trigger] keys[a]).0
        < (#[trigger] keys[b]).0 || (keys[a].0 == keys[b].0 && keys[a].1 < keys[b].1) by {
        assert(crate::arena::rec_lt(vis[a], vis[b]));
        assert(vis[a].2 < c.spec_span().duration);
        assert(vis[b].2 < c.spec_span().duration);
        assert(keys[a].0 == c.spec_span().epoch + vis[a].2);
        assert(keys[b].0 == c.spec_span().epoch + vis[b].2);
        assert(keys[a].1 == vis[a].1);
        assert(keys[b].1 == vis[b].1);
    }
}

/// Across non-overlapping, epoch-ordered arenas, an ascending walk
/// yields keys in strictly increasing `(timestamp, cid)` order: within
/// one arena by the sort invariant, across arenas because each window
/// ends before the next begins.
pub proof fn lemma_timeline_monotone(snap: Seq<Cold>, first: int, start: Timestamp, pos: int)
    requires
        0 <= first <= snap.len(),
        0 <= pos,
        forall|i: int| 0 <= i < snap.len() ==> (#[trigger] snap[i]).wf(),
        forall|i: int, j: int|
            0 <= i < j < snap.len() ==> (#[trigger] snap[i]).spec_span().epoch
                + snap[i].spec_span().duration <= (#[trigger] snap[j]).spec_span().epoch,
    ensures
        keys_increasing(yield_keys_from(snap, first, start, pos)),
        pos < snap.len() - first ==> forall|k: int|
            0 <= k < yield_keys_from(snap, first, start, pos).len()
                ==> (#[trigger] yield_keys_from(snap, first, start, pos)[k]).0 >= snap[first
                + pos].spec_span().epoch,
    decreases snap.len() - first - pos,
{
    if pos < snap.len() - first {
        let c = snap[first + pos];
        let head = arena_keys(c, start);
        let tail = yield_keys_from(snap, first, start, pos + 1);
        let whole = yield_keys_from(snap, first, start, pos);
        lemma_arena_keys_in_window(c, start);
        lemma_timeline_monotone(snap, first, start, pos + 1);
        assert(whole == head + tail);
        assert forall|k: int| 0 <= k < tail.len() implies (#[trigger] tail[k]).0
            >= c.spec_span().epoch + c.spec_span().duration by {
            let d = snap[first + pos + 1];
            assert(tail[k].0 >= d.spec_span().epoch);
            assert(c.spec_span().epoch + c.spec_span().duration <= d.spec_span().epoch);
        }
        assert forall|a: int, b: int| 0 <= a < b < whole.len() implies (#[trigger] whole[a]).0
            < (#[trigger] whole[b]).0 || (whole[a].0 == whole[b].0 && whole[a].1 < whole[b].1) by {
            if a < head.len() && b >= head.len() {
                assert(whole[a] == head[a]);
                assert(whole[b] == tail[b - head.len()]);
                assert(head[a].0 < c.spec_span().epoch + c.spec_span().duration);
            } else if a >= head.len() {
                assert(whole[a] == tail[a - head.len()]);
                assert(whole[b] == tail[b - head.len()]);
            } else {
                assert(whole[a] == head[a]);
                assert(whole[b] == head[b]);
            }
        }
        assert forall|k: int| 0 <= k < whole.len() implies (#[trigger] whole[k]).0
            >= c.spec_span().epoch by {
            if k >= head.len() {
                assert(whole[k] == tail[k - head.len()]);
                if pos + 1 < snap.len() - first {
                    let d = snap[first + pos + 1];
                    assert(tail[k - head.len()].0 >= d.spec_span().epoch);
                    assert(c.spec_span().epoch <= d.spec_span().epoch) by {
                        assert(c.spec_span().epoch + c.spec_span().duration
                            <= d.spec_span().epoch);
                    }
                }
            } else {
                assert(whole[k] == head[k]);
            }
        }
    }
}

/// The arenas left after removing every arena with this epoch.
pub open spec fn without_epoch(snap: Seq<Cold>, epoch: Timestamp) -> Seq<Cold>
    decreases snap.len(),
{
    if snap.len() == 0 {
        Seq::empty()
    } else {
        let rest = without_epoch(snap.drop_last(), epoch);
        if snap.last().spec_span().epoch == epoch {
            rest
        } else {
            rest.push(snap.last())
        }
    }
}

/// Removing an epoch twice leaves the same arenas as removing it once.
pub proof fn lemma_remove_idempotent(snap: Seq<Cold>, epoch: Timestamp)
    ensures
        without_epoch(without_epoch(snap, epoch), epoch) == without_epoch(snap, epoch),
    decreases snap.len(),
{
    if snap.len() > 0 {
        lemma_remove_idempotent(snap.drop_last(), epoch);
        if snap.last().spec_span().epoch != epoch {
            let rest = without_epoch(snap.drop_last(), epoch);
            assert(without_epoch(snap, epoch) == rest.push(snap.last()));
            assert(without_epoch(rest.push(snap.last()), epoch) == without_epoch(rest, epoch).push(
                snap.last(),
            )) by {
                assert(rest.push(snap.last()).drop_last() =~= rest);
                assert(rest.push(snap.last()).last() == snap.last());
            }
        }
    }
}

/// An atomically replaceable, epoch-ordered list of shared cold arenas.
pub struct Timeline {
    arenas: Vec<Arc<Cold>>,
}

impl Timeline {
    /// The arenas currently installed, in list order.
    pub closed spec fn arenas(self) -> Seq<Cold> {
        Seq::new(self.arenas@.len(), |i: int| *self.arenas@[i])
    }

    /// Every arena is well-formed and the list is sorted by epoch.
    pub closed spec fn wf(self) -> bool {
        &&& forall|i: int| 0 <= i < self.arenas().len() ==> (#[trigger] self.arenas()[i]).wf()
        &&& forall|i: int, j: int|
            0 <= i < j < self.arenas().len() ==> (#[trigger] self.arenas()[i]).spec_span().epoch
                <= (#[trigger] self.arenas()[j]).spec_span().epoch
    }

    /// Builds a timeline over the given arenas, sorting them by epoch.
    pub fn new(arenas: Vec<Arc<Cold>>) -> (r: Timeline)
        requires
            forall|i: int| 0 <= i < arenas@.len() ==> (*#[trigger] arenas@[i]).wf(),
        ensures
            r.wf(),
            r.arenas().to_multiset() == Seq::new(
                arenas@.len(),
                |i: int| *arenas@[i],
            ).to_multiset(),
    {
        let mut t = Timeline { arenas };
        t.sort_by_epoch();
        t
    }

    /// Sorts the arena list by epoch in place.
    fn sort_by_epoch(&mut self)
        requires
            forall|i: int| 0 <= i < old(self).arenas().len() ==> (#[trigger] old(
                self,
            ).arenas()[i]).wf(),
        ensures
            final(self).wf(),
            final(self).arenas().to_multiset() == old(self).arenas().to_multiset(),
    {
        let ghost orig = self.arenas();
        let n = self.arenas.len();
        let mut i: usize = 1;
        while i < n
            invariant
                1 <= i <= n || (n == 0 && i == 1),
                n == self.arenas().len(),
                self.arenas().to_multiset() == orig.to_multiset(),
                forall|k: int| 0 <= k < n ==> (#[trigger] self.arenas()[k]).wf(),
                forall|a: int, b: int|
                    0 <= a < b < i ==> (#[trigger] self.arenas()[a]).spec_span().epoch
                        <= (#[trigger] self.arenas()[b]).spec_span().epoch,
            decreases n - i,
        {
            let mut j: usize = i;
            while j > 0
                invariant
                    0 <= j <= i < n,
                    n == self.arenas().len(),
                    self.arenas().to_multiset() == orig.to_multiset(),
                    forall|k: int| 0 <= k < n ==> (#[trigger] self.arenas()[k]).wf(),
                    forall|a: int, b: int|
                        0 <= a < b <= i && b != j ==> (#[trigger] self.arenas()[a]).spec_span().epoch
                            <= (#[trigger] self.arenas()[b]).spec_span().epoch,
                ensures
                    0 <= j <= i < n,
                    n == self.arenas().len(),
                    self.arenas().to_multiset() == orig.to_multiset(),
                    forall|k: int| 0 <= k < n ==> (#[trigger] self.arenas()[k]).wf(),
                    forall|a: int, b: int|
                        0 <= a < b <= i && b != j ==> (#[trigger] self.arenas()[a]).spec_span().epoch
                            <= (#[trigger] self.arenas()[b]).spec_span().epoch,
                    j == 0 || self.arenas()[j - 1].spec_span().epoch
                        <= self.arenas()[j as int].spec_span().epoch,
                decreases j,
            {
                let prev_epoch = self.arenas[j - 1].span().epoch;
                let cur_epoch = self.arenas[j].span().epoch;
                if prev_epoch <= cur_epoch {
                    break ;
                }
                let ghost before = self.arenas();
                let moved = self.arenas.remove(j);
                self.arenas.insert(j - 1, moved);
                proof {
                    assert(self.arenas() =~= before.update(j - 1, before[j as int]).update(
                        j as int,
                        before[j - 1],
                    ));
                    crate::sorting::lemma_swap_preserves_multiset(before, j - 1, j as int);
                }
                j = j - 1;
            }
            i = i + 1;
        }
    }

    /// Inserts an arena at its epoch-sorted position.
    pub fn add(&mut self, arena: Arc<Cold>)
        requires
            old(self).wf(),
            (*arena).wf(),
        ensures
            final(self).wf(),
            final(self).arenas().to_multiset() == old(self).arenas().to_multiset().insert(*arena),
    {
        let n = self.arenas.len();
        let mut lo: usize = 0;
        let mut hi: usize = n;
        while lo < hi
            invariant
                0 <= lo <= hi <= n,
                n == self.arenas().len(),
                self == old(self),
                old(self).wf(),
                forall|k: int|
                    0 <= k < lo ==> (#[trigger] self.arenas()[k]).spec_span().epoch
                        <= arena.spec_span().epoch,
                forall|k: int|
                    hi <= k < n ==> (#[trigger] self.arenas()[k]).spec_span().epoch
                        >= arena.spec_span().epoch,
            decreases hi - lo,
        {
            let mid = lo + (hi - lo) / 2;
            if self.arenas[mid].span().epoch < arena.span().epoch {
                proof {
                    assert forall|k: int| 0 <= k < mid implies (#[trigger] self.arenas()[
                        k
                    ]).spec_span().epoch <= self.arenas()[mid as int].spec_span().epoch by {}
                }
                lo = mid + 1;
            } else {
                proof {
                    assert forall|k: int| mid < k < n implies (#[trigger] self.arenas()[
                        k
                    ]).spec_span().epoch >= self.arenas()[mid as int].spec_span().epoch by {}
                }
                hi = mid;
            }
        }
        let ghost before = self.arenas();
        let ghost pos = lo as int;
        self.arenas.insert(lo, arena);
        proof {
            assert(self.arenas() =~= before.insert(pos, *arena));
            broadcast use vstd::seq_lib::group_to_multiset_ensures;

            assert(self.arenas().to_multiset() == before.to_multiset().insert(*arena));
            assert(final(self).wf()) by {
                assert(forall|k: int|
                    0 <= k < self.arenas().len() && k != pos ==> (#[trigger] self.arenas()[k]).wf()
                        && (if k < pos {
                        self.arenas()[k] == before[k]
                    } else {
                        self.arenas()[k] == before[k - 1]
                    }));
            }
        }
    }

    /// Removes every arena with this epoch; removing an absent epoch is
    /// a no-op.
    pub fn remove(&mut self, epoch: Timestamp)
        requires
            old(self).wf(),
        ensures
            final(self).wf(),
            final(self).arenas() == without_epoch(old(self).arenas(), epoch),
    {
        let ghost before = self.arenas();
        let n = self.arenas.len();
        let mut kept: Vec<Arc<Cold>> = Vec::new();
        let mut i: usize = 0;
        proof {
            assert(before.take(0) =~= Seq::<Cold>::empty());
        }
        while i < n
            invariant
                0 <= i <= n,
                n == self.arenas().len(),
                self == old(self),
                old(self).wf(),
                before == self.arenas(),
                Seq::new(kept@.len(), |k: int| *kept@[k]) == without_epoch(
                    before.take(i as int),
                    epoch,
                ),
            decreases n - i,
        {
            let ghost kept_view = Seq::new(kept@.len(), |k: int| *kept@[k]);
            if self.arenas[i].span().epoch != epoch {
                let a = arc_clone(&self.arenas[i]);
                kept.push(a);
            }
            proof {
                assert(before.take(i as int + 1).drop_last() =~= before.take(i as int));
                assert(before.take(i as int + 1).last() == before[i as int]);
                if before[i as int].spec_span().epoch != epoch {
                    assert(Seq::new(kept@.len(), |k: int| *kept@[k]) =~= kept_view.push(
                        before[i as int],
                    ));
                }
            }
            i = i + 1;
        }
        self.arenas = kept;
        proof {
            assert(before.take(n as int) =~= before);
            lemma_without_epoch_sorted(before, epoch);
        }
    }

    /// The number of installed arenas.
    pub fn len(&self) -> (r: usize)
        ensures
            r == self.arenas().len(),
    {
        self.arenas.len()
    }

    /// Whether no arena is installed.
    pub fn is_empty(&self) -> (r: bool)
        ensures
            r == (self.arenas().len() == 0),
    {
        self.arenas.is_empty()
    }
}

impl Timeline {
    /// Takes a snapshot of the current arenas and returns an iterator
    /// over every entry with absolute timestamp at least `start`,
    /// walking arenas in epoch order, ascending or descending. Later
    /// additions and removals never change what it yields.
    pub fn iter(&self, start: Timestamp, order: Order) -> (r: Slice)
        requires
            self.wf(),
        ensures
            r.wf(),
            r.remaining() == timeline_yield(self.arenas(), start, order),
    {
        let n = self.arenas.len();
        let mut snapshot: Vec<Arc<Cold>> = Vec::new();
        let mut i: usize = 0;
        while i < n
            invariant
                0 <= i <= n,
                n == self.arenas().len(),
                self.wf(),
                snapshot@.len() == i,
                forall|k: int| 0 <= k < i ==> *#[trigger] snapshot@[k] == self.arenas()[k],
            decreases n - i,
        {
            snapshot.push(arc_clone(&self.arenas[i]));
            i = i + 1;
        }
        let ghost snap = Seq::new(snapshot@.len(), |k: int| *snapshot@[k]);
        proof {
            assert(snap =~= self.arenas());
        }
        let mut first: usize = 0;
        while first < n
            invariant
                0 <= first <= n,
                n == snap.len(),
                n == self.arenas().len(),
                self.wf(),
                snap == self.arenas(),
                snap == Seq::new(snapshot@.len(), |k: int| *snapshot@[k]),
                forall|k: int| 0 <= k < snap.len() ==> (#[trigger] snap[k]).wf(),
                forall|k: int|
                    0 <= k < first ==> (#[trigger] snap[k]).spec_span().epoch
                        + snap[k].spec_span().duration <= start,
            ensures
                0 <= first <= n,
                forall|k: int|
                    0 <= k < first ==> (#[trigger] snap[k]).spec_span().epoch
                        + snap[k].spec_span().duration <= start,
            decreases n - first,
        {
            proof {
                crate::arena::lemma_cold_bounded(snap[first as int]);
            }
            if self.arenas[first].span().epoch + self.arenas[first].span().duration as u64
                > start {
                break ;
            }
            first = first + 1;
        }
        let n_relevant = n - first;
        let skip: usize = if n_relevant > 0 {
            let initial = match order {
                Order::Asc => first,
                Order::Desc => n - 1,
            };
            let s = Cold::skip_to(&snapshot[initial], start);
            s
        } else {
            0
        };
        let r = Slice { arena_pos: 0, entry_pos: 0, first, n_relevant, order, skip, snapshot, start };
        proof {
            assert(r.snap() =~= snap);
            lemma_prefix_invisible(snap, first as int, start, order);
            if n_relevant > 0 {
                let cur = r.snap()[r.cur_idx()];
                assert(arena_yield(cur, start, order).skip(0) =~= arena_yield(cur, start, order));
                assert(r.remaining() =~= yield_from(snap, first as int, start, order, 0));
            } else {
                assert(yield_from(snap, first as int, start, order, 0) == Seq::<Rec>::empty());
            }
        }
        r
    }
}

/// An arena whose window ends at or before the start timestamp has no
/// visible entries.
proof fn lemma_invisible_arena(c: Cold, start: Timestamp)
    requires
        c.wf(),
        c.spec_span().epoch + c.spec_span().duration <= start,
    ensures
        visible(c, start) == Seq::<Rec>::empty(),
    decreases c.rows().len(),
{
    lemma_rows_below_duration(c);
    lemma_all_early_invisible(c.rows(), c.spec_span().epoch, c.spec_span().duration, start);
}

/// No row of a column bounded by `duration` is visible past the
/// window's end.
proof fn lemma_all_early_invisible(rows: Seq<Rec>, epoch: u64, duration: u32, start: u64)
    requires
        epoch + duration <= start,
        forall|i: int| 0 <= i < rows.len() ==> (#[trigger] rows[i]).2 < duration,
    ensures
        crate::arena::visible_from(rows, epoch, start) == Seq::<Rec>::empty(),
    decreases rows.len(),
{
    if rows.len() > 0 {
        let front = rows.drop_last();
        assert(forall|i: int| 0 <= i < front.len() ==> front[i] == rows[i]);
        lemma_all_early_invisible(front, epoch, duration, start);
    }
}

/// Rows bounded by the window duration, as the arena invariant states.
proof fn lemma_rows_below_duration(c: Cold)
    requires
        c.wf(),
    ensures
        forall|i: int|
            0 <= i < c.rows().len() ==> (#[trigger] c.rows()[i]).2 < c.spec_span().duration,
{
    crate::arena::lemma_rows_duration(c);
}

/// For an ascending walk, lowering `first` by one and starting one
/// position later visits the same arenas.
proof fn lemma_asc_shift(snap: Seq<Cold>, f: int, start: Timestamp, pos: int)
    requires
        1 <= f <= snap.len(),
        0 <= pos,
    ensures
        yield_from(snap, f - 1, start, Order::Asc, pos + 1) == yield_from(
            snap,
            f,
            start,
            Order::Asc,
            pos,
        ),
    decreases snap.len() - f - pos,
{
    if pos < snap.len() - f {
        lemma_asc_shift(snap, f, start, pos + 1);
    }
}

/// For a descending walk, lowering `first` by one appends that arena's
/// yield at the end.
proof fn lemma_desc_extend(snap: Seq<Cold>, f: int, start: Timestamp, pos: int)
    requires
        1 <= f <= snap.len(),
        0 <= pos <= snap.len() - f,
    ensures
        yield_from(snap, f - 1, start, Order::Desc, pos) == yield_from(
            snap,
            f,
            start,
            Order::Desc,
            pos,
        ) + arena_yield(snap[f - 1], start, Order::Desc),
    decreases snap.len() - f - pos,
{
    let ay = arena_yield(snap[f - 1], start, Order::Desc);
    if pos == snap.len() - f {
        assert(yield_from(snap, f, start, Order::Desc, pos) == Seq::<Rec>::empty());
        assert(yield_from(snap, f - 1, start, Order::Desc, pos + 1) == Seq::<Rec>::empty());
        assert(snap.len() - 1 - pos == f - 1);
        assert(yield_from(snap, f - 1, start, Order::Desc, pos) == ay + Seq::<Rec>::empty());
        assert(ay + Seq::<Rec>::empty() =~= Seq::<Rec>::empty() + ay);
    } else {
        lemma_desc_extend(snap, f, start, pos + 1);
        let idx = snap.len() - 1 - pos;
        let a = arena_yield(snap[idx], start, Order::Desc);
        let t1 = yield_from(snap, f, start, Order::Desc, pos + 1);
        assert(yield_from(snap, f - 1, start, Order::Desc, pos) == a + (t1 + ay));
        assert(a + (t1 + ay) =~= (a + t1) + ay);
    }
}

/// When the arenas before `first` end at or before the start timestamp,
/// walking from `first` yields the same entries as walking from the
/// beginning.
proof fn lemma_prefix_invisible(snap: Seq<Cold>, first: int, start: Timestamp, order: Order)
    requires
        0 <= first <= snap.len(),
        forall|k: int| 0 <= k < snap.len() ==> (#[trigger] snap[k]).wf(),
        forall|k: int|
            0 <= k < first ==> (#[trigger] snap[k]).spec_span().epoch
                + snap[k].spec_span().duration <= start,
    ensures
        yield_from(snap, first, start, order, 0) == yield_from(snap, 0, start, order, 0),
    decreases first,
{
    if first > 0 {
        lemma_rows_below_duration(snap[first - 1]);
        lemma_invisible_arena(snap[first - 1], start);
        let ay = arena_yield(snap[first - 1], start, order);
        assert(ay =~= Seq::<Rec>::empty()) by {
            match order {
                Order::Asc => {},
                Order::Desc => {
                    assert(visible(snap[first - 1], start).reverse() =~= Seq::<Rec>::empty());
                },
            }
        }
        match order {
            Order::Asc => {
                lemma_asc_shift(snap, first, start, 0);
                assert(yield_from(snap, first - 1, start, Order::Asc, 0) == ay + yield_from(
                    snap,
                    first,
                    start,
                    Order::Asc,
                    0,
                ));
                assert(ay + yield_from(snap, first, start, Order::Asc, 0) =~= yield_from(
                    snap,
                    first,
                    start,
                    Order::Asc,
                    0,
                ));
            },
            Order::Desc => {
                lemma_desc_extend(snap, first, start, 0);
                assert(yield_from(snap, first, start, Order::Desc, 0) + ay =~= yield_from(
                    snap,
                    first,
                    start,
                    Order::Desc,
                    0,
                ));
            },
        }
        lemma_prefix_invisible(snap, first - 1, start, order);
    }
}

/// A point-in-time walk over a snapshot of the timeline's arenas.
pub struct Slice {
    arena_pos: usize,
    entry_pos: usize,
    first: usize,
    n_relevant: usize,
    order: Order,
    skip: usize,
    snapshot: Vec<Arc<Cold>>,
    start: Timestamp,
}

impl Slice {
    /// The snapshot of arenas this walk reads.
    pub closed spec fn snap(self) -> Seq<Cold> {
        Seq::new(self.snapshot@.len(), |i: int| *self.snapshot@[i])
    }

    /// The arena index the walk currently stands at.
    pub closed spec fn cur_idx(self) -> int {
        match self.order {
            Order::Asc => self.first + self.arena_pos,
            Order::Desc => self.snap().len() - 1 - self.arena_pos,
        }
    }

    /// Snapshot arenas are well-formed, the positions are in range, and
    /// the cached skip matches the current arena.
    pub closed spec fn wf(self) -> bool {
        &&& forall|i: int| 0 <= i < self.snap().len() ==> (#[trigger] self.snap()[i]).wf()
        &&& self.first <= self.snap().len()
        &&& self.n_relevant == self.snap().len() - self.first
        &&& self.arena_pos <= self.n_relevant
        &&& self.arena_pos < self.n_relevant ==> {
            let cur = self.snap()[self.cur_idx()];
            &&& self.skip <= cur.rows().len()
            &&& visible(cur, self.start) == cur.rows().subrange(
                self.skip as int,
                cur.rows().len() as int,
            )
            &&& self.entry_pos <= cur.rows().len() - self.skip
        }
    }

    /// The entries this walk has yet to yield, in yield order.
    pub closed spec fn remaining(self) -> Seq<Rec> {
        if self.arena_pos >= self.n_relevant {
            Seq::empty()
        } else {
            let cur = self.snap()[self.cur_idx()];
            arena_yield(cur, self.start, self.order).skip(self.entry_pos as int) + yield_from(
                self.snap(),
                self.first as int,
                self.start,
                self.order,
                self.arena_pos + 1,
            )
        }
    }

    /// Yields the next entry of the snapshot, or `None` once every
    /// relevant arena is exhausted.
    pub fn next(&mut self) -> (r: Option<Entry<'_>>)
        requires
            old(self).wf(),
        ensures
            final(self).wf(),
            final(self).snap() == old(self).snap(),
            match r {
                Some(e) => {
                    &&& old(self).remaining().len() > 0
                    &&& e.wf()
                    &&& e.rec() == old(self).remaining()[0]
                    &&& 0 <= final(self).cur_idx() < final(self).snap().len()
                    &&& e.arena() == final(self).snap()[final(self).cur_idx()]
                    &&& final(self).remaining() == old(self).remaining().drop_first()
                },
                None => {
                    &&& old(self).remaining().len() == 0
                    &&& final(self).remaining() == Seq::<Rec>::empty()
                },
            },
    {
        while self.arena_pos < self.n_relevant
            invariant
                self.wf(),
                self.snap() == old(self).snap(),
                self.remaining() == old(self).remaining(),
            ensures
                self.wf(),
                self.snap() == old(self).snap(),
                self.remaining() == old(self).remaining(),
                self.arena_pos >= self.n_relevant,
            decreases self.n_relevant - self.arena_pos,
        {
            let ghost pre = *self;
            let snap_len = self.snapshot.len();
            proof {
                assert(self.snap().len() == snap_len);
                assert(self.first + self.arena_pos < self.snap().len());
            }
            let arena_idx = match self.order {
                Order::Asc => self.first + self.arena_pos,
                Order::Desc => snap_len - 1 - self.arena_pos,
            };
            let arena_len = Cold::len(&self.snapshot[arena_idx]);
            let effective = arena_len - self.skip;
            proof {
                let cur = pre.snap()[pre.cur_idx()];
                assert(visible(cur, pre.start).len() == arena_len - pre.skip);
                assert(arena_yield(cur, pre.start, pre.order).len() == effective);
            }
            if self.entry_pos >= effective {
                self.arena_pos = self.arena_pos + 1;
                self.entry_pos = 0;
                if self.arena_pos < self.n_relevant {
                    proof {
                        assert(self.snap().len() == snap_len);
                        assert(self.first + self.arena_pos < self.snap().len());
                    }
                    let nxt = match self.order {
                        Order::Asc => self.first + self.arena_pos,
                        Order::Desc => snap_len - 1 - self.arena_pos,
                    };
                    let s = Cold::skip_to(&self.snapshot[nxt], self.start);
                    self.skip = s;
                }
                proof {
                    let cur = pre.snap()[pre.cur_idx()];
                    let ay = arena_yield(cur, pre.start, pre.order);
                    assert(ay.skip(pre.entry_pos as int) =~= Seq::<Rec>::empty());
                    assert(pre.remaining() =~= yield_from(
                        pre.snap(),
                        pre.first as int,
                        pre.start,
                        pre.order,
                        pre.arena_pos + 1,
                    ));
                    assert(self.snap() =~= pre.snap());
                    if self.arena_pos < self.n_relevant {
                        let ncur = self.snap()[self.cur_idx()];
                        assert(arena_yield(ncur, self.start, self.order).skip(0) =~= arena_yield(
                            ncur,
                            self.start,
                            self.order,
                        ));
                        assert(self.remaining() =~= yield_from(
                            self.snap(),
                            self.first as int,
                            self.start,
                            self.order,
                            self.arena_pos as int,
                        ));
                    } else {
                        assert(yield_from(
                            self.snap(),
                            self.first as int,
                            self.start,
                            self.order,
                            self.arena_pos as int,
                        ) == Seq::<Rec>::empty());
                    }
                }
            } else {
                let idx = match self.order {
                    Order::Asc => self.skip + self.entry_pos,
                    Order::Desc => arena_len - 1 - self.entry_pos,
                };
                self.entry_pos = self.entry_pos + 1;
                proof {
                    let cur = pre.snap()[pre.cur_idx()];
                    let ay = arena_yield(cur, pre.start, pre.order);
                    let ep = pre.entry_pos as int;
                    assert(self.snap() =~= pre.snap());
                    assert(ay[ep] == cur.rows()[idx as int]) by {
                        let vis = visible(cur, pre.start);
                        match pre.order {
                            Order::Asc => {
                                assert(vis[ep] == cur.rows().subrange(
                                    pre.skip as int,
                                    cur.rows().len() as int,
                                )[ep]);
                            },
                            Order::Desc => {
                                assert(ay[ep] == vis[vis.len() - 1 - ep]);
                                assert(vis[vis.len() - 1 - ep] == cur.rows().subrange(
                                    pre.skip as int,
                                    cur.rows().len() as int,
                                )[vis.len() - 1 - ep]);
                            },
                        }
                    }
                    assert(ay.skip(ep)[0] == ay[ep]);
                    assert(pre.remaining()[0] == ay[ep]);
                    assert(ay.skip(ep).len() > 0);
                    assert(final(self).remaining() == pre.remaining().drop_first()) by {
                        assert(ay.skip(ep).drop_first() =~= ay.skip(ep + 1));
                        let tail = yield_from(
                            pre.snap(),
                            pre.first as int,
                            pre.start,
                            pre.order,
                            pre.arena_pos + 1,
                        );
                        assert((ay.skip(ep) + tail).drop_first() =~= ay.skip(ep).drop_first()
                            + tail);
                        assert(self.remaining() =~= ay.skip(ep + 1) + tail);
                    }
                }
                let e = Entry::new(&self.snapshot[arena_idx], idx);
                proof {
                    assert(self.snap()[self.cur_idx()] == *self.snapshot@[arena_idx as int]);
                }
                return Some(e);
            }
        }
        None
    }
}

/// Removal keeps well-formedness and epoch order, and keeps exactly the
/// arenas with another epoch.
proof fn lemma_without_epoch_sorted(snap: Seq<Cold>, epoch: Timestamp)
    requires
        forall|i: int| 0 <= i < snap.len() ==> (#[trigger] snap[i]).wf(),
        forall|i: int, j: int|
            0 <= i < j < snap.len() ==> (#[trigger] snap[i]).spec_span().epoch
                <= (#[trigger] snap[j]).spec_span().epoch,
    ensures
        forall|i: int|
            0 <= i < without_epoch(snap, epoch).len() ==> (#[trigger] without_epoch(
                snap,
                epoch,
            )[i]).wf(),
        forall|i: int, j: int|
            0 <= i < j < without_epoch(snap, epoch).len() ==> (#[trigger] without_epoch(
                snap,
                epoch,
            )[i]).spec_span().epoch <= (#[trigger] without_epoch(snap, epoch)[j]).spec_span().epoch,
        forall|i: int|
            0 <= i < without_epoch(snap, epoch).len() ==> snap.contains(
                #[trigger] without_epoch(snap, epoch)[i],
            ),
    decreases snap.len(),
{
    if snap.len() > 0 {
        let front = snap.drop_last();
        assert(forall|i: int| 0 <= i < front.len() ==> front[i] == snap[i]);
        lemma_without_epoch_sorted(front, epoch);
        let rest = without_epoch(front, epoch);
        assert(forall|i: int|
            0 <= i < rest.len() ==> front.contains(#[trigger] without_epoch(front, epoch)[i]));
        assert forall|i: int|
            0 <= i < without_epoch(snap, epoch).len() implies snap.contains(
            #[trigger] without_epoch(snap, epoch)[i],
        ) && without_epoch(snap, epoch)[i].wf() by {
            let w = without_epoch(snap, epoch);
            if i < rest.len() {
                assert(w[i] == rest[i]);
                assert(front.contains(rest[i]));
                let t = choose|t: int| 0 <= t < front.len() && front[t] == rest[i];
                assert(snap[t] == rest[i]);
            } else {
                assert(w[i] == snap.last());
            }
        }
        assert forall|i: int, j: int|
            0 <= i < j < without_epoch(snap, epoch).len() implies (#[trigger] without_epoch(
            snap,
            epoch,
        )[i]).spec_span().epoch <= (#[trigger] without_epoch(snap, epoch)[j]).spec_span().epoch by {
            let w = without_epoch(snap, epoch);
            if j < rest.len() {
                assert(w[i] == rest[i] && w[j] == rest[j]);
            } else if snap.last().spec_span().epoch != epoch {
                assert(w[j] == snap.last());
                assert(w[i] == rest[i]);
                assert(front.contains(rest[i]));
                let t = choose|t: int| 0 <= t < front.len() && front[t] == rest[i];
                assert(snap[t].spec_span().epoch <= snap[snap.len() - 1].spec_span().epoch);
            }
        }
    }
}

} // verus!
