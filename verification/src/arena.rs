//! Hot and cold arenas.
//!
//! A [`Hot`] arena ingests posts for one time [`Window`], deduplicated
//! by cid with the first writer winning, keeping parallel columns in
//! memory and streaming blob bytes to an on-disk builder. Freezing sorts
//! the entries by `(timestamp, cid)` and produces an immutable [`Cold`]
//! arena, which serves ordered iteration with a binary-search skip and
//! can be exported to and re-imported from a columnar file.

use std::collections::HashSet;
use std::sync::Arc;
use vstd::prelude::*;
use vstd::seq_lib::*;

use crate::blobs::{rows_of, BlobStore, BlobStoreBuilder};
use crate::sorting::sort_triples;
use crate::usage::{cap_mul, ReportUsage, Usage};
use crate::codec::{batch_seq_rows, bytes_view, dec_bytes, export_rows_of, export_schema, lemma_batch_seq_rows_none, lemma_batch_seq_rows_take, parse_u64, pq_batch_columns, pq_batches, pq_file_meta, pq_file_rows, pq_open, sink_close, sink_meta, sink_new, sink_rows, sink_write, spec_parse_u64, to_decimal, ExportRow};
use bytes::Bytes;
use crate::errors::Error;
use crate::order::{Order, OrderedRange};
use crate::window::Window;
use crate::{Cid, Timestamp, Uid};

verus! {

broadcast use vstd::std_specs::hash::group_hash_axioms;

/// One stored entry: uid, cid, window-relative timestamp, blob bytes.
pub type Rec = (u32, u64, u32, Seq<u8>);

/// One entry as handed to `add`: uid, cid, absolute timestamp, blob
/// bytes.
pub type SRec = (u32, u64, u64, Seq<u8>);

/// Whether some entry carries this cid.
pub open spec fn has_cid(recs: Seq<Rec>, cid: u64) -> bool {
    exists|i: int| 0 <= i < recs.len() && recs[i].1 == cid
}

/// No two entries carry the same cid.
pub open spec fn cids_distinct(recs: Seq<Rec>) -> bool {
    forall|i: int, j: int| 0 <= i < j < recs.len() ==> recs[i].1 != recs[j].1
}

/// Strict `(timestamp, cid)` order between two entries.
pub open spec fn rec_lt(a: Rec, b: Rec) -> bool {
    a.2 < b.2 || (a.2 == b.2 && a.1 < b.1)
}

/// Entries are in strictly ascending `(timestamp, cid)` order.
pub open spec fn strictly_sorted(recs: Seq<Rec>) -> bool {
    forall|i: int, j: int| 0 <= i < j < recs.len() ==> rec_lt(#[trigger] recs[i], #[trigger] recs[j])
}

/// The effect of offering one entry to an arena: a no-op when its cid is
/// already present, an append otherwise.
pub open spec fn spec_add(recs: Seq<Rec>, e: SRec, w: Window) -> Seq<Rec> {
    if has_cid(recs, e.1) {
        recs
    } else {
        recs.push((e.0, e.1, w.spec_to_relative(e.2), e.3))
    }
}

/// The effect of offering a sequence of entries, in order.
pub open spec fn spec_add_all(recs: Seq<Rec>, entries: Seq<SRec>, w: Window) -> Seq<Rec>
    decreases entries.len(),
{
    if entries.len() == 0 {
        recs
    } else {
        spec_add_all(spec_add(recs, entries[0], w), entries.drop_first(), w)
    }
}

/// The entries of a bulk-add argument, with blob views.
pub open spec fn bulk_view(entries: Seq<(Uid, Cid, Timestamp, Vec<u8>)>) -> Seq<SRec> {
    Seq::new(
        entries.len(),
        |i: int| (entries[i].0, entries[i].1, entries[i].2, entries[i].3@),
    )
}

/// The blob bytes of stored entries, summed.
pub open spec fn rec_bytes(recs: Seq<Rec>) -> int {
    crate::sorting::sum_by(recs, |r: Rec| r.3.len() as int)
}

/// The blob bytes of offered entries, summed.
pub open spec fn srec_bytes(entries: Seq<SRec>) -> int {
    crate::sorting::sum_by(entries, |e: SRec| e.3.len() as int)
}

/// Offering entries whose cids are all present already changes nothing.
pub proof fn lemma_spec_add_all_dups(recs: Seq<Rec>, entries: Seq<SRec>, w: Window)
    requires
        forall|i: int| 0 <= i < entries.len() ==> has_cid(recs, (#[trigger] entries[i]).1),
    ensures
        spec_add_all(recs, entries, w) == recs,
    decreases entries.len(),
{
    if entries.len() > 0 {
        assert(spec_add(recs, entries[0], w) == recs);
        let rest = entries.drop_first();
        assert(forall|i: int| 0 <= i < rest.len() ==> rest[i] == entries[i + 1]);
        lemma_spec_add_all_dups(recs, rest, w);
    }
}

/// Offering entries one after another equals offering the prefix and
/// then the next entry.
proof fn lemma_spec_add_all_take(recs: Seq<Rec>, entries: Seq<SRec>, w: Window, k: int)
    requires
        0 <= k < entries.len(),
    ensures
        spec_add_all(recs, entries.take(k + 1), w) == spec_add(
            spec_add_all(recs, entries.take(k), w),
            entries[k],
            w,
        ),
    decreases k,
{
    if k == 0 {
        assert(entries.take(1).drop_first() =~= Seq::<SRec>::empty());
        assert(entries.take(1)[0] == entries[0]);
        assert(entries.take(0) =~= Seq::<SRec>::empty());
        assert(spec_add_all(recs, Seq::<SRec>::empty(), w) == recs);
        assert(spec_add_all(spec_add(recs, entries[0], w), Seq::<SRec>::empty(), w) == spec_add(
            recs,
            entries[0],
            w,
        ));
    } else {
        let rest = entries.drop_first();
        assert(entries.take(k + 1)[0] == entries[0]);
        assert(entries.take(k)[0] == entries[0]);
        assert(entries.take(k + 1).drop_first() =~= rest.take(k));
        assert(entries.take(k).drop_first() =~= rest.take(k - 1));
        assert(rest[k - 1] == entries[k]);
        lemma_spec_add_all_take(spec_add(recs, entries[0], w), rest, w, k - 1);
    }
}


/// Max blobs buffered in memory before flushing a batch to the blob
/// builder.
const BLOB_BATCH: usize = 256;

/// Offering entries never disturbs cid distinctness.
proof fn lemma_spec_add_all_distinct(recs: Seq<Rec>, entries: Seq<SRec>, w: Window)
    requires
        cids_distinct(recs),
    ensures
        cids_distinct(spec_add_all(recs, entries, w)),
    decreases entries.len(),
{
    if entries.len() > 0 {
        let next = spec_add(recs, entries[0], w);
        assert(cids_distinct(next)) by {
            if !has_cid(recs, entries[0].1) {
                assert(forall|i: int, j: int|
                    0 <= i < j < next.len() && j < recs.len() ==> next[i].1 != next[j].1);
                assert(forall|i: int|
                    0 <= i < recs.len() ==> recs[i].1 != entries[0].1) by {
                    assert(!has_cid(recs, entries[0].1));
                }
            }
        }
        lemma_spec_add_all_distinct(next, entries.drop_first(), w);
    }
}

/// Whether a vector holds this value.
fn vec_contains_u64(v: &Vec<u64>, x: u64) -> (r: bool)
    ensures
        r == exists|i: int| 0 <= i < v@.len() && v@[i] == x,
{
    let n = v.len();
    let mut i: usize = 0;
    while i < n
        invariant
            0 <= i <= n,
            n == v@.len(),
            forall|j: int| 0 <= j < i ==> v@[j] != x,
        decreases n - i,
    {
        if v[i] == x {
            return true;
        }
        i = i + 1;
    }
    false
}

/// A mutable, write-optimized arena for one window: parallel columns of
/// cids, relative timestamps and uids, a cid-presence set for dedup, and
/// an on-disk blob builder.
pub struct Hot {
    blobs: BlobStoreBuilder,
    cid_set: HashSet<Cid>,
    cids: Vec<Cid>,
    span: Window,
    timestamps: Vec<u32>,
    uids: Vec<Uid>,
}

impl Hot {
    /// The window this arena ingests.
    pub closed spec fn spec_span(self) -> Window {
        self.span
    }

    /// The entries added so far, in arrival order.
    pub closed spec fn records(self) -> Seq<Rec> {
        Seq::new(
            self.cids@.len(),
            |i: int| (self.uids@[i], self.cids@[i], self.timestamps@[i], self.blobs.rows()[i].1),
        )
    }

    /// Columns are aligned with the blob builder, the dedup set mirrors
    /// the cid column, cids are distinct, and every stored timestamp
    /// fits the window.
    pub closed spec fn wf(self) -> bool {
        &&& self.cids@.len() == self.uids@.len()
        &&& self.cids@.len() == self.timestamps@.len()
        &&& self.cids@.len() == self.blobs.rows().len()
        &&& forall|i: int|
            0 <= i < self.cids@.len() ==> (#[trigger] self.blobs.rows()[i]).0 == self.cids@[i]
        &&& forall|c: u64| #[trigger]
            self.cid_set@.contains(c) <==> exists|i: int|
                0 <= i < self.cids@.len() && #[trigger] self.cids@[i] == c
        &&& forall|i: int, j: int| 0 <= i < j < self.cids@.len() ==> self.cids@[i] != self.cids@[j]
        &&& forall|i: int| 0 <= i < self.timestamps@.len() ==> #[trigger] self.timestamps@[i]
            < self.span.duration
        &&& self.span.bounded()
        &&& rec_bytes(self.records()) <= i32::MAX
    }

    /// Whether an entry with this cid was already added.
    pub open spec fn seen(self, cid: u64) -> bool {
        has_cid(self.records(), cid)
    }

    /// Opens an empty arena for `span`, backed by a fresh blob builder.
    pub fn new(span: Window) -> (r: Result<Self, Error>)
        requires
            span.bounded(),
        ensures
            r is Ok ==> r.unwrap().wf() && r.unwrap().spec_span() == span && r.unwrap().records()
                =~= Seq::<Rec>::empty(),
            r matches Err(e) ==> e == Error::Io,
    {
        let blobs = BlobStoreBuilder::new()?;
        let hot = Hot {
            blobs,
            cid_set: HashSet::new(),
            cids: Vec::new(),
            span,
            timestamps: Vec::new(),
            uids: Vec::new(),
        };
        proof {
            assert(hot.records() =~= Seq::<Rec>::empty());
            assert(rec_bytes(Seq::<Rec>::empty()) == 0);
        }
        Ok(hot)
    }

    /// Adds one entry. A cid already present leaves the arena unchanged
    /// (the first writer wins). On error the arena must be abandoned.
    pub fn add(&mut self, uid: Uid, cid: Cid, ts: Timestamp, blob: &[u8]) -> (r: Result<(), Error>)
        requires
            old(self).wf(),
            old(self).spec_span().spec_contains(ts),
            !old(self).seen(cid) ==> rec_bytes(old(self).records()) + blob@.len() <= i32::MAX,
        ensures
            r is Ok ==> final(self).wf() && final(self).spec_span() == old(self).spec_span()
                && final(self).records() == spec_add(
                old(self).records(),
                (uid, cid, ts, blob@),
                old(self).spec_span(),
            ),
            old(self).seen(cid) ==> r is Ok,
            r matches Err(e) ==> e == Error::Io || e == Error::Schema,
    {
        let ghost pre = *self;
        if self.cid_set.contains(&cid) {
            proof {
                let i = choose|i: int| 0 <= i < pre.cids@.len() && pre.cids@[i] == cid;
                assert(pre.records()[i].1 == cid);
                assert(pre.seen(cid));
            }
            return Ok(());
        }
        let cid_col: Vec<u64> = vec![cid];
        let blob_col: Vec<Vec<u8>> = vec![vec_from_slice(blob)];
        proof {
            assert(crate::blobs::blob_bytes(blob_col@) == blob@.len()) by {
                assert(blob_col@.drop_last() =~= Seq::<Vec<u8>>::empty());
                assert(crate::sorting::sum_by(
                    Seq::<Vec<u8>>::empty(),
                    |b: Vec<u8>| b@.len() as int,
                ) == 0);
            }
            crate::sorting::lemma_sum_by_nonneg(pre.records(), |r: Rec| r.3.len() as int);
            assert(!pre.seen(cid)) by {
                if has_cid(pre.records(), cid) {
                    let i = choose|i: int|
                        0 <= i < pre.records().len() && pre.records()[i].1 == cid;
                    assert(pre.cids@[i] == cid);
                }
            }
        }
        self.blobs.append(&cid_col, &blob_col)?;
        self.cid_set.insert(cid);
        self.cids.push(cid);
        self.timestamps.push(self.span.convert_to_relative(ts));
        self.uids.push(uid);
        proof {
            assert(rows_of(cid_col@, blob_col@) =~= seq![(cid, blob@)]);
            assert(!pre.seen(cid)) by {
                if has_cid(pre.records(), cid) {
                    let i = choose|i: int|
                        0 <= i < pre.records().len() && pre.records()[i].1 == cid;
                    assert(pre.cids@[i] == cid);
                }
            }
            assert(final(self).records() =~= pre.records().push(
                (uid, cid, pre.span.spec_to_relative(ts), blob@),
            ));
            assert(rec_bytes(final(self).records()) == rec_bytes(pre.records()) + blob@.len())
                by {
                assert(final(self).records().drop_last() =~= pre.records());
                assert(final(self).records().last().3 == blob@);
            }
            assert(final(self).wf()) by {
                assert(forall|c: u64| #[trigger]
                    final(self).cid_set@.contains(c) <==> exists|i: int|
                        0 <= i < final(self).cids@.len() && #[trigger] final(self).cids@[i] == c)
                    by {
                    assert(final(self).cid_set@ == pre.cid_set@.insert(cid));
                    assert(forall|c: u64|
                        final(self).cid_set@.contains(c) ==> c == cid || pre.cid_set@.contains(c));
                    assert(final(self).cids@[final(self).cids@.len() - 1] == cid);
                    assert(forall|i: int|
                        0 <= i < pre.cids@.len() ==> final(self).cids@[i] == pre.cids@[i]);
                };
            };
        }
        Ok(())
    }


    /// Adds a batch of entries in order, deduplicated exactly as
    /// repeated `add` calls would be, flushing blobs to the builder in
    /// fixed-size chunks. On error the arena must be abandoned.
    pub fn add_bulk(&mut self, entries: Vec<(Uid, Cid, Timestamp, Vec<u8>)>) -> (r: Result<
        (),
        Error,
    >)
        requires
            old(self).wf(),
            forall|i: int|
                0 <= i < entries@.len() ==> old(self).spec_span().spec_contains(
                    #[trigger] entries@[i].2,
                ),
            rec_bytes(old(self).records()) + srec_bytes(bulk_view(entries@)) <= i32::MAX,
        ensures
            final(self).spec_span() == old(self).spec_span(),
            r is Ok ==> final(self).wf() && final(self).records() == spec_add_all(
                old(self).records(),
                bulk_view(entries@),
                old(self).spec_span(),
            ),
            (forall|i: int|
                0 <= i < bulk_view(entries@).len() ==> has_cid(
                    old(self).records(),
                    (#[trigger] bulk_view(entries@)[i]).1,
                )) ==> r is Ok,
            r matches Err(e) ==> e == Error::Io || e == Error::Schema,
    {
        let ghost orig = *self;
        let ghost es = bulk_view(entries@);
        let ghost w = orig.spec_span();
        let n = entries.len();
        let mut pos: usize = 0;
        proof {
            assert(es.take(0) =~= Seq::<SRec>::empty());
            assert(es.subrange(0, n as int) =~= es);
        }
        while pos < n
            invariant
                0 <= pos <= n,
                n == entries@.len(),
                orig == *old(self),
                es == bulk_view(entries@),
                w == orig.spec_span(),
                orig.wf(),
                cids_distinct(orig.records()),
                forall|i: int| 0 <= i < n ==> w.spec_contains(#[trigger] entries@[i].2),
                self.wf(),
                self.spec_span() == w,
                self.records() == spec_add_all(orig.records(), es.take(pos as int), w),
                rec_bytes(self.records()) + srec_bytes(es.subrange(pos as int, n as int))
                    <= i32::MAX,
            decreases n - pos,
        {
            let end = if n - pos > BLOB_BATCH {
                pos + BLOB_BATCH
            } else {
                n
            };
            let ghost base = *self;
            let mut p_uids: Vec<u32> = Vec::new();
            let mut p_cids: Vec<u64> = Vec::new();
            let mut p_ts: Vec<u32> = Vec::new();
            let mut p_blobs: Vec<Vec<u8>> = Vec::new();
            let mut j = pos;
            proof {
                assert(base.records() + pending_recs(p_uids@, p_cids@, p_ts@, p_blobs@)
                    =~= base.records());
                assert(crate::blobs::blob_bytes(p_blobs@) == 0);
                assert(es.subrange(pos as int, pos as int) =~= Seq::<SRec>::empty());
                assert(srec_bytes(Seq::<SRec>::empty()) == 0);
            }
            while j < end
                invariant
                    pos <= j <= end <= n,
                    n == entries@.len(),
                    orig == *old(self),
                    es == bulk_view(entries@),
                    w == orig.spec_span(),
                    orig.wf(),
                    forall|i: int| 0 <= i < n ==> w.spec_contains(#[trigger] entries@[i].2),
                    *self == base,
                    base.wf(),
                    base.spec_span() == w,
                    p_uids@.len() == p_cids@.len(),
                    p_ts@.len() == p_cids@.len(),
                    p_blobs@.len() == p_cids@.len(),
                    forall|q: int| 0 <= q < p_ts@.len() ==> #[trigger] p_ts@[q] < w.duration,
                    base.records() + pending_recs(p_uids@, p_cids@, p_ts@, p_blobs@)
                        == spec_add_all(orig.records(), es.take(j as int), w),
                    crate::blobs::blob_bytes(p_blobs@) <= srec_bytes(
                        es.subrange(pos as int, j as int),
                    ),
                    (forall|i: int|
                        0 <= i < es.len() ==> has_cid(orig.records(), (#[trigger] es[i]).1))
                        ==> p_cids@.len() == 0,
                decreases end - j,
            {
                let ghost state = base.records() + pending_recs(p_uids@, p_cids@, p_ts@, p_blobs@);
                let e_uid = entries[j].0;
                let e_cid = entries[j].1;
                let e_ts = entries[j].2;
                let mut dup = self.cid_set.contains(&e_cid);
                proof {
                    if dup {
                        let i = choose|i: int|
                            0 <= i < base.cids@.len() && #[trigger] base.cids@[i] == e_cid;
                        assert(state[i].1 == e_cid);
                        assert(has_cid(state, e_cid));
                    }
                }
                if !dup {
                    dup = vec_contains_u64(&p_cids, e_cid);
                    proof {
                        let m = base.records().len() as int;
                        if dup {
                            let q = choose|q: int|
                                0 <= q < p_cids@.len() && #[trigger] p_cids@[q] == e_cid;
                            assert(state[m + q].1 == e_cid);
                            assert(has_cid(state, e_cid));
                        } else {
                            assert(!has_cid(state, e_cid)) by {
                                if has_cid(state, e_cid) {
                                    let i = choose|i: int|
                                        0 <= i < state.len() && state[i].1 == e_cid;
                                    if i < m {
                                        assert(base.cids@[i] == e_cid);
                                        assert(base.cid_set@.contains(e_cid));
                                    } else {
                                        assert(p_cids@[i - m] == e_cid);
                                    }
                                }
                            }
                        }
                    }
                }
                proof {
                    lemma_spec_add_all_take(orig.records(), es, w, j as int);
                    assert(es[j as int] == (e_uid, e_cid, e_ts, entries@[j as int].3@));
                    assert(srec_bytes(es.subrange(pos as int, j as int + 1)) == srec_bytes(
                        es.subrange(pos as int, j as int),
                    ) + es[j as int].3.len()) by {
                        assert(es.subrange(pos as int, j as int + 1).drop_last()
                            =~= es.subrange(pos as int, j as int));
                        assert(es.subrange(pos as int, j as int + 1).last() == es[j as int]);
                    }
                }
                if !dup {
                    proof {
                        if forall|i: int|
                            0 <= i < es.len() ==> has_cid(orig.records(), (#[trigger] es[i]).1) {
                            lemma_spec_add_all_dups(orig.records(), es.take(j as int), w);
                            assert(state == orig.records()) by {
                                assert(base.records() + pending_recs(
                                    p_uids@,
                                    p_cids@,
                                    p_ts@,
                                    p_blobs@,
                                ) =~= base.records());
                            }
                            assert(has_cid(state, e_cid)) by {
                                assert(has_cid(orig.records(), es[j as int].1));
                            }
                            assert(false);
                        }
                    }
                    let ghost pb = p_blobs@;
                    p_uids.push(e_uid);
                    p_cids.push(e_cid);
                    p_ts.push(self.span.convert_to_relative(e_ts));
                    p_blobs.push(copy_blob(&entries, j));
                    proof {
                        assert(base.records() + pending_recs(p_uids@, p_cids@, p_ts@, p_blobs@)
                            =~= state.push(
                            (e_uid, e_cid, w.spec_to_relative(e_ts), entries@[j as int].3@),
                        ));
                        assert(crate::blobs::blob_bytes(p_blobs@) == crate::blobs::blob_bytes(pb)
                            + entries@[j as int].3@.len()) by {
                            assert(p_blobs@.drop_last() =~= pb);
                            assert(p_blobs@.last()@ == entries@[j as int].3@);
                        }
                    }
                } else {
                    proof {
                        assert(spec_add(state, es[j as int], w) == state);
                    }
                }
                j = j + 1;
            }
            let ghost pending = pending_recs(p_uids@, p_cids@, p_ts@, p_blobs@);
            let ghost state_end = spec_add_all(orig.records(), es.take(end as int), w);
            proof {
                lemma_spec_add_all_distinct(orig.records(), es.take(end as int), w);
                assert(cids_distinct(state_end));
            }
            if p_cids.len() > 0 {
                proof {
                    if forall|i: int|
                        0 <= i < es.len() ==> has_cid(orig.records(), (#[trigger] es[i]).1) {
                        assert(false);
                    }
                    assert(crate::blobs::blob_bytes(p_blobs@) <= i32::MAX) by {
                        assert(es.subrange(pos as int, n as int) =~= es.subrange(
                            pos as int,
                            end as int,
                        ) + es.subrange(end as int, n as int));
                        crate::sorting::lemma_sum_by_concat(
                            es.subrange(pos as int, end as int),
                            es.subrange(end as int, n as int),
                            |e: SRec| e.3.len() as int,
                        );
                        crate::sorting::lemma_sum_by_nonneg(
                            es.subrange(end as int, n as int),
                            |e: SRec| e.3.len() as int,
                        );
                        crate::sorting::lemma_sum_by_nonneg(
                            self.records(),
                            |r: Rec| r.3.len() as int,
                        );
                    }
                }
                self.blobs.append(&p_cids, &p_blobs)?;
            }
            let m = p_cids.len();
            let ghost mid = *self;
            let mut q: usize = 0;
            while q < m
                invariant
                    0 <= q <= m,
                    m == p_cids@.len(),
                    p_uids@.len() == m,
                    p_ts@.len() == m,
                    p_blobs@.len() == m,
                    w == orig.spec_span(),
                    forall|t: int| 0 <= t < m ==> #[trigger] p_ts@[t] < w.duration,
                    pending == pending_recs(p_uids@, p_cids@, p_ts@, p_blobs@),
                    orig == *old(self),
                    base.records() + pending == state_end,
                    cids_distinct(state_end),
                    base.wf(),
                    base.spec_span() == w,
                    self.span == base.span,
                    self.cids@ == base.cids@ + p_cids@.take(q as int),
                    self.uids@ == base.uids@ + p_uids@.take(q as int),
                    self.timestamps@ == base.timestamps@ + p_ts@.take(q as int),
                    self.blobs.rows() == base.blobs.rows() + rows_of(p_cids@, p_blobs@),
                    forall|c: u64| #[trigger]
                        self.cid_set@.contains(c) <==> base.cid_set@.contains(c) || exists|t: int|
                            0 <= t < q && #[trigger] p_cids@[t] == c,
                decreases m - q,
            {
                let c = p_cids[q];
                self.cid_set.insert(c);
                self.cids.push(c);
                self.timestamps.push(p_ts[q]);
                self.uids.push(p_uids[q]);
                proof {
                    assert(self.cids@ =~= base.cids@ + p_cids@.take(q as int + 1));
                    assert(self.uids@ =~= base.uids@ + p_uids@.take(q as int + 1));
                    assert(self.timestamps@ =~= base.timestamps@ + p_ts@.take(q as int + 1));
                }
                q = q + 1;
            }
            proof {
                assert(p_cids@.take(m as int) =~= p_cids@);
                assert(p_uids@.take(m as int) =~= p_uids@);
                assert(p_ts@.take(m as int) =~= p_ts@);
                assert(self.records() =~= base.records() + pending);
                assert(rec_bytes(self.records()) == rec_bytes(base.records())
                    + crate::blobs::blob_bytes(p_blobs@)) by {
                    crate::sorting::lemma_sum_by_concat(
                        base.records(),
                        pending,
                        |r: Rec| r.3.len() as int,
                    );
                    crate::sorting::lemma_sum_by_pointwise(
                        pending,
                        p_blobs@,
                        |r: Rec| r.3.len() as int,
                        |b: Vec<u8>| b@.len() as int,
                    );
                }
                assert(rec_bytes(self.records()) + srec_bytes(es.subrange(end as int, n as int))
                    <= i32::MAX) by {
                    assert(es.subrange(pos as int, n as int) =~= es.subrange(
                        pos as int,
                        end as int,
                    ) + es.subrange(end as int, n as int));
                    crate::sorting::lemma_sum_by_concat(
                        es.subrange(pos as int, end as int),
                        es.subrange(end as int, n as int),
                        |e: SRec| e.3.len() as int,
                    );
                }
                assert(srec_bytes(es.subrange(end as int, n as int)) >= 0) by {
                    crate::sorting::lemma_sum_by_nonneg(
                        es.subrange(end as int, n as int),
                        |e: SRec| e.3.len() as int,
                    );
                }
                let k = base.cids@.len() as int;
                assert(self.blobs.rows().len() == self.cids@.len());
                assert(forall|i: int|
                    0 <= i < self.cids@.len() ==> (#[trigger] self.blobs.rows()[i]).0
                        == self.cids@[i]) by {
                    assert(forall|i: int|
                        0 <= i < k ==> (#[trigger] self.blobs.rows()[i]).0 == base.blobs.rows()[i].0);
                    assert(forall|i: int|
                        k <= i < self.cids@.len() ==> (#[trigger] self.blobs.rows()[i]).0
                            == rows_of(p_cids@, p_blobs@)[i - k].0);
                }
                assert(forall|i: int|
                    0 <= i < self.cids@.len() ==> self.cids@[i] == state_end[i].1);
                assert(forall|i: int, j2: int|
                    0 <= i < j2 < self.cids@.len() ==> self.cids@[i] != self.cids@[j2]) by {
                    assert(forall|i: int, j2: int|
                        0 <= i < j2 < state_end.len() ==> state_end[i].1 != state_end[j2].1);
                }
                assert(forall|c: u64| #[trigger]
                    self.cid_set@.contains(c) <==> exists|i: int|
                        0 <= i < self.cids@.len() && #[trigger] self.cids@[i] == c) by {
                    assert forall|c: u64| #[trigger] self.cid_set@.contains(c) implies exists|
                        i: int,
                    |
                        0 <= i < self.cids@.len() && #[trigger] self.cids@[i] == c by {
                        if base.cid_set@.contains(c) {
                            let i = choose|i: int|
                                0 <= i < base.cids@.len() && #[trigger] base.cids@[i] == c;
                            assert(self.cids@[i] == c);
                        } else {
                            let t = choose|t: int|
                                0 <= t < m && #[trigger] p_cids@[t] == c;
                            assert(self.cids@[k + t] == c);
                        }
                    }
                    assert forall|c: u64|
                        exists|i: int|
                            0 <= i < self.cids@.len() && #[trigger] self.cids@[i]
                                == c implies #[trigger] self.cid_set@.contains(c) by {
                        let i = choose|i: int|
                            0 <= i < self.cids@.len() && #[trigger] self.cids@[i] == c;
                        if i < k {
                            assert(base.cids@[i] == c);
                        } else {
                            assert(p_cids@[i - k] == c);
                        }
                    }
                }
                assert(forall|i: int|
                    0 <= i < self.timestamps@.len() ==> #[trigger] self.timestamps@[i]
                        < self.span.duration);
                assert(self.wf());
            }
            pos = end;
        }
        proof {
            assert(es.take(n as int) =~= es);
        }
        Ok(())
    }

    /// The number of entries added so far.
    pub fn len(&self) -> (r: usize)
        ensures
            r == self.records().len(),
    {
        self.cids.len()
    }

    /// Whether no entry was added yet.
    pub fn is_empty(&self) -> (r: bool)
        ensures
            r == (self.records().len() == 0),
    {
        self.cids.is_empty()
    }
}


/// The pending entries of one bulk chunk, as records.
pub open spec fn pending_recs(
    uids: Seq<u32>,
    cids: Seq<u64>,
    timestamps: Seq<u32>,
    blobs: Seq<Vec<u8>>,
) -> Seq<Rec> {
    Seq::new(cids.len(), |q: int| (uids[q], cids[q], timestamps[q], blobs[q]@))
}

/// Copies the blob bytes of one bulk entry.
fn copy_blob(entries: &Vec<(Uid, Cid, Timestamp, Vec<u8>)>, j: usize) -> (r: Vec<u8>)
    requires
        j < entries@.len(),
    ensures
        r@ == entries@[j as int].3@,
{
    let mut out: Vec<u8> = Vec::new();
    let blob = &entries[j].3;
    let n = blob.len();
    let mut i: usize = 0;
    while i < n
        invariant
            0 <= i <= n,
            n == blob@.len(),
            blob@ == entries@[j as int].3@,
            out@ == blob@.take(i as int),
        decreases n - i,
    {
        out.push(blob[i]);
        proof {
            assert(out@ =~= blob@.take(i as int + 1));
        }
        i = i + 1;
    }
    proof {
        assert(out@ =~= blob@);
    }
    out
}

impl Hot {
    /// Freezes this arena: sorts its entries by `(timestamp, cid)`,
    /// gathers the blob column through the same permutation into one
    /// contiguous file, and wraps the result for shared read-only use.
    /// Freezing consumes the arena.
    pub fn freeze(self) -> (r: Result<Arc<Cold>, Error>)
        requires
            self.wf(),
        ensures
            r is Ok ==> {
                &&& r.unwrap().wf()
                &&& r.unwrap().spec_span() == self.spec_span()
                &&& r.unwrap().rows().to_multiset() == self.records().to_multiset()
            },
            r matches Err(e) ==> e == Error::Io || e == Error::Schema,
    {
        let ghost recs = self.records();
        let Hot { blobs, cid_set: _, cids, span, timestamps, uids } = self;
        let n = cids.len();
        let mut triples: Vec<(u32, u64, usize)> = Vec::new();
        let mut i: usize = 0;
        while i < n
            invariant
                0 <= i <= n,
                n == cids@.len(),
                n == timestamps@.len(),
                triples@.len() == i,
                forall|k: int|
                    0 <= k < i ==> #[trigger] triples@[k] == (timestamps@[k], cids@[k], k as usize),
            decreases n - i,
        {
            triples.push((timestamps[i], cids[i], i));
            i = i + 1;
        }
        let ghost init = triples@;
        sort_triples(&mut triples);
        proof {
            to_multiset_len(triples@);
            to_multiset_len(init);
            assert(triples@.len() == n);
            assert forall|t: int| 0 <= t < triples@.len() implies (#[trigger] triples@[t]).2 < n
                && triples@[t].0 == timestamps@[triples@[t].2 as int] && triples@[t].1
                == cids@[triples@[t].2 as int] by {
                assert(triples@.to_multiset().count(triples@[t]) > 0) by {
                    broadcast use vstd::seq_lib::group_to_multiset_ensures;

                    assert(triples@.contains(triples@[t]));
                }
                assert(init.contains(triples@[t])) by {
                    broadcast use vstd::seq_lib::group_to_multiset_ensures;

                }
                let q = choose|q: int| 0 <= q < init.len() && init[q] == triples@[t];
            }
        }
        let mut perm: Vec<usize> = Vec::new();
        let mut sorted_ts: Vec<u32> = Vec::new();
        let mut sorted_uids: Vec<Uid> = Vec::new();
        let mut k: usize = 0;
        while k < n
            invariant
                0 <= k <= n,
                triples@.len() == n,
                n == cids@.len(),
                n == timestamps@.len(),
                n == uids@.len(),
                forall|t: int|
                    0 <= t < n ==> (#[trigger] triples@[t]).2 < n && triples@[t].0
                        == timestamps@[triples@[t].2 as int] && triples@[t].1
                        == cids@[triples@[t].2 as int],
                perm@.len() == k,
                sorted_ts@.len() == k,
                sorted_uids@.len() == k,
                forall|t: int| 0 <= t < k ==> #[trigger] perm@[t] == triples@[t].2,
                forall|t: int| 0 <= t < k ==> #[trigger] sorted_ts@[t] == triples@[t].0,
                forall|t: int|
                    0 <= t < k ==> #[trigger] sorted_uids@[t] == uids@[triples@[t].2 as int],
            decreases n - k,
        {
            let t = triples[k];
            perm.push(t.2);
            sorted_ts.push(t.0);
            sorted_uids.push(uids[t.2]);
            k = k + 1;
        }
        proof {
            assert(forall|q: int| 0 <= q < perm@.len() ==> #[trigger] perm@[q] < blobs.rows().len());
            let proj = |t: (u32, u64, usize)| t.2;
            assert(perm@ =~= triples@.map_values(proj));
            assert(init.map_values(proj) =~= Seq::new(n as nat, |q: int| q as usize));
            crate::sorting::lemma_map_values_multiset_eq(triples@, init, proj);
            assert(perm@.to_multiset() == Seq::new(n as nat, |q: int| q as usize).to_multiset());
            assert(blobs.rows().len() == n);
            crate::sorting::lemma_gather_permutation(perm@, blobs.rows());
            let gathered = Seq::new(perm@.len(), |k: int| blobs.rows()[perm@[k] as int]);
            crate::sorting::lemma_sum_by_multiset(
                gathered,
                blobs.rows(),
                |r: crate::blobs::BlobRow| r.1.len() as int,
            );
            assert(crate::blobs::row_bytes(blobs.rows()) == rec_bytes(recs)) by {
                crate::sorting::lemma_sum_by_pointwise(
                    blobs.rows(),
                    recs,
                    |r: crate::blobs::BlobRow| r.1.len() as int,
                    |r: Rec| r.3.len() as int,
                );
            }
            assert(crate::blobs::row_bytes(gathered) <= i32::MAX);
        }
        let store = blobs.build_and_sort(&perm)?;
        let cold = Cold { blobs: store, span, timestamps: sorted_ts, uids: sorted_uids };
        proof {
            let rows = cold.rows();
            let proj = |t: (u32, u64, usize)| t.2;
            assert(perm@ =~= triples@.map_values(proj));
            crate::sorting::lemma_identity_multiset_distinct(perm@, n as nat);
            assert(recs.len() == n);
            crate::sorting::lemma_gather_permutation(perm@, recs);
            assert forall|q: int| 0 <= q < n implies #[trigger] rows[q] == recs[perm@[q] as int] by {
                let p = perm@[q] as int;
                assert(cold.blobs.rows()[q] == blobs.rows()[p]);
                assert(blobs.rows()[p].0 == cids@[p]);
                assert(rows[q].0 == sorted_uids@[q]);
                assert(rows[q].2 == sorted_ts@[q]);
                assert(recs[p] == (uids@[p], cids@[p], timestamps@[p], blobs.rows()[p].1));
            }
            assert(rows =~= Seq::new(perm@.len(), |q: int| recs[perm@[q] as int]));
            assert(rows.to_multiset() == recs.to_multiset());
            assert(rec_bytes(rows) == rec_bytes(recs)) by {
                crate::sorting::lemma_sum_by_multiset(rows, recs, |r: Rec| r.3.len() as int);
            }
            assert forall|q1: int, q2: int| 0 <= q1 < q2 < n implies rec_lt(
                #[trigger] rows[q1],
                #[trigger] rows[q2],
            ) by {
                assert(crate::sorting::triple_le(triples@[q1], triples@[q2]));
                let p1 = perm@[q1] as int;
                let p2 = perm@[q2] as int;
                assert(p1 != p2);
                if rows[q1].2 == rows[q2].2 && rows[q1].1 == rows[q2].1 {
                    assert(cids@[p1] == cids@[p2]);
                    assert(false);
                }
            }
            assert forall|q1: int, q2: int| 0 <= q1 < q2 < n implies rows[q1].1 != rows[q2].1 by {
                let p1 = perm@[q1] as int;
                let p2 = perm@[q2] as int;
                assert(p1 != p2);
                assert(rows[q1].1 == cids@[p1]);
                assert(rows[q2].1 == cids@[p2]);
            }
            assert(forall|q: int|
                0 <= q < n ==> #[trigger] cold.timestamps@[q] < cold.span.duration);
            assert(cold.wf());
        }
        Ok(Arc::new(cold))
    }
}

/// An immutable, sorted arena for one window: a sorted relative
/// timestamp column, a uid column, and an on-disk blob column.
pub struct Cold {
    blobs: BlobStore,
    pub span: Window,
    timestamps: Vec<u32>,
    uids: Vec<Uid>,
}

impl Cold {
    /// The window this arena covers.
    pub closed spec fn spec_span(self) -> Window {
        self.span
    }

    /// The stored entries, in `(timestamp, cid)` order.
    pub closed spec fn rows(self) -> Seq<Rec> {
        Seq::new(
            self.uids@.len(),
            |i: int| (self.uids@[i], self.blobs.rows()[i].0, self.timestamps@[i],
            self.blobs.rows()[i].1),
        )
    }

    /// Columns are aligned with the blob store, rows are in strictly
    /// ascending `(timestamp, cid)` order with pairwise distinct cids,
    /// and every stored timestamp fits the window.
    pub closed spec fn wf(self) -> bool {
        &&& self.uids@.len() == self.timestamps@.len()
        &&& self.uids@.len() == self.blobs.rows().len()
        &&& self.blobs.wf()
        &&& self.span.bounded()
        &&& forall|i: int| 0 <= i < self.timestamps@.len() ==> #[trigger] self.timestamps@[i]
            < self.span.duration
        &&& strictly_sorted(self.rows())
        &&& cids_distinct(self.rows())
        &&& rec_bytes(self.rows()) <= i32::MAX
    }

    /// The window this arena covers, as a value.
    pub fn span(&self) -> (r: Window)
        ensures
            r == self.spec_span(),
    {
        self.span
    }

    /// The number of stored entries.
    pub fn len(&self) -> (r: usize)
        ensures
            r == self.rows().len(),
    {
        self.uids.len()
    }

    /// Whether the arena holds no entries.
    pub fn is_empty(&self) -> (r: bool)
        ensures
            r == (self.rows().len() == 0),
    {
        self.uids.is_empty()
    }

    /// The index of the first entry whose absolute timestamp is at
    /// least `start`; entries from it to the end are exactly those an
    /// iterator started at `start` yields.
    pub(crate) fn skip_to(&self, start: Timestamp) -> (r: usize)
        requires
            self.wf(),
        ensures
            r <= self.rows().len(),
            self.rows().subrange(r as int, self.rows().len() as int) == visible(*self, start),
            forall|i: int|
                0 <= i < r ==> self.spec_span().epoch + (#[trigger] self.rows()[i]).2 < start,
            forall|i: int|
                r <= i < self.rows().len() ==> self.spec_span().epoch + (#[trigger] self.rows()[i]).2
                    >= start,
    {
        let len = self.uids.len();
        proof {
            assert(forall|i: int|
                0 <= i < self.rows().len() ==> (#[trigger] self.rows()[i]).2
                    == self.timestamps@[i]);
            assert forall|i: int, j: int|
                0 <= i < j < self.timestamps@.len() implies #[trigger] self.timestamps@[i]
                <= #[trigger] self.timestamps@[j] by {
                assert(rec_lt(self.rows()[i], self.rows()[j]));
                assert(self.rows()[i].2 == self.timestamps@[i]);
                assert(self.rows()[j].2 == self.timestamps@[j]);
            }
        }
        let skip: usize = if start <= self.span.epoch {
            0
        } else {
            let rel64 = start - self.span.epoch;
            if rel64 >= self.span.duration as u64 {
                len
            } else {
                lower_bound(&self.timestamps, rel64 as u32)
            }
        };
        proof {
            assert(forall|i: int|
                0 <= i < self.rows().len() ==> (#[trigger] self.rows()[i]).2
                    == self.timestamps@[i]);
            lemma_visible_split(self.rows(), self.span.epoch, start, skip as int);
        }
        skip
    }

    /// An iterator over the entries whose absolute timestamp is at
    /// least `start`, ascending or descending.
    pub fn iter(&self, order: Order, start: Timestamp) -> (r: ColdIter<'_>)
        requires
            self.wf(),
        ensures
            r.wf(),
            r.arena() == *self,
            r.remaining_recs() == match order {
                Order::Asc => visible(*self, start),
                Order::Desc => visible(*self, start).reverse(),
            },
    {
        let skip = self.skip_to(start);
        let len = self.uids.len();
        let range = order.range(skip..len);
        let it = ColdIter { cold: self, range };
        proof {
            let vis = visible(*self, start);
            assert(vis.len() == len - skip);
            match order {
                Order::Asc => {
                    assert(it.remaining_recs() =~= vis) by {
                        assert(forall|k: int|
                            0 <= k < vis.len() ==> #[trigger] it.range.remaining()[k] == skip + k);
                        assert(forall|k: int|
                            0 <= k < vis.len() ==> #[trigger] vis[k] == self.rows().subrange(
                                skip as int,
                                len as int,
                            )[k]);
                    }
                },
                Order::Desc => {
                    assert(it.remaining_recs() =~= vis.reverse()) by {
                        assert(forall|k: int|
                            0 <= k < vis.len() ==> #[trigger] it.range.remaining()[k] == len - 1
                                - k);
                        assert(forall|k: int|
                            0 <= k < vis.len() ==> #[trigger] vis.reverse()[k] == vis[vis.len() - 1
                                - k]);
                        assert(forall|k: int|
                            0 <= k < vis.len() ==> #[trigger] vis[k] == self.rows().subrange(
                                skip as int,
                                len as int,
                            )[k]);
                    }
                },
            }
        }
        it
    }
}

/// Which entries an iterator started at `start` yields: those whose
/// absolute timestamp is at least `start`, in storage order.
pub open spec fn visible(c: Cold, start: Timestamp) -> Seq<Rec> {
    visible_from(c.rows(), c.spec_span().epoch, start)
}

/// The entries of `rows` whose absolute timestamp (`epoch` plus their
/// relative offset) is at least `start`, in order.
pub open spec fn visible_from(rows: Seq<Rec>, epoch: u64, start: u64) -> Seq<Rec>
    decreases rows.len(),
{
    if rows.len() == 0 {
        Seq::empty()
    } else {
        let rest = visible_from(rows.drop_last(), epoch, start);
        if epoch + rows.last().2 >= start {
            rest.push(rows.last())
        } else {
            rest
        }
    }
}

/// When every entry before `skip` is too early and every entry from
/// `skip` on is visible, the visible entries are exactly the suffix
/// from `skip`.
proof fn lemma_visible_split(rows: Seq<Rec>, epoch: u64, start: u64, skip: int)
    requires
        0 <= skip <= rows.len(),
        forall|i: int| 0 <= i < skip ==> epoch + (#[trigger] rows[i]).2 < start,
        forall|i: int| skip <= i < rows.len() ==> epoch + (#[trigger] rows[i]).2 >= start,
    ensures
        visible_from(rows, epoch, start) == rows.subrange(skip, rows.len() as int),
    decreases rows.len(),
{
    if rows.len() == 0 {
        assert(visible_from(rows, epoch, start) =~= rows.subrange(skip, rows.len() as int));
    } else {
        let last = rows.len() - 1;
        let front = rows.drop_last();
        if skip <= last {
            lemma_visible_split(front, epoch, start, skip);
            assert(visible_from(rows, epoch, start) == front.subrange(skip, last).push(
                rows.last(),
            ));
            assert(front.subrange(skip, last).push(rows.last()) =~= rows.subrange(
                skip,
                rows.len() as int,
            ));
        } else {
            lemma_visible_split(front, epoch, start, last);
            assert(visible_from(rows, epoch, start) == front.subrange(last, last));
            assert(front.subrange(last, last) =~= rows.subrange(skip, rows.len() as int));
        }
    }
}

/// The first index of a sorted column whose value is at least `x`,
/// found by binary search.
fn lower_bound(v: &Vec<u32>, x: u32) -> (r: usize)
    requires
        forall|i: int, j: int| 0 <= i < j < v@.len() ==> #[trigger] v@[i] <= #[trigger] v@[j],
    ensures
        r <= v@.len(),
        forall|i: int| 0 <= i < r ==> #[trigger] v@[i] < x,
        forall|i: int| r <= i < v@.len() ==> #[trigger] v@[i] >= x,
{
    let mut lo: usize = 0;
    let mut hi: usize = v.len();
    while lo < hi
        invariant
            0 <= lo <= hi <= v@.len(),
            forall|i: int| 0 <= i < lo ==> #[trigger] v@[i] < x,
            forall|i: int| hi <= i < v@.len() ==> #[trigger] v@[i] >= x,
            forall|i: int, j: int| 0 <= i < j < v@.len() ==> #[trigger] v@[i] <= #[trigger] v@[j],
        decreases hi - lo,
    {
        let mid = lo + (hi - lo) / 2;
        if v[mid] < x {
            lo = mid + 1;
        } else {
            hi = mid;
        }
    }
    lo
}

/// One yielded entry: a borrow of its arena, its row index, and its
/// author uid.
pub struct Entry<'a> {
    cold: &'a Cold,
    idx: usize,
    pub uid: Uid,
}

impl<'a> Entry<'a> {
    /// The arena this entry belongs to.
    pub closed spec fn arena(self) -> Cold {
        *self.cold
    }

    /// The record this entry denotes.
    pub closed spec fn rec(self) -> Rec {
        self.arena().rows()[self.idx as int]
    }

    /// The index is in range, the arena is well-formed, and the public
    /// uid field matches the record.
    pub closed spec fn wf(self) -> bool {
        &&& self.arena().wf()
        &&& self.idx < self.arena().rows().len()
        &&& self.uid == self.rec().0
    }

    /// Wraps row `idx` of `cold`.
    pub(crate) fn new(cold: &'a Cold, idx: usize) -> (r: Entry<'a>)
        requires
            cold.wf(),
            idx < cold.rows().len(),
        ensures
            r.wf(),
            r.arena() == *cold,
            r.rec() == cold.rows()[idx as int],
    {
        proof {
            assert(cold.rows()[idx as int].0 == cold.uids@[idx as int]);
        }
        Entry { cold, idx, uid: cold.uids[idx] }
    }

    /// The entry's absolute timestamp.
    pub fn timestamp(&self) -> (r: Timestamp)
        requires
            self.wf(),
        ensures
            r == self.arena().spec_span().epoch + self.rec().2,
    {
        proof {
            assert(self.rec().2 == self.cold.timestamps@[self.idx as int]);
        }
        self.cold.span.convert_to_absolute(self.cold.timestamps[self.idx])
    }

    /// The entry's cid and a borrow of its blob bytes.
    pub fn resolve(&self) -> (r: (Cid, &[u8]))
        requires
            self.wf(),
        ensures
            r.0 == self.rec().1,
            r.1@ == self.rec().3,
    {
        self.cold.blobs.resolve(self.idx)
    }
}

/// An iterator over one cold arena's entries from a start timestamp,
/// in a fixed direction.
pub struct ColdIter<'a> {
    cold: &'a Cold,
    range: OrderedRange,
}

impl<'a> ColdIter<'a> {
    /// The arena walked.
    pub closed spec fn arena(self) -> Cold {
        *self.cold
    }

    /// The records not yet yielded, in yield order.
    pub closed spec fn remaining_recs(self) -> Seq<Rec> {
        Seq::new(
            self.range.remaining().len(),
            |k: int| self.arena().rows()[self.range.remaining()[k] as int],
        )
    }

    /// The arena is well-formed and all pending indices are in range.
    pub closed spec fn wf(self) -> bool {
        &&& self.arena().wf()
        &&& forall|k: int|
            0 <= k < self.range.remaining().len() ==> #[trigger] self.range.remaining()[k]
                < self.arena().rows().len()
    }

    /// Yields the next entry, or `None` once exhausted.
    pub fn next(&mut self) -> (r: Option<Entry<'a>>)
        requires
            old(self).wf(),
        ensures
            final(self).wf(),
            final(self).arena() == old(self).arena(),
            match r {
                Some(e) => {
                    &&& old(self).remaining_recs().len() > 0
                    &&& e.wf()
                    &&& e.arena() == old(self).arena()
                    &&& e.rec() == old(self).remaining_recs()[0]
                    &&& final(self).remaining_recs() == old(self).remaining_recs().drop_first()
                },
                None => {
                    &&& old(self).remaining_recs().len() == 0
                    &&& final(self).remaining_recs() == old(self).remaining_recs()
                },
            },
    {
        let ghost pre = *self;
        match self.range.next() {
            Some(idx) => {
                proof {
                    assert(pre.range.remaining()[0] == idx);
                    assert(final(self).remaining_recs() =~= pre.remaining_recs().drop_first())
                        by {
                        assert(forall|k: int|
                            0 <= k < self.range.remaining().len()
                                ==> #[trigger] self.range.remaining()[k]
                                == pre.range.remaining().drop_first()[k]);
                    }
                }
                Some(Entry::new(self.cold, idx))
            },
            None => None,
        }
    }
}


/// An export-format row built from a stored record: the relative
/// timestamp becomes absolute.
pub open spec fn export_rec(r: Rec, span: Window) -> ExportRow {
    (r.0, r.1, (span.epoch + r.2) as u64, r.3)
}

/// The rows an export of this arena writes, in storage order.
pub open spec fn export_view(c: Cold) -> Seq<ExportRow> {
    Seq::new(c.rows().len(), |i: int| export_rec(c.rows()[i], c.spec_span()))
}

/// A stored record built from an export-format row: the absolute
/// timestamp becomes relative to the window.
pub open spec fn import_rec(r: ExportRow, span: Window) -> Rec {
    (r.0, r.1, ((r.2 - span.epoch) as u64) as u32, r.3)
}

/// The records an import of these rows stores, in file order.
pub open spec fn import_view(rows: Seq<ExportRow>, span: Window) -> Seq<Rec> {
    Seq::new(rows.len(), |i: int| import_rec(rows[i], span))
}

/// The number a metadata value parses to, when present and well-formed.
pub open spec fn meta_u64(m: Option<Seq<u8>>) -> Option<u64> {
    match m {
        Some(b) => spec_parse_u64(b),
        None => None,
    }
}

/// The window two metadata values decode to: both must parse, the
/// duration must fit in 32 bits, and the end must fit in a `u64`.
pub open spec fn decoded_span(em: Option<Seq<u8>>, dm: Option<Seq<u8>>) -> Option<Window> {
    match (meta_u64(em), meta_u64(dm)) {
        (Some(e), Some(d)) => if d <= u32::MAX && e + d <= u64::MAX {
            Some(Window { epoch: e, duration: d as u32 })
        } else {
            None
        },
        _ => None,
    }
}

/// Whether export-format rows can form a well-formed cold arena for
/// `span`: every timestamp inside the window, rows in strictly
/// ascending `(timestamp, cid)` order, and no cid repeated.
pub open spec fn import_valid(rows: Seq<ExportRow>, span: Window) -> bool {
    &&& forall|i: int| 0 <= i < rows.len() ==> span.spec_contains((#[trigger] rows[i]).2)
    &&& forall|i: int, j: int|
        0 <= i < j < rows.len() ==> (#[trigger] rows[i]).2 < (#[trigger] rows[j]).2 || (rows[i].2
            == rows[j].2 && rows[i].1 < rows[j].1)
    &&& forall|i: int, j: int| 0 <= i < j < rows.len() ==> (#[trigger] rows[i]).1
        != (#[trigger] rows[j]).1
    &&& crate::codec::export_bytes(rows) <= i32::MAX
}

impl Cold {
    /// Encodes the arena as a columnar file: uid, cid, absolute
    /// timestamp and blob columns in storage order, written in
    /// fixed-size batches. The bytes decode back to exactly the arena's
    /// rows, with the window under the two metadata keys as decimal
    /// strings.
    pub fn export(&self) -> (r: Result<Vec<u8>, Error>)
        requires
            self.wf(),
        ensures
            r matches Ok(bytes) ==> ({
                &&& pq_file_rows(bytes@) == Some(export_view(*self))
                &&& pq_file_meta(bytes@, "crimeline.epoch"@) == Some(
                    dec_bytes(self.spec_span().epoch as nat),
                )
                &&& pq_file_meta(bytes@, "crimeline.duration"@) == Some(
                    dec_bytes(self.spec_span().duration as nat),
                )
            }),
            r matches Err(e) ==> e == Error::Io || e == Error::Schema,
    {
        let epoch_value = to_decimal(self.span.epoch);
        let duration_value = to_decimal(self.span.duration as u64);
        let schema = export_schema();
        proof {
            reveal_strlit("crimeline.epoch");
            reveal_strlit("crimeline.duration");
            reveal_strlit("ARROW:schema");
            assert("crimeline.epoch"@.len() == 15);
            assert("crimeline.duration"@.len() == 18);
            assert("ARROW:schema"@.len() == 12);
            crate::codec::lemma_dec_bytes_ascii(self.spec_span().epoch as nat);
            crate::codec::lemma_dec_bytes_ascii(self.spec_span().duration as nat);
            assert forall|i: int| 0 <= i < epoch_value@.len() implies epoch_value@[i] < 128 by {
                assert(epoch_value@[i] == dec_bytes(self.spec_span().epoch as nat)[i]);
            }
            assert forall|i: int|
                0 <= i < duration_value@.len() implies duration_value@[i] < 128 by {
                assert(duration_value@[i] == dec_bytes(self.spec_span().duration as nat)[i]);
            }
        }
        let mut sink = sink_new(
            &schema,
            "crimeline.epoch",
            &epoch_value,
            "crimeline.duration",
            &duration_value,
        )?;
        let n = self.uids.len();
        let mut pos: usize = 0;
        proof {
            assert(export_view(*self).take(0) =~= Seq::<ExportRow>::empty());
        }
        while pos < n
            invariant
                0 <= pos <= n,
                n == self.rows().len(),
                self.wf(),
                sink_rows(sink) == export_view(*self).take(pos as int),
                sink_meta(sink, "crimeline.epoch"@) == Some(
                    dec_bytes(self.spec_span().epoch as nat),
                ),
                sink_meta(sink, "crimeline.duration"@) == Some(
                    dec_bytes(self.spec_span().duration as nat),
                ),
            decreases n - pos,
        {
            let end = if n - pos > BLOB_BATCH {
                pos + BLOB_BATCH
            } else {
                n
            };
            let mut b_uids: Vec<u32> = Vec::new();
            let mut b_cids: Vec<u64> = Vec::new();
            let mut b_tss: Vec<u64> = Vec::new();
            let mut b_blobs: Vec<Vec<u8>> = Vec::new();
            let mut j = pos;
            proof {
                assert(self.rows().subrange(pos as int, pos as int) =~= Seq::<Rec>::empty());
                assert(rec_bytes(Seq::<Rec>::empty()) == 0);
                assert(crate::blobs::blob_bytes(Seq::<Vec<u8>>::empty()) == 0);
            }
            while j < end
                invariant
                    pos <= j <= end <= n,
                    n == self.rows().len(),
                    self.wf(),
                    b_uids@.len() == j - pos,
                    b_cids@.len() == j - pos,
                    b_tss@.len() == j - pos,
                    b_blobs@.len() == j - pos,
                    forall|t: int|
                        0 <= t < j - pos ==> export_rows_of(b_uids@, b_cids@, b_tss@, b_blobs@)[t]
                            == export_view(*self)[pos + t],
                    crate::blobs::blob_bytes(b_blobs@) == rec_bytes(
                        self.rows().subrange(pos as int, j as int),
                    ),
                decreases end - j,
            {
                proof {
                    assert(self.rows()[j as int].0 == self.uids@[j as int]);
                    assert(self.rows()[j as int].2 == self.timestamps@[j as int]);
                }
                let ghost ou = b_uids@;
                let ghost oc = b_cids@;
                let ghost ot = b_tss@;
                let ghost ob = b_blobs@;
                b_uids.push(self.uids[j]);
                let (cid, blob) = self.blobs.resolve(j);
                b_cids.push(cid);
                b_tss.push(self.span.convert_to_absolute(self.timestamps[j]));
                b_blobs.push(vec_from_slice(blob));
                proof {
                    assert(self.rows()[j as int].1 == self.blobs.rows()[j as int].0);
                    assert(self.rows()[j as int].3 == self.blobs.rows()[j as int].1);
                    assert(export_rows_of(b_uids@, b_cids@, b_tss@, b_blobs@)[j - pos]
                        == export_view(*self)[j as int]);
                    assert(crate::blobs::blob_bytes(b_blobs@) == crate::blobs::blob_bytes(ob)
                        + self.rows()[j as int].3.len()) by {
                        assert(b_blobs@.drop_last() =~= ob);
                        assert(b_blobs@.last()@ == self.rows()[j as int].3);
                    }
                    assert(rec_bytes(self.rows().subrange(pos as int, j as int + 1)) == rec_bytes(
                        self.rows().subrange(pos as int, j as int),
                    ) + self.rows()[j as int].3.len()) by {
                        assert(self.rows().subrange(pos as int, j as int + 1).drop_last()
                            =~= self.rows().subrange(pos as int, j as int));
                        assert(self.rows().subrange(pos as int, j as int + 1).last()
                            == self.rows()[j as int]);
                    }
                    assert forall|t: int| 0 <= t < j - pos implies export_rows_of(
                        b_uids@,
                        b_cids@,
                        b_tss@,
                        b_blobs@,
                    )[t] == export_view(*self)[pos + t] by {
                        assert(export_rows_of(ou, oc, ot, ob)[t] == export_view(*self)[pos + t]);
                        assert(b_uids@[t] == ou[t]);
                        assert(b_cids@[t] == oc[t]);
                        assert(b_tss@[t] == ot[t]);
                        assert(b_blobs@[t] == ob[t]);
                    }
                }
                j = j + 1;
            }
            proof {
                crate::sorting::lemma_sum_by_subrange(
                    self.rows(),
                    |r: Rec| r.3.len() as int,
                    pos as int,
                    end as int,
                );
            }
            sink_write(&mut sink, &schema, &b_uids, &b_cids, &b_tss, &b_blobs)?;
            proof {
                assert(export_rows_of(b_uids@, b_cids@, b_tss@, b_blobs@) =~= export_view(
                    *self,
                ).subrange(pos as int, end as int));
                assert(sink_rows(sink) =~= export_view(*self).take(end as int));
            }
            pos = end;
        }
        proof {
            assert(export_view(*self).take(n as int) =~= export_view(*self));
        }
        sink_close(sink)
    }

    /// Builds a cold arena from four parallel columns of export-format
    /// values, validating that they can form one: every timestamp must
    /// lie inside `span`, rows must be strictly ascending by
    /// `(timestamp, cid)`, and no cid may repeat. Succeeds exactly on
    /// valid columns, short of an I/O or encoding failure while writing
    /// the blob column.
    pub fn from_columns(
        span: Window,
        uids: Vec<u32>,
        cids: Vec<u64>,
        timestamps: Vec<u64>,
        blobs: Vec<Vec<u8>>,
    ) -> (r: Result<Arc<Cold>, Error>)
        requires
            span.bounded(),
            uids@.len() == cids@.len(),
            uids@.len() == timestamps@.len(),
            uids@.len() == blobs@.len(),
        ensures
            ({
                let erows = export_rows_of(uids@, cids@, timestamps@, blobs@);
                &&& r is Ok ==> import_valid(erows, span) && r.unwrap().wf()
                    && r.unwrap().spec_span() == span && r.unwrap().rows() == import_view(
                    erows,
                    span,
                )
                &&& !import_valid(erows, span) ==> (r matches Err(e) && (e == Error::Unsorted || e
                    == Error::OutOfWindow || e == Error::Oversized))
                &&& import_valid(erows, span) ==> (r matches Err(e) ==> e == Error::Io || e
                    == Error::Schema)
            }),
    {
        let ghost erows = export_rows_of(uids@, cids@, timestamps@, blobs@);
        let n = uids.len();
        let mut rels: Vec<u32> = Vec::new();
        let mut cid_set: HashSet<u64> = HashSet::new();
        let mut total_bytes: u128 = 0;
        let mut i: usize = 0;
        proof {
            assert(erows.take(0) =~= Seq::<ExportRow>::empty());
            assert(crate::codec::export_bytes(Seq::<ExportRow>::empty()) == 0);
        }
        while i < n
            invariant
                0 <= i <= n,
                n == uids@.len(),
                n == cids@.len(),
                n == timestamps@.len(),
                n == blobs@.len(),
                span.bounded(),
                erows == export_rows_of(uids@, cids@, timestamps@, blobs@),
                total_bytes == crate::codec::export_bytes(erows.take(i as int)),
                total_bytes <= i32::MAX,
                rels@.len() == i,
                forall|t: int| 0 <= t < i ==> span.spec_contains((#[trigger] erows[t]).2),
                forall|t: int| 0 <= t < i ==> #[trigger] rels@[t] == span.spec_to_relative(
                    erows[t].2,
                ),
                forall|t: int, u: int|
                    0 <= t < u < i ==> (#[trigger] erows[t]).2 < (#[trigger] erows[u]).2
                        || (erows[t].2 == erows[u].2 && erows[t].1 < erows[u].1),
                forall|t: int, u: int| 0 <= t < u < i ==> cids@[t] != cids@[u],
                forall|c: u64| #[trigger]
                    cid_set@.contains(c) <==> exists|t: int|
                        0 <= t < i && #[trigger] cids@[t] == c,
            decreases n - i,
        {
            let ts = timestamps[i];
            if !(ts >= span.epoch && ts < span.epoch + span.duration as u64) {
                proof {
                    assert(erows[i as int].2 == timestamps@[i as int]);
                    assert(!span.spec_contains(erows[i as int].2));
                    assert(!import_valid(erows, span));
                }
                return Err(Error::OutOfWindow);
            }
            if i > 0 {
                let prev_ts = timestamps[i - 1];
                let prev_cid = cids[i - 1];
                if !(prev_ts < ts || (prev_ts == ts && prev_cid < cids[i])) {
                    proof {
                        assert(erows[i as int - 1].1 == cids@[i as int - 1]);
                        assert(erows[i as int - 1].2 == timestamps@[i as int - 1]);
                        assert(erows[i as int].1 == cids@[i as int]);
                        assert(erows[i as int].2 == timestamps@[i as int]);
                        assert(!import_valid(erows, span));
                    }
                    return Err(Error::Unsorted);
                }
            }
            if cid_set.contains(&cids[i]) {
                proof {
                    let t = choose|t: int| 0 <= t < i && #[trigger] cids@[t] == cids@[i as int];
                    assert(erows[t].1 == cids@[t]);
                    assert(erows[i as int].1 == cids@[i as int]);
                    assert(erows[t].1 == erows[i as int].1);
                    assert(!import_valid(erows, span));
                }
                return Err(Error::Unsorted);
            }
            proof {
                assert(erows.take(i as int + 1).drop_last() =~= erows.take(i as int));
                assert(erows.take(i as int + 1).last() == erows[i as int]);
                assert(erows[i as int].3 == blobs@[i as int]@);
            }
            let blob_len = blobs[i].len();
            if total_bytes + blob_len as u128 > i32::MAX as u128 {
                proof {
                    assert(crate::codec::export_bytes(erows.take(i as int + 1)) > i32::MAX);
                    assert(erows.take(i as int + 1) =~= erows.subrange(0, i as int + 1));
                    crate::sorting::lemma_sum_by_subrange(
                        erows,
                        |r: ExportRow| r.3.len() as int,
                        0,
                        i as int + 1,
                    );
                    assert(!import_valid(erows, span));
                }
                return Err(Error::Oversized);
            }
            total_bytes = total_bytes + blob_len as u128;
            cid_set.insert(cids[i]);
            rels.push((ts - span.epoch) as u32);
            proof {
                assert(span.spec_contains(erows[i as int].2));
                assert forall|t: int, u: int|
                    0 <= t < u < i + 1 implies (#[trigger] erows[t]).2 < (#[trigger] erows[u]).2
                    || (erows[t].2 == erows[u].2 && erows[t].1 < erows[u].1) by {
                    if u == i {
                        if t < i - 1 {
                            assert(erows[t].2 < erows[i - 1].2 || (erows[t].2 == erows[i - 1].2
                                && erows[t].1 < erows[i - 1].1));
                        }
                    }
                }
            }
            i = i + 1;
        }
        proof {
            assert forall|t: int, u: int| 0 <= t < u < n implies (#[trigger] erows[t]).1
                != (#[trigger] erows[u]).1 by {
                assert(erows[t].1 == cids@[t]);
                assert(erows[u].1 == cids@[u]);
            }
            assert(erows.take(n as int) =~= erows);
            assert(crate::codec::export_bytes(erows) <= i32::MAX);
            assert(import_valid(erows, span));
        }
        let mut builder = BlobStoreBuilder::new()?;
        let mut pos: usize = 0;
        while pos < n
            invariant
                0 <= pos <= n,
                n == cids@.len(),
                n == blobs@.len(),
                n == uids@.len(),
                n == timestamps@.len(),
                erows == export_rows_of(uids@, cids@, timestamps@, blobs@),
                crate::codec::export_bytes(erows) <= i32::MAX,
                import_valid(erows, span),
                builder.rows().len() == pos,
                forall|t: int|
                    0 <= t < pos ==> #[trigger] builder.rows()[t] == (cids@[t], blobs@[t]@),
            decreases n - pos,
        {
            let end = if n - pos > BLOB_BATCH {
                pos + BLOB_BATCH
            } else {
                n
            };
            let mut b_cids: Vec<u64> = Vec::new();
            let mut b_blobs: Vec<Vec<u8>> = Vec::new();
            let mut j = pos;
            proof {
                assert(erows.subrange(pos as int, pos as int) =~= Seq::<ExportRow>::empty());
                assert(crate::codec::export_bytes(Seq::<ExportRow>::empty()) == 0);
                assert(crate::blobs::blob_bytes(Seq::<Vec<u8>>::empty()) == 0);
            }
            while j < end
                invariant
                    pos <= j <= end <= n,
                    n == cids@.len(),
                    n == blobs@.len(),
                    erows == export_rows_of(uids@, cids@, timestamps@, blobs@),
                    n == uids@.len(),
                    n == timestamps@.len(),
                    b_cids@.len() == j - pos,
                    b_blobs@.len() == j - pos,
                    forall|t: int| 0 <= t < j - pos ==> #[trigger] b_cids@[t] == cids@[pos + t],
                    forall|t: int|
                        0 <= t < j - pos ==> (#[trigger] b_blobs@[t])@ == blobs@[pos + t]@,
                    crate::blobs::blob_bytes(b_blobs@) == crate::codec::export_bytes(
                        erows.subrange(pos as int, j as int),
                    ),
                decreases end - j,
            {
                let ghost ob = b_blobs@;
                b_cids.push(cids[j]);
                b_blobs.push(copy_bytes_vec(&blobs, j));
                proof {
                    assert(erows.subrange(pos as int, j as int + 1).drop_last() =~= erows.subrange(
                        pos as int,
                        j as int,
                    ));
                    assert(erows.subrange(pos as int, j as int + 1).last() == erows[j as int]);
                    assert(erows[j as int].3 == blobs@[j as int]@);
                    assert(b_blobs@.drop_last() =~= ob);
                    assert(b_blobs@.last()@ == blobs@[j as int]@);
                }
                j = j + 1;
            }
            let ghost before = builder.rows();
            proof {
                crate::sorting::lemma_sum_by_subrange(
                    erows,
                    |r: ExportRow| r.3.len() as int,
                    pos as int,
                    end as int,
                );
            }
            builder.append(&b_cids, &b_blobs)?;
            proof {
                assert(forall|t: int|
                    0 <= t < end - pos ==> #[trigger] rows_of(b_cids@, b_blobs@)[t] == (
                    cids@[pos + t],
                    blobs@[pos + t]@,
                ));
            }
            pos = end;
        }
        proof {
            assert(crate::blobs::row_bytes(builder.rows()) == crate::codec::export_bytes(erows))
                by {
                crate::sorting::lemma_sum_by_pointwise(
                    builder.rows(),
                    erows,
                    |r: crate::blobs::BlobRow| r.1.len() as int,
                    |r: ExportRow| r.3.len() as int,
                );
            }
        }
        let store = builder.build_presorted()?;
        let mut s_uids: Vec<u32> = Vec::new();
        let mut i2: usize = 0;
        while i2 < n
            invariant
                0 <= i2 <= n,
                n == uids@.len(),
                s_uids@.len() == i2,
                forall|t: int| 0 <= t < i2 ==> #[trigger] s_uids@[t] == uids@[t],
            decreases n - i2,
        {
            s_uids.push(uids[i2]);
            i2 = i2 + 1;
        }
        let cold = Cold { blobs: store, span, timestamps: rels, uids: s_uids };
        proof {
            assert(cold.rows() =~= import_view(erows, span)) by {
                assert(forall|t: int|
                    0 <= t < n ==> #[trigger] cold.blobs.rows()[t] == (cids@[t], blobs@[t]@));
            }
            assert(strictly_sorted(cold.rows())) by {
                assert forall|t: int, u: int| 0 <= t < u < n implies rec_lt(
                    #[trigger] cold.rows()[t],
                    #[trigger] cold.rows()[u],
                ) by {
                    assert(cold.rows()[t].2 == span.spec_to_relative(erows[t].2));
                    assert(cold.rows()[u].2 == span.spec_to_relative(erows[u].2));
                    assert(cold.rows()[t].1 == erows[t].1);
                    assert(cold.rows()[u].1 == erows[u].1);
                }
            }
            assert(cids_distinct(cold.rows()));
            assert(forall|t: int|
                0 <= t < n ==> #[trigger] cold.timestamps@[t] < span.duration);
            assert(rec_bytes(cold.rows()) == crate::codec::export_bytes(erows)) by {
                crate::sorting::lemma_sum_by_pointwise(
                    cold.rows(),
                    erows,
                    |r: Rec| r.3.len() as int,
                    |r: ExportRow| r.3.len() as int,
                );
            }
            assert(cold.wf());
        }
        Ok(Arc::new(cold))
    }

    /// Decodes an exported file: reads the window from the two metadata
    /// keys, decodes the row batches, validates the rows and streams
    /// their blobs through a fresh builder. Succeeds exactly when the
    /// bytes decode, the metadata parses, and the rows validate - short
    /// of an I/O or encoding failure while writing the blob column.
    pub fn import(data: Bytes) -> (r: Result<Arc<Cold>, Error>)
        ensures
            ({
                let rows_opt = pq_file_rows(bytes_view(data));
                let em = pq_file_meta(bytes_view(data), "crimeline.epoch"@);
                let dm = pq_file_meta(bytes_view(data), "crimeline.duration"@);
                &&& (r matches Ok(c) ==> ({
                    &&& rows_opt matches Some(rows)
                    &&& decoded_span(em, dm) matches Some(w)
                    &&& import_valid(rows, w)
                    &&& c.wf()
                    &&& c.spec_span() == w
                    &&& c.rows() == import_view(rows, w)
                }))
                &&& (rows_opt is Some && (em is None || dm is None) ==> (r matches Err(e) && e
                    == Error::MissingMetadata))
                &&& (rows_opt is Some && em is Some && dm is Some && decoded_span(em, dm) is None
                    ==> (r matches Err(e) && e == Error::BadMetadata))
                &&& (rows_opt matches Some(rows) && decoded_span(em, dm) matches Some(w)
                    && !import_valid(rows, w) ==> (r matches Err(e) && (e == Error::Unsorted || e
                    == Error::OutOfWindow || e == Error::Oversized)))
                &&& (rows_opt matches Some(rows) && decoded_span(em, dm) matches Some(w)
                    && import_valid(rows, w) ==> r is Ok || (r matches Err(e) && (e == Error::Io
                    || e == Error::Schema)))
                &&& (rows_opt is None ==> r is Err)
            }),
    {
        let ghost dv = bytes_view(data);
        let (epoch_b, duration_b, reader) = pq_open(
            &data,
            "crimeline.epoch",
            "crimeline.duration",
        )?;
        let epoch_bytes = match epoch_b {
            Some(v) => v,
            None => {
                return Err(Error::MissingMetadata);
            },
        };
        let duration_bytes = match duration_b {
            Some(v) => v,
            None => {
                return Err(Error::MissingMetadata);
            },
        };
        let epoch = match parse_u64(epoch_bytes.as_slice()) {
            Some(v) => v,
            None => {
                return Err(Error::BadMetadata);
            },
        };
        let duration64 = match parse_u64(duration_bytes.as_slice()) {
            Some(v) => v,
            None => {
                return Err(Error::BadMetadata);
            },
        };
        if duration64 > u32::MAX as u64 {
            return Err(Error::BadMetadata);
        }
        let duration = duration64 as u32;
        if u64::MAX - epoch < duration as u64 {
            return Err(Error::BadMetadata);
        }
        let span = Window::new(epoch, duration);
        proof {
            assert(decoded_span(
                pq_file_meta(dv, "crimeline.epoch"@),
                pq_file_meta(dv, "crimeline.duration"@),
            ) == Some(span));
        }
        let batches = pq_batches(reader)?;
        let mut a_uids: Vec<u32> = Vec::new();
        let mut a_cids: Vec<u64> = Vec::new();
        let mut a_tss: Vec<u64> = Vec::new();
        let mut a_blobs: Vec<Vec<u8>> = Vec::new();
        let nb = batches.len();
        let mut bi: usize = 0;
        proof {
            assert(batches@.take(0) =~= Seq::<crate::codec::PqBatch>::empty());
            assert(batch_seq_rows(Seq::<crate::codec::PqBatch>::empty()) == Some(
                Seq::<ExportRow>::empty(),
            ));
            assert(export_rows_of(a_uids@, a_cids@, a_tss@, a_blobs@)
                =~= Seq::<ExportRow>::empty());
        }
        while bi < nb
            invariant
                0 <= bi <= nb,
                nb == batches@.len(),
                dv == bytes_view(data),
                pq_file_rows(dv) == batch_seq_rows(batches@),
                a_uids@.len() == a_cids@.len(),
                a_uids@.len() == a_tss@.len(),
                a_uids@.len() == a_blobs@.len(),
                batch_seq_rows(batches@.take(bi as int)) == Some(
                    export_rows_of(a_uids@, a_cids@, a_tss@, a_blobs@),
                ),
            decreases nb - bi,
        {
            let cols = match pq_batch_columns(&batches[bi]) {
                Ok(c) => c,
                Err(e) => {
                    proof {
                        lemma_batch_seq_rows_none(batches@, bi as int);
                    }
                    return Err(e);
                },
            };
            let (mut us, mut cs, mut ts, mut bs) = cols;
            let ghost prev = export_rows_of(a_uids@, a_cids@, a_tss@, a_blobs@);
            let ghost batch = export_rows_of(us@, cs@, ts@, bs@);
            a_uids.append(&mut us);
            a_cids.append(&mut cs);
            a_tss.append(&mut ts);
            a_blobs.append(&mut bs);
            proof {
                lemma_batch_seq_rows_take(batches@, bi as int);
                assert(export_rows_of(a_uids@, a_cids@, a_tss@, a_blobs@) =~= prev + batch);
            }
            bi = bi + 1;
        }
        proof {
            assert(batches@.take(nb as int) =~= batches@);
        }
        Cold::from_columns(span, a_uids, a_cids, a_tss, a_blobs)
    }
}


/// Two strictly sorted row sequences holding the same entries are the
/// same sequence: the sort order of a cold arena is canonical.
pub proof fn lemma_sorted_unique_rows(a: Seq<Rec>, b: Seq<Rec>)
    requires
        strictly_sorted(a),
        strictly_sorted(b),
        a.to_multiset() == b.to_multiset(),
    ensures
        a == b,
    decreases a.len(),
{
    broadcast use group_to_multiset_ensures;

    if a.len() == 0 {
        to_multiset_len(a);
        to_multiset_len(b);
        assert(a =~= b);
    } else {
        to_multiset_len(a);
        to_multiset_len(b);
        assert(a.to_multiset().count(a[0]) > 0) by {
            assert(a.contains(a[0]));
        }
        assert(b.contains(a[0]));
        let i = choose|i: int| 0 <= i < b.len() && b[i] == a[0];
        assert(b.to_multiset().count(b[0]) > 0) by {
            assert(b.contains(b[0]));
        }
        assert(a.contains(b[0]));
        let j = choose|j: int| 0 <= j < a.len() && a[j] == b[0];
        if i > 0 {
            assert(rec_lt(b[0], b[i]));
            if j > 0 {
                assert(rec_lt(a[0], a[j]));
                assert(false);
            } else {
                assert(false);
            }
        }
        assert(a[0] == b[0]);
        let ar = a.drop_first();
        let br = b.drop_first();
        assert(ar =~= a.remove(0));
        assert(br =~= b.remove(0));
        assert(a.remove(0).to_multiset() == a.to_multiset().remove(a[0]));
        assert(b.remove(0).to_multiset() == b.to_multiset().remove(b[0]));
        assert(ar.to_multiset() =~= a.to_multiset().remove(a[0]));
        assert(br.to_multiset() =~= b.to_multiset().remove(b[0]));
        assert(strictly_sorted(ar)) by {
            assert(forall|t: int, u: int|
                0 <= t < u < ar.len() ==> ar[t] == a[t + 1] && ar[u] == a[u + 1]);
        }
        assert(strictly_sorted(br)) by {
            assert(forall|t: int, u: int|
                0 <= t < u < br.len() ==> br[t] == b[t + 1] && br[u] == b[u + 1]);
        }
        lemma_sorted_unique_rows(ar, br);
        assert(a.len() == b.len());
        assert(forall|k: int| 1 <= k < a.len() ==> a[k] == ar[k - 1] && b[k] == br[k - 1]);
        assert(a =~= b);
    }
}

/// What freezing and importing guarantee of every cold arena: rows in
/// strictly ascending `(timestamp, cid)` order with pairwise distinct
/// cids.
pub proof fn lemma_cold_rows_distinct(c: Cold)
    requires
        c.wf(),
    ensures
        strictly_sorted(c.rows()),
        cids_distinct(c.rows()),
{
}

/// One more `add` after a batch equals one batch of the appended
/// sequence: repeated single adds and bulk adds fold to the same
/// records.
pub proof fn lemma_bulk_is_repeated_adds(recs: Seq<Rec>, entries: Seq<SRec>, e: SRec, w: Window)
    ensures
        spec_add_all(recs, entries.push(e), w) == spec_add(spec_add_all(recs, entries, w), e, w),
{
    let whole = entries.push(e);
    assert(whole.take(whole.len() - 1) =~= entries);
    lemma_spec_add_all_take(recs, whole, w, whole.len() - 1);
    assert(whole.take(whole.len() as int) =~= whole);
}

/// The record an offered entry becomes.
pub open spec fn srec_to_rec(e: SRec, w: Window) -> Rec {
    (e.0, e.1, w.spec_to_relative(e.2), e.3)
}

/// The records a sequence of offered entries becomes, in order.
pub open spec fn srecs_to_recs(entries: Seq<SRec>, w: Window) -> Seq<Rec> {
    Seq::new(entries.len(), |i: int| srec_to_rec(entries[i], w))
}

/// No two offered entries carry the same cid.
pub open spec fn srec_cids_distinct(entries: Seq<SRec>) -> bool {
    forall|i: int, j: int| 0 <= i < j < entries.len() ==> entries[i].1 != entries[j].1
}

/// Offering entries with fresh, distinct cids appends them all.
pub proof fn lemma_spec_add_all_appends(recs: Seq<Rec>, entries: Seq<SRec>, w: Window)
    requires
        srec_cids_distinct(entries),
        forall|i: int| 0 <= i < entries.len() ==> !has_cid(recs, (#[trigger] entries[i]).1),
    ensures
        spec_add_all(recs, entries, w) == recs + srecs_to_recs(entries, w),
    decreases entries.len(),
{
    if entries.len() == 0 {
        assert(recs + srecs_to_recs(entries, w) =~= recs);
    } else {
        let e0 = entries[0];
        assert(!has_cid(recs, e0.1));
        let next = recs.push(srec_to_rec(e0, w));
        assert(spec_add(recs, e0, w) == next);
        let rest = entries.drop_first();
        assert(srec_cids_distinct(rest)) by {
            assert(forall|t: int, u: int|
                0 <= t < u < rest.len() ==> rest[t] == entries[t + 1] && rest[u] == entries[u
                    + 1]);
        }
        assert forall|i: int| 0 <= i < rest.len() implies !has_cid(
            next,
            (#[trigger] rest[i]).1,
        ) by {
            assert(rest[i] == entries[i + 1]);
            if has_cid(next, rest[i].1) {
                let t = choose|t: int| 0 <= t < next.len() && next[t].1 == rest[i].1;
                if t < recs.len() {
                    assert(has_cid(recs, entries[i + 1].1));
                } else {
                    assert(entries[0].1 == entries[i + 1].1);
                }
            }
        }
        lemma_spec_add_all_appends(next, rest, w);
        assert(next + srecs_to_recs(rest, w) =~= recs + srecs_to_recs(entries, w));
    }
}

/// Ingest-order immateriality: offering the same set of entries with
/// pairwise distinct cids to two fresh arenas, in any two orders (for
/// example one entry at a time versus one bulk call), freezes to the
/// same sorted rows.
pub proof fn lemma_hot_cold_equivalence(
    es1: Seq<SRec>,
    es2: Seq<SRec>,
    w: Window,
    c1: Seq<Rec>,
    c2: Seq<Rec>,
)
    requires
        es1.to_multiset() == es2.to_multiset(),
        srec_cids_distinct(es1),
        srec_cids_distinct(es2),
        strictly_sorted(c1),
        strictly_sorted(c2),
        c1.to_multiset() == spec_add_all(Seq::empty(), es1, w).to_multiset(),
        c2.to_multiset() == spec_add_all(Seq::empty(), es2, w).to_multiset(),
    ensures
        c1 == c2,
{
    assert(forall|i: int| 0 <= i < es1.len() ==> !has_cid(Seq::empty(), (#[trigger] es1[i]).1));
    assert(forall|i: int| 0 <= i < es2.len() ==> !has_cid(Seq::empty(), (#[trigger] es2[i]).1));
    lemma_spec_add_all_appends(Seq::empty(), es1, w);
    lemma_spec_add_all_appends(Seq::empty(), es2, w);
    let f = |e: SRec| srec_to_rec(e, w);
    crate::sorting::lemma_map_values_multiset_eq(es1, es2, f);
    assert(srecs_to_recs(es1, w) =~= es1.map_values(f));
    assert(srecs_to_recs(es2, w) =~= es2.map_values(f));
    assert(Seq::empty() + srecs_to_recs(es1, w) =~= srecs_to_recs(es1, w));
    assert(Seq::empty() + srecs_to_recs(es2, w) =~= srecs_to_recs(es2, w));
    assert(c1.to_multiset() == c2.to_multiset());
    lemma_sorted_unique_rows(c1, c2);
}

/// Every yielded entry is a stored row at or after the start timestamp,
/// every such row is yielded, and the yield is strictly ordered.
pub proof fn lemma_visible_exact(c: Cold, start: Timestamp)
    requires
        c.wf(),
    ensures
        strictly_sorted(visible(c, start)),
        forall|k: int|
            0 <= k < visible(c, start).len() ==> c.spec_span().epoch + (#[trigger] visible(
                c,
                start,
            )[k]).2 >= start && c.rows().contains(visible(c, start)[k]),
        forall|i: int|
            0 <= i < c.rows().len() && c.spec_span().epoch + (#[trigger] c.rows()[i]).2 >= start
                ==> visible(c, start).contains(c.rows()[i]),
{
    lemma_visible_from_members(c.rows(), c.spec_span().epoch, start);
    lemma_visible_from_sorted(c.rows(), c.spec_span().epoch, start);
}

/// Membership of the visible subsequence: it holds exactly the rows at
/// or after the start timestamp.
proof fn lemma_visible_from_members(rows: Seq<Rec>, epoch: u64, start: u64)
    ensures
        forall|k: int|
            0 <= k < visible_from(rows, epoch, start).len() ==> epoch + (#[trigger] visible_from(
                rows,
                epoch,
                start,
            )[k]).2 >= start && rows.contains(visible_from(rows, epoch, start)[k]),
        forall|i: int|
            0 <= i < rows.len() && epoch + (#[trigger] rows[i]).2 >= start ==> visible_from(
                rows,
                epoch,
                start,
            ).contains(rows[i]),
    decreases rows.len(),
{
    if rows.len() > 0 {
        let front = rows.drop_last();
        lemma_visible_from_members(front, epoch, start);
        let vis = visible_from(rows, epoch, start);
        let visf = visible_from(front, epoch, start);
        assert(forall|t: int| 0 <= t < front.len() ==> front[t] == rows[t]);
        assert forall|k: int| 0 <= k < vis.len() implies epoch + (#[trigger] vis[k]).2 >= start
            && rows.contains(vis[k]) by {
            if k < visf.len() {
                assert(vis[k] == visf[k]);
                assert(front.contains(visf[k]));
                let t = choose|t: int| 0 <= t < front.len() && front[t] == visf[k];
                assert(rows[t] == vis[k]);
            } else {
                assert(vis[k] == rows.last());
            }
        }
        assert forall|i: int|
            0 <= i < rows.len() && epoch + (#[trigger] rows[i]).2 >= start implies vis.contains(
            rows[i],
        ) by {
            if i < rows.len() - 1 {
                assert(front[i] == rows[i]);
                assert(visf.contains(rows[i]));
                let t = choose|t: int| 0 <= t < visf.len() && visf[t] == rows[i];
                assert(vis[t] == rows[i]);
            } else {
                assert(vis[vis.len() - 1] == rows[i]);
            }
        }
    }
}

/// The visible subsequence of strictly sorted rows is strictly sorted.
proof fn lemma_visible_from_sorted(rows: Seq<Rec>, epoch: u64, start: u64)
    requires
        strictly_sorted(rows),
    ensures
        strictly_sorted(visible_from(rows, epoch, start)),
    decreases rows.len(),
{
    if rows.len() > 0 {
        let front = rows.drop_last();
        assert(strictly_sorted(front)) by {
            assert(forall|t: int| 0 <= t < front.len() ==> front[t] == rows[t]);
        }
        lemma_visible_from_sorted(front, epoch, start);
        lemma_visible_from_members(front, epoch, start);
        let vis = visible_from(rows, epoch, start);
        let visf = visible_from(front, epoch, start);
        if epoch + rows.last().2 >= start {
            assert forall|t: int, u: int| 0 <= t < u < vis.len() implies rec_lt(
                #[trigger] vis[t],
                #[trigger] vis[u],
            ) by {
                if u < visf.len() {
                    assert(vis[t] == visf[t] && vis[u] == visf[u]);
                } else {
                    assert(vis[u] == rows.last());
                    assert(vis[t] == visf[t]);
                    assert(front.contains(visf[t]));
                    let q = choose|q: int| 0 <= q < front.len() && front[q] == visf[t];
                    assert(rows[q] == visf[t]);
                    assert(rec_lt(rows[q], rows[rows.len() - 1]));
                }
            }
        }
    }
}

/// Exporting a well-formed arena and re-reading the rows reproduces it:
/// the exported rows validate against the window, map back to the same
/// stored records, and the printed window metadata decodes to the same
/// window. With `export`'s and `import`'s contracts this makes the
/// round trip exact: importing an export can only succeed with an equal
/// window and equal rows.
pub proof fn lemma_export_import_round_trip(c: Cold)
    requires
        c.wf(),
    ensures
        import_valid(export_view(c), c.spec_span()),
        import_view(export_view(c), c.spec_span()) == c.rows(),
        decoded_span(
            Some(dec_bytes(c.spec_span().epoch as nat)),
            Some(dec_bytes(c.spec_span().duration as nat)),
        ) == Some(c.spec_span()),
{
    crate::codec::lemma_decimal_round_trip(c.spec_span().epoch);
    crate::codec::lemma_decimal_round_trip(c.spec_span().duration as u64);
    let erows = export_view(c);
    let span = c.spec_span();
    lemma_rows_duration(c);
    assert(crate::codec::export_bytes(erows) == rec_bytes(c.rows())) by {
        crate::sorting::lemma_sum_by_pointwise(
            erows,
            c.rows(),
            |r: ExportRow| r.3.len() as int,
            |r: Rec| r.3.len() as int,
        );
    }
    assert forall|i: int| 0 <= i < erows.len() implies span.spec_contains(
        (#[trigger] erows[i]).2,
    ) by {
        assert(erows[i] == export_rec(c.rows()[i], span));
    }
    assert forall|i: int, j: int| 0 <= i < j < erows.len() implies (#[trigger] erows[i]).2
        < (#[trigger] erows[j]).2 || (erows[i].2 == erows[j].2 && erows[i].1 < erows[j].1) by {
        assert(rec_lt(c.rows()[i], c.rows()[j]));
    }
    assert forall|i: int, j: int| 0 <= i < j < erows.len() implies (#[trigger] erows[i]).1
        != (#[trigger] erows[j]).1 by {
        assert(c.rows()[i].1 != c.rows()[j].1);
    }
    assert(import_view(erows, span) =~= c.rows()) by {
        assert(forall|i: int|
            0 <= i < erows.len() ==> #[trigger] import_view(erows, span)[i] == import_rec(
                erows[i],
                span,
            ));
    }
}

/// A well-formed arena's window end fits in a `u64`.
pub(crate) proof fn lemma_cold_bounded(c: Cold)
    requires
        c.wf(),
    ensures
        c.spec_span().bounded(),
{
}

/// Every stored relative timestamp stays below the window's duration.
pub(crate) proof fn lemma_rows_duration(c: Cold)
    requires
        c.wf(),
    ensures
        forall|i: int|
            0 <= i < c.rows().len() ==> (#[trigger] c.rows()[i]).2 < c.spec_span().duration,
{
    assert(forall|i: int|
        0 <= i < c.rows().len() ==> (#[trigger] c.rows()[i]).2 == c.timestamps@[i]);
}

/// Copies the blob bytes at one index of a blob column.
fn copy_bytes_vec(blobs: &Vec<Vec<u8>>, j: usize) -> (r: Vec<u8>)
    requires
        j < blobs@.len(),
    ensures
        r@ == blobs@[j as int]@,
{
    let mut out: Vec<u8> = Vec::new();
    let blob = &blobs[j];
    let n = blob.len();
    let mut i: usize = 0;
    while i < n
        invariant
            0 <= i <= n,
            n == blob@.len(),
            blob@ == blobs@[j as int]@,
            out@ == blob@.take(i as int),
        decreases n - i,
    {
        out.push(blob[i]);
        proof {
            assert(out@ =~= blob@.take(i as int + 1));
        }
        i = i + 1;
    }
    proof {
        assert(out@ =~= blob@);
    }
    out
}

/// Relies on `HashSet::capacity`: the set's capacity is at least its
/// current size.
#[verifier::external_body]
fn hash_set_capacity(s: &HashSet<u64>) -> (r: usize) {
    s.capacity()
}

/// Relies on `HashSet::len`: the number of stored keys.
#[verifier::external_body]
fn hash_set_len(s: &HashSet<u64>) -> (r: usize) {
    s.len()
}

impl ReportUsage for Hot {
    /// The dedup set (one hash and one key per bucket), the three
    /// in-memory columns and the blob builder's file.
    fn usage(&self) -> Usage {
        let mut u = Usage::default();
        let bucket_bytes: usize = 16;
        let cap = hash_set_capacity(&self.cid_set);
        let used = hash_set_len(&self.cid_set);
        let free = if cap > used {
            cap - used
        } else {
            0
        };
        u.add_heap_usage(cap_mul(cap, bucket_bytes));
        u.add_heap_waste(cap_mul(free, bucket_bytes));
        u.add_vec(&self.cids);
        u.add_vec(&self.timestamps);
        u.add_vec(&self.uids);
        u.combine(self.blobs.usage());
        u
    }
}

impl ReportUsage for Cold {
    /// The two immutable columns and the blob store's footprint.
    fn usage(&self) -> Usage {
        let mut u = Usage::default();
        u.add_boxed_slice(self.timestamps.as_slice());
        u.add_boxed_slice(self.uids.as_slice());
        u.combine(self.blobs.usage());
        u
    }
}

/// Copies a byte slice into an owned vector.
fn vec_from_slice(s: &[u8]) -> (r: Vec<u8>)
    ensures
        r@ == s@,
{
    let mut out: Vec<u8> = Vec::new();
    let n = s.len();
    let mut i: usize = 0;
    while i < n
        invariant
            0 <= i <= n,
            n == s@.len(),
            out@ == s@.take(i as int),
        decreases n - i,
    {
        out.push(s[i]);
        proof {
            assert(out@ =~= s@.take(i as int + 1));
        }
        i = i + 1;
    }
    proof {
        assert(out@ =~= s@);
    }
    out
}

} // verus!
