//! An append-only on-disk column of `(cid, blob)` rows.
//!
//! A [`BlobStoreBuilder`] streams record batches into a private temp
//! file in Arrow's self-describing IPC file format (a private,
//! non-stable format). Finalizing reads the batches back and either
//! keeps them in append order (`build_presorted`) or gathers them
//! through a permutation of row indices (`build_and_sort`), writing one
//! contiguous batch to a fresh file. The resulting [`BlobStore`] keeps
//! that file for its lifetime and serves rows by index.
//!
//! Only the calls into `arrow` and `tempfile` are trusted; the batch
//! concatenation and the permutation gather are verified.

use arrow::array::{Array, BinaryArray, RecordBatch, UInt64Array};
use arrow::datatypes::{DataType, Field, Schema};
use arrow::ipc::reader::FileReader;
use arrow::ipc::writer::FileWriter;
use std::sync::Arc;
use tempfile::NamedTempFile;
use vstd::prelude::*;

use crate::errors::Error;
use crate::usage::{ReportUsage, Usage};

verus! {

/// One stored row: a content id and the bytes of its blob.
pub type BlobRow = (u64, Seq<u8>);

/// The bytes of a blob column, summed.
pub open spec fn blob_bytes(blobs: Seq<Vec<u8>>) -> int {
    crate::sorting::sum_by(blobs, |b: Vec<u8>| b@.len() as int)
}

/// The blob bytes of a row sequence, summed.
pub open spec fn row_bytes(rows: Seq<BlobRow>) -> int {
    crate::sorting::sum_by(rows, |r: BlobRow| r.1.len() as int)
}

/// Zipping a cid column onto a blob column keeps the blob bytes.
pub(crate) proof fn lemma_rows_of_bytes(cids: Seq<u64>, blobs: Seq<Vec<u8>>)
    requires
        cids.len() == blobs.len(),
    ensures
        row_bytes(rows_of(cids, blobs)) == blob_bytes(blobs),
{
    crate::sorting::lemma_sum_by_pointwise(
        rows_of(cids, blobs),
        blobs,
        |r: BlobRow| r.1.len() as int,
        |b: Vec<u8>| b@.len() as int,
    );
}

/// The rows formed by pairing a cid column with a blob column.
pub open spec fn rows_of(cids: Seq<u64>, blobs: Seq<Vec<u8>>) -> Seq<BlobRow>
    recommends
        cids.len() == blobs.len(),
{
    Seq::new(cids.len(), |i: int| (cids[i], blobs[i]@))
}

/// A private temp file holding one finished IPC column of `(cid, blob)`
/// rows.
#[verifier::external_body]
pub struct TempStore {
    file: NamedTempFile,
}

/// An IPC writer streaming `(cid, blob)` batches into a private temp
/// file.
#[verifier::external_body]
pub struct IpcWriter {
    writer: FileWriter<NamedTempFile>,
    schema: Arc<Schema>,
}

/// One record batch read back from a finished file; this crate reads
/// its contents only through trusted accessors.
#[verifier::external_body]
pub struct Batch {
    inner: RecordBatch,
}

/// The `(cid, blob)` rows appended to an IPC writer so far.
pub uninterp spec fn ipc_rows(w: IpcWriter) -> Seq<BlobRow>;

/// The `(cid, blob)` rows stored in a finished temp file.
pub uninterp spec fn file_rows(t: TempStore) -> Seq<BlobRow>;

/// The `(cid, blob)` rows of one record batch.
pub uninterp spec fn batch_rows(b: Batch) -> Seq<BlobRow>;

/// The rows of a list of batches, in order.
pub open spec fn batches_rows(bs: Seq<Batch>) -> Seq<BlobRow>
    decreases bs.len(),
{
    if bs.len() == 0 {
        Seq::empty()
    } else {
        batch_rows(bs[0]) + batches_rows(bs.drop_first())
    }
}

/// Extending a batch prefix by one batch appends that batch's rows.
proof fn lemma_batches_rows_take(bs: Seq<Batch>, i: int)
    requires
        0 <= i < bs.len(),
    ensures
        batches_rows(bs.take(i + 1)) == batches_rows(bs.take(i)) + batch_rows(bs[i]),
    decreases i,
{
    if i == 0 {
        assert(batches_rows(Seq::<Batch>::empty()) == Seq::<BlobRow>::empty());
        assert(bs.take(1).drop_first() =~= Seq::<Batch>::empty());
        assert(bs.take(1)[0] == bs[0]);
        assert(batches_rows(bs.take(1)) == batch_rows(bs[0]) + batches_rows(
            Seq::<Batch>::empty(),
        ));
        assert(batch_rows(bs[0]) + Seq::<BlobRow>::empty() =~= batch_rows(bs[0]));
        assert(bs.take(0) =~= Seq::<Batch>::empty());
        assert(batches_rows(bs.take(0)) + batch_rows(bs[0]) =~= batch_rows(bs[0]));
    } else {
        let rest = bs.drop_first();
        lemma_batches_rows_take(rest, i - 1);
        assert(bs.take(i + 1).drop_first() =~= rest.take(i));
        assert(bs.take(i).drop_first() =~= rest.take(i - 1));
        assert(bs.take(i + 1)[0] == bs[0]);
        assert(bs.take(i)[0] == bs[0]);
        assert(rest[i - 1] == bs[i]);
        assert(batches_rows(bs.take(i + 1)) == batch_rows(bs[0]) + batches_rows(rest.take(i)));
        assert(batches_rows(bs.take(i)) == batch_rows(bs[0]) + batches_rows(rest.take(i - 1)));
        assert(batch_rows(bs[0]) + (batches_rows(rest.take(i - 1)) + batch_rows(bs[i]))
            =~= (batch_rows(bs[0]) + batches_rows(rest.take(i - 1))) + batch_rows(bs[i]));
    }
}

/// Relies on `tempfile::NamedTempFile::with_prefix` and
/// `arrow::ipc::writer::FileWriter::try_new`: opens a fresh private
/// temp file with an IPC header for a `{cid: u64, blob: binary}` schema
/// and no rows.
#[verifier::external_body]
fn ipc_writer_new(prefix: &str) -> (r: Result<IpcWriter, Error>)
    ensures
        r is Ok ==> ipc_rows(r.unwrap()) == Seq::<BlobRow>::empty(),
        r matches Err(e) ==> e == Error::Io,
{
    let file = NamedTempFile::with_prefix(prefix).map_err(|_| Error::Io)?;
    let schema = Arc::new(Schema::new(vec![
        Field::new("cid", DataType::UInt64, false),
        Field::new("blob", DataType::Binary, false),
    ]));
    let writer = FileWriter::try_new(file, &schema).map_err(|_| Error::Io)?;
    Ok(IpcWriter { writer, schema })
}

/// Relies on `arrow::ipc::writer::FileWriter::write` and
/// `arrow::array::BinaryArray::from_iter_values`: appends one record
/// batch holding exactly the given rows, in order. A binary column's
/// offsets are 32-bit, so one batch carries at most `i32::MAX` blob
/// bytes; the bound below keeps the array construction from aborting.
#[verifier::external_body]
fn ipc_append(w: &mut IpcWriter, cids: &Vec<u64>, blobs: &Vec<Vec<u8>>) -> (r: Result<(), Error>)
    requires
        cids@.len() == blobs@.len(),
        blob_bytes(blobs@) <= i32::MAX,
    ensures
        r is Ok ==> ipc_rows(*final(w)) == ipc_rows(*old(w)) + rows_of(cids@, blobs@),
        r matches Err(e) ==> e == Error::Io || e == Error::Schema,
{
    let columns: Vec<Arc<dyn Array>> = vec![
        Arc::new(UInt64Array::from_iter_values(cids.iter().copied())),
        Arc::new(BinaryArray::from_iter_values(blobs.iter())),
    ];
    let batch = RecordBatch::try_new(w.schema.clone(), columns).map_err(|_| Error::Schema)?;
    w.writer.write(&batch).map_err(|_| Error::Io)
}

/// Relies on `arrow::ipc::writer::FileWriter::into_inner`, which
/// finishes the file, writing the IPC footer: the finished file holds
/// exactly the rows appended so far.
#[verifier::external_body]
fn ipc_finish(w: IpcWriter) -> (r: Result<TempStore, Error>)
    ensures
        r is Ok ==> file_rows(r.unwrap()) == ipc_rows(w),
        r matches Err(e) ==> e == Error::Io,
{
    let file = w.writer.into_inner().map_err(|_| Error::Io)?;
    Ok(TempStore { file })
}

/// Relies on `tempfile::NamedTempFile::reopen` and
/// `arrow::ipc::reader::FileReader`: reading a finished file returns
/// exactly the batches that were written, whose rows concatenate to the
/// file's rows.
#[verifier::external_body]
fn ipc_batches(t: &TempStore) -> (r: Result<Vec<Batch>, Error>)
    ensures
        r is Ok ==> batches_rows(r.unwrap()@) == file_rows(*t),
        r matches Err(e) ==> e == Error::Io,
{
    let f = t.file.reopen().map_err(|_| Error::Io)?;
    let reader = FileReader::try_new(f, None).map_err(|_| Error::Io)?;
    let batches = reader.collect::<Result<Vec<_>, _>>().map_err(|_| Error::Io)?;
    Ok(batches.into_iter().map(|inner| Batch { inner }).collect())
}

/// Relies on `arrow::array::UInt64Array` and `arrow::array::BinaryArray`
/// accessors: the two columns of a `(cid, blob)` batch, as plain values,
/// pair up to the batch's rows.
#[verifier::external_body]
fn batch_columns(b: &Batch) -> (r: Result<(Vec<u64>, Vec<Vec<u8>>), Error>)
    ensures
        r is Ok ==> r.unwrap().0@.len() == r.unwrap().1@.len() && rows_of(
            r.unwrap().0@,
            r.unwrap().1@,
        ) == batch_rows(*b),
        r matches Err(e) ==> e == Error::Schema,
{
    let columns = b.inner.columns();
    let cid_col = columns.get(0).and_then(|c| c.as_any().downcast_ref::<UInt64Array>()).ok_or(
        Error::Schema,
    )?;
    let blob_col = columns.get(1).and_then(|c| c.as_any().downcast_ref::<BinaryArray>()).ok_or(
        Error::Schema,
    )?;
    let cids: Vec<u64> = cid_col.values().to_vec();
    let blobs: Vec<Vec<u8>> = (0..blob_col.len()).map(|i| blob_col.value(i).to_vec()).collect();
    Ok((cids, blobs))
}

/// Writes the given rows as one batch into a fresh temp file and
/// finishes it.
fn store_write(cids: &Vec<u64>, blobs: &Vec<Vec<u8>>, prefix: &str) -> (r: Result<
    TempStore,
    Error,
>)
    requires
        cids@.len() == blobs@.len(),
        blob_bytes(blobs@) <= i32::MAX,
    ensures
        r is Ok ==> file_rows(r.unwrap()) == rows_of(cids@, blobs@),
        r matches Err(e) ==> e == Error::Io || e == Error::Schema,
{
    let mut writer = ipc_writer_new(prefix)?;
    ipc_append(&mut writer, cids, blobs)?;
    proof {
        assert(Seq::<BlobRow>::empty() + rows_of(cids@, blobs@) =~= rows_of(cids@, blobs@));
    }
    ipc_finish(writer)
}

/// Relies on file metadata through `tempfile::NamedTempFile`: the
/// current size in bytes of the backing file.
#[verifier::external_body]
pub(crate) fn store_disk_len(t: &TempStore) -> (r: u64) {
    t.file.as_file().metadata().map(|m| m.len()).unwrap_or(0)
}

/// Relies on file metadata through the IPC writer's buffered temp file:
/// the bytes written so far.
#[verifier::external_body]
fn ipc_disk_len(w: &IpcWriter) -> (r: u64) {
    w.writer.get_ref().as_file().metadata().map(|m| m.len()).unwrap_or(0)
}

/// Builds an on-disk `(cid, blob)` column by streaming batches into a
/// private temp file.
pub struct BlobStoreBuilder {
    writer: IpcWriter,
}

/// An immutable `(cid, blob)` column: the finished backing file plus the
/// decoded columns it holds.
pub struct BlobStore {
    file: TempStore,
    cids: Vec<u64>,
    blobs: Vec<Vec<u8>>,
}

impl BlobStoreBuilder {
    /// The rows appended so far, in order.
    pub closed spec fn rows(self) -> Seq<BlobRow> {
        ipc_rows(self.writer)
    }

    /// Opens a fresh, empty builder over a new private temp file.
    pub fn new() -> (r: Result<Self, Error>)
        ensures
            r is Ok ==> r.unwrap().rows() == Seq::<BlobRow>::empty(),
            r matches Err(e) ==> e == Error::Io,
    {
        let writer = ipc_writer_new("crimeline-hot-arena")?;
        Ok(BlobStoreBuilder { writer })
    }

    /// Appends one batch of rows; one batch carries at most `i32::MAX`
    /// blob bytes. On error the builder must be abandoned: its contents
    /// are no longer known.
    pub fn append(&mut self, cids: &Vec<u64>, blobs: &Vec<Vec<u8>>) -> (r: Result<(), Error>)
        requires
            cids@.len() == blobs@.len(),
            blob_bytes(blobs@) <= i32::MAX,
        ensures
            r is Ok ==> final(self).rows() == old(self).rows() + rows_of(cids@, blobs@),
            r matches Err(e) ==> e == Error::Io || e == Error::Schema,
    {
        ipc_append(&mut self.writer, cids, blobs)
    }

    /// Finishes the file and builds a store whose row `k` is appended
    /// row `perm[k]`. An empty `perm` yields an empty store whatever was
    /// appended.
    pub fn build_and_sort(self, perm: &Vec<usize>) -> (r: Result<BlobStore, Error>)
        requires
            forall|k: int| 0 <= k < perm@.len() ==> #[trigger] perm@[k] < self.rows().len(),
            row_bytes(Seq::new(perm@.len(), |k: int| self.rows()[perm@[k] as int]))
                <= i32::MAX,
        ensures
            r is Ok ==> r.unwrap().wf() && r.unwrap().rows() == Seq::new(
                perm@.len(),
                |k: int| self.rows()[perm@[k] as int],
            ),
            r matches Err(e) ==> e == Error::Io || e == Error::Schema,
    {
        let ghost all = self.rows();
        if perm.len() == 0 {
            let store = BlobStore::new(Vec::new(), Vec::new())?;
            proof {
                assert(store.rows() =~= Seq::new(perm@.len(), |k: int| all[perm@[k] as int]));
            }
            return Ok(store);
        }
        let file = ipc_finish(self.writer)?;
        let (all_cids, all_blobs) = read_back(&file, Ghost(all))?;
        let ghost gathered = Seq::new(perm@.len(), |k: int| all[perm@[k] as int]);
        let mut g_cids: Vec<u64> = Vec::new();
        let mut g_blobs: Vec<Vec<u8>> = Vec::new();
        let n = perm.len();
        let mut k: usize = 0;
        while k < n
            invariant
                0 <= k <= n,
                n == perm@.len(),
                all_cids@.len() == all_blobs@.len(),
                rows_of(all_cids@, all_blobs@) == all,
                gathered == Seq::new(perm@.len(), |j: int| all[perm@[j] as int]),
                forall|j: int| 0 <= j < n ==> #[trigger] perm@[j] < all.len(),
                g_cids@.len() == k,
                g_blobs@.len() == k,
                forall|j: int| 0 <= j < k ==> #[trigger] g_cids@[j] == all_cids@[perm@[j] as int],
                forall|j: int|
                    0 <= j < k ==> (#[trigger] g_blobs@[j])@ == all_blobs@[perm@[j] as int]@,
            decreases n - k,
        {
            let idx = perm[k];
            g_cids.push(all_cids[idx]);
            g_blobs.push(copy_bytes(&all_blobs[idx]));
            proof {
                assert(g_cids@[k as int] == all_cids@[perm@[k as int] as int]);
                assert(g_blobs@[k as int]@ == all_blobs@[perm@[k as int] as int]@);
            }
            k = k + 1;
        }
        proof {
            assert(blob_bytes(g_blobs@) == row_bytes(gathered)) by {
                crate::sorting::lemma_sum_by_pointwise(
                    g_blobs@,
                    gathered,
                    |b: Vec<u8>| b@.len() as int,
                    |r: BlobRow| r.1.len() as int,
                );
            }
        }
        let store = BlobStore::assemble(g_cids, g_blobs)?;
        proof {
            assert(store.rows() =~= Seq::new(perm@.len(), |j: int| all[perm@[j] as int]));
        }
        Ok(store)
    }

    /// Finishes the file and builds a store holding the appended rows in
    /// append order. A single written batch keeps its file as-is;
    /// several are concatenated into a fresh one.
    pub fn build_presorted(self) -> (r: Result<BlobStore, Error>)
        requires
            row_bytes(self.rows()) <= i32::MAX,
        ensures
            r is Ok ==> r.unwrap().wf() && r.unwrap().rows() == self.rows(),
            r matches Err(e) ==> e == Error::Io || e == Error::Schema,
    {
        let ghost all = self.rows();
        let file = ipc_finish(self.writer)?;
        let batches = ipc_batches(&file)?;
        if batches.len() == 1 {
            let (cids, blobs) = batch_columns(&batches[0])?;
            proof {
                assert(batches_rows(Seq::<Batch>::empty()) == Seq::<BlobRow>::empty());
                assert(batches@.drop_first() =~= Seq::<Batch>::empty());
                assert(batches_rows(batches@) == batch_rows(batches@[0]) + batches_rows(
                    Seq::<Batch>::empty(),
                ));
                assert(batch_rows(batches@[0]) + Seq::<BlobRow>::empty() =~= batch_rows(
                    batches@[0],
                ));
            }
            return Ok(BlobStore { file, cids, blobs });
        }
        let (all_cids, all_blobs) = read_back_batches(batches, Ghost(all))?;
        proof {
            lemma_rows_of_bytes(all_cids@, all_blobs@);
        }
        BlobStore::assemble(all_cids, all_blobs)
    }
}

/// Copies a byte vector element by element.
fn copy_bytes(v: &Vec<u8>) -> (r: Vec<u8>)
    ensures
        r@ == v@,
{
    let mut out: Vec<u8> = Vec::new();
    let n = v.len();
    let mut i: usize = 0;
    while i < n
        invariant
            0 <= i <= n,
            n == v@.len(),
            out@ == v@.take(i as int),
        decreases n - i,
    {
        out.push(v[i]);
        proof {
            assert(out@ =~= v@.take(i + 1));
        }
        i = i + 1;
    }
    proof {
        assert(out@ =~= v@);
    }
    out
}

/// Reads every batch of a finished file back as two plain columns
/// holding the file's rows in order.
fn read_back(file: &TempStore, expected: Ghost<Seq<BlobRow>>) -> (r: Result<
    (Vec<u64>, Vec<Vec<u8>>),
    Error,
>)
    requires
        file_rows(*file) == expected@,
    ensures
        r is Ok ==> r.unwrap().0@.len() == r.unwrap().1@.len() && rows_of(
            r.unwrap().0@,
            r.unwrap().1@,
        ) == expected@,
        r matches Err(e) ==> e == Error::Io || e == Error::Schema,
{
    let batches = ipc_batches(file)?;
    read_back_batches(batches, expected)
}

/// Concatenates the columns of a batch list into two plain columns.
fn read_back_batches(batches: Vec<Batch>, expected: Ghost<Seq<BlobRow>>) -> (r: Result<
    (Vec<u64>, Vec<Vec<u8>>),
    Error,
>)
    requires
        batches_rows(batches@) == expected@,
    ensures
        r is Ok ==> r.unwrap().0@.len() == r.unwrap().1@.len() && rows_of(
            r.unwrap().0@,
            r.unwrap().1@,
        ) == expected@,
        r matches Err(e) ==> e == Error::Io || e == Error::Schema,
{
    let mut all_cids: Vec<u64> = Vec::new();
    let mut all_blobs: Vec<Vec<u8>> = Vec::new();
    let n = batches.len();
    let mut i: usize = 0;
    proof {
        assert(batches@.take(0) =~= Seq::<Batch>::empty());
    }
    while i < n
        invariant
            0 <= i <= n,
            n == batches@.len(),
            batches_rows(batches@) == expected@,
            all_cids@.len() == all_blobs@.len(),
            rows_of(all_cids@, all_blobs@) == batches_rows(batches@.take(i as int)),
        decreases n - i,
    {
        let (mut cids, mut blobs) = batch_columns(&batches[i])?;
        let ghost before_cids = all_cids@;
        let ghost before_blobs = all_blobs@;
        all_cids.append(&mut cids);
        all_blobs.append(&mut blobs);
        proof {
            lemma_batches_rows_take(batches@, i as int);
            assert(rows_of(all_cids@, all_blobs@) =~= rows_of(before_cids, before_blobs)
                + batch_rows(batches@[i as int]));
        }
        i = i + 1;
    }
    proof {
        assert(batches@.take(n as int) =~= batches@);
    }
    Ok((all_cids, all_blobs))
}

impl BlobStore {
    /// The rows this store serves, in index order.
    pub closed spec fn rows(self) -> Seq<BlobRow> {
        rows_of(self.cids@, self.blobs@)
    }

    /// The columns are aligned and the backing file holds exactly the
    /// served rows.
    pub closed spec fn wf(self) -> bool {
        &&& self.cids@.len() == self.blobs@.len()
        &&& file_rows(self.file) == self.rows()
    }

    /// The number of rows.
    pub fn len(&self) -> (r: usize)
        ensures
            r == self.rows().len(),
    {
        self.cids.len()
    }

    /// Whether the store holds no rows.
    pub fn is_empty(&self) -> (r: bool)
        ensures
            r == (self.rows().len() == 0),
    {
        self.cids.is_empty()
    }

    /// The row at `idx`: its cid and a borrow of its blob bytes.
    pub fn resolve(&self, idx: usize) -> (r: (u64, &[u8]))
        requires
            idx < self.rows().len(),
            self.wf(),
        ensures
            r.0 == self.rows()[idx as int].0,
            r.1@ == self.rows()[idx as int].1,
    {
        (self.cids[idx], self.blobs[idx].as_slice())
    }

    /// Creates a store from parallel cid and blob columns, writing them
    /// to a fresh backing file.
    pub fn new(cids: Vec<u64>, blobs: Vec<Vec<u8>>) -> (r: Result<Self, Error>)
        requires
            cids@.len() == blobs@.len(),
            blob_bytes(blobs@) <= i32::MAX,
        ensures
            r is Ok ==> r.unwrap().wf() && r.unwrap().rows() == rows_of(cids@, blobs@),
            r matches Err(e) ==> e == Error::Io || e == Error::Schema,
    {
        Self::assemble(cids, blobs)
    }

    /// Writes the columns to a fresh file and wraps them.
    fn assemble(cids: Vec<u64>, blobs: Vec<Vec<u8>>) -> (r: Result<Self, Error>)
        requires
            cids@.len() == blobs@.len(),
            blob_bytes(blobs@) <= i32::MAX,
        ensures
            r is Ok ==> r.unwrap().wf() && r.unwrap().rows() == rows_of(cids@, blobs@),
            r matches Err(e) ==> e == Error::Io || e == Error::Schema,
    {
        let file = store_write(&cids, &blobs, "crimeline-cold-arena")?;
        Ok(BlobStore { file, cids, blobs })
    }

    /// The size in bytes of the backing file.
    pub fn disk_bytes(&self) -> u64 {
        store_disk_len(&self.file)
    }
}

impl ReportUsage for BlobStoreBuilder {
    /// The bytes streamed to the builder's temp file so far.
    fn usage(&self) -> Usage {
        let mut u = Usage::default();
        u.add_disk_usage(ipc_disk_len(&self.writer));
        u
    }
}

impl ReportUsage for BlobStore {
    /// The decoded columns on the heap plus the backing file on disk.
    fn usage(&self) -> Usage {
        let mut u = Usage::default();
        u.add_vec(&self.cids);
        u.add_vec(&self.blobs);
        u.add_disk_usage(store_disk_len(&self.file));
        u
    }
}

} // verus!
