//! The columnar export format: a Parquet file with schema
//! `{uid: u32, cid: u64, timestamp: u64, blob: binary}`, Zstd-compressed,
//! carrying the arena's window in two file-level metadata keys whose
//! values are decimal strings.
//!
//! Parquet encoding and decoding are deterministic functions of the
//! bytes, so both sides are named: `pq_file_rows` and `pq_file_meta`
//! stand for what a byte sequence decodes to, and the writer wrappers
//! promise that the bytes they produce decode back to what was written.
//! Assembling columns, parsing the metadata values and validating
//! imported rows are verified in the callers.

use arrow::array::{Array, BinaryArray, RecordBatch, UInt32Array, UInt64Array};
use arrow::datatypes::{DataType, Field, Schema};
use bytes::Bytes;
use parquet::arrow::arrow_reader::{ParquetRecordBatchReader, ParquetRecordBatchReaderBuilder};
use parquet::arrow::ArrowWriter;
use parquet::basic::{Compression, ZstdLevel};
use parquet::file::metadata::KeyValue;
use parquet::file::properties::WriterProperties;
use std::sync::Arc;
use vstd::prelude::*;

use crate::errors::Error;

verus! {

/// One exported row: uid, cid, absolute timestamp and blob bytes.
pub type ExportRow = (u32, u64, u64, Seq<u8>);

/// The opaque byte container that import reads from.
#[verifier::external_type_specification]
#[verifier::external_body]
pub struct ExBytes(Bytes);

/// The content of a byte container.
pub uninterp spec fn bytes_view(b: Bytes) -> Seq<u8>;

/// The fixed schema of the export format.
#[verifier::external_body]
pub struct ExportSchema {
    inner: Arc<Schema>,
}

/// Relies on `arrow::datatypes::Schema::new`: the export schema, in
/// order `{uid: u32, cid: u64, timestamp: u64, blob: binary}`, all
/// non-null.
#[verifier::external_body]
pub(crate) fn export_schema() -> ExportSchema {
    ExportSchema {
        inner: Arc::new(Schema::new(vec![
            Field::new("uid", DataType::UInt32, false),
            Field::new("cid", DataType::UInt64, false),
            Field::new("timestamp", DataType::UInt64, false),
            Field::new("blob", DataType::Binary, false),
        ])),
    }
}

/// A Parquet writer accumulating export rows into an in-memory buffer.
#[verifier::external_body]
pub struct PqSink {
    writer: ArrowWriter<Vec<u8>>,
}

/// A Parquet reader over an imported byte buffer.
#[verifier::external_body]
pub struct PqReader {
    reader: ParquetRecordBatchReader,
}

/// One record batch decoded from an imported file.
#[verifier::external_body]
pub struct PqBatch {
    inner: RecordBatch,
}

/// The rows written to a sink so far.
pub uninterp spec fn sink_rows(s: PqSink) -> Seq<ExportRow>;

/// The metadata value a sink will write under a key.
pub uninterp spec fn sink_meta(s: PqSink, key: Seq<char>) -> Option<Seq<u8>>;

/// The export rows a byte sequence decodes to, or nothing when the
/// bytes are not a well-formed file of the export schema.
pub uninterp spec fn pq_file_rows(data: Seq<u8>) -> Option<Seq<ExportRow>>;

/// The metadata value a byte sequence carries under a key, or nothing
/// when the key is absent or the file unreadable.
pub uninterp spec fn pq_file_meta(data: Seq<u8>, key: Seq<char>) -> Option<Seq<u8>>;

/// The export rows an opened reader will decode to.
pub uninterp spec fn reader_rows(r: PqReader) -> Option<Seq<ExportRow>>;

/// The values of one `u32` column of a batch, when it decodes.
pub uninterp spec fn pq_u32_col(b: PqBatch, i: int) -> Option<Seq<u32>>;

/// The values of one `u64` column of a batch, when it decodes.
pub uninterp spec fn pq_u64_col(b: PqBatch, i: int) -> Option<Seq<u64>>;

/// The values of one binary column of a batch, when it decodes.
pub uninterp spec fn pq_bin_col(b: PqBatch, i: int) -> Option<Seq<Seq<u8>>>;

/// The views of a vector of byte vectors.
pub open spec fn views_of(v: Seq<Vec<u8>>) -> Seq<Seq<u8>> {
    Seq::new(v.len(), |i: int| v[i]@)
}

/// The view of an optional byte vector.
pub open spec fn opt_bytes(o: Option<Vec<u8>>) -> Option<Seq<u8>> {
    match o {
        Some(v) => Some(v@),
        None => None,
    }
}

/// The rows of one batch under the export schema: its four typed
/// columns, zipped, when all decode with one common length.
pub open spec fn pq_batch_rows(b: PqBatch) -> Option<Seq<ExportRow>> {
    match (pq_u32_col(b, 0), pq_u64_col(b, 1)) {
        (Some(us), Some(cs)) => match (pq_u64_col(b, 2), pq_bin_col(b, 3)) {
            (Some(ts), Some(bl)) => if us.len() == cs.len() && cs.len() == ts.len() && ts.len()
                == bl.len() {
                Some(Seq::new(us.len(), |i: int| (us[i], cs[i], ts[i], bl[i])))
            } else {
                None
            },
            _ => None,
        },
        _ => None,
    }
}

/// The concatenated rows of a batch list; nothing as soon as one batch
/// fails to decode.
pub open spec fn batch_seq_rows(bs: Seq<PqBatch>) -> Option<Seq<ExportRow>>
    decreases bs.len(),
{
    if bs.len() == 0 {
        Some(Seq::empty())
    } else {
        match (pq_batch_rows(bs[0]), batch_seq_rows(bs.drop_first())) {
            (Some(h), Some(t)) => Some(h + t),
            _ => None,
        }
    }
}

/// Extending a decoded batch prefix appends that batch's rows.
pub(crate) proof fn lemma_batch_seq_rows_take(bs: Seq<PqBatch>, i: int)
    requires
        0 <= i < bs.len(),
    ensures
        batch_seq_rows(bs.take(i + 1)) == (match (pq_batch_rows(bs[i]), batch_seq_rows(
            bs.take(i),
        )) {
            (Some(h), Some(t)) => Some(t + h),
            _ => None::<Seq<ExportRow>>,
        }),
    decreases i,
{
    if i == 0 {
        assert(batch_seq_rows(Seq::<PqBatch>::empty()) == Some(Seq::<ExportRow>::empty()));
        assert(bs.take(1).drop_first() =~= Seq::<PqBatch>::empty());
        assert(bs.take(1)[0] == bs[0]);
        assert(bs.take(0) =~= Seq::<PqBatch>::empty());
        if pq_batch_rows(bs[0]) is Some {
            let h = pq_batch_rows(bs[0])->Some_0;
            assert(h + Seq::<ExportRow>::empty() =~= Seq::<ExportRow>::empty() + h);
        }
    } else {
        let rest = bs.drop_first();
        lemma_batch_seq_rows_take(rest, i - 1);
        assert(bs.take(i + 1).drop_first() =~= rest.take(i));
        assert(bs.take(i).drop_first() =~= rest.take(i - 1));
        assert(bs.take(i + 1)[0] == bs[0]);
        assert(bs.take(i)[0] == bs[0]);
        assert(rest[i - 1] == bs[i]);
        if pq_batch_rows(bs[0]) is Some && batch_seq_rows(rest.take(i - 1)) is Some
            && pq_batch_rows(bs[i]) is Some {
            let h0 = pq_batch_rows(bs[0])->Some_0;
            let t0 = batch_seq_rows(rest.take(i - 1))->Some_0;
            let h = pq_batch_rows(bs[i])->Some_0;
            assert(h0 + (t0 + h) =~= (h0 + t0) + h);
        }
    }
}

/// A batch that fails to decode makes the whole list fail.
pub(crate) proof fn lemma_batch_seq_rows_none(bs: Seq<PqBatch>, i: int)
    requires
        0 <= i < bs.len(),
        pq_batch_rows(bs[i]) is None,
    ensures
        batch_seq_rows(bs) is None,
    decreases i,
{
    if i > 0 {
        lemma_batch_seq_rows_none(bs.drop_first(), i - 1);
    }
}

/// The decimal digits of `n`, most significant first, as ASCII bytes.
pub open spec fn dec_bytes(n: nat) -> Seq<u8>
    decreases n,
{
    let digit = (48 + (n % 10)) as u8;
    if n < 10 {
        seq![digit]
    } else {
        dec_bytes(n / 10).push(digit)
    }
}

/// Relies on `u64::to_string`: the decimal digits of `n`, most
/// significant first, without sign or leading zeros.
#[verifier::external_body]
pub(crate) fn to_decimal(n: u64) -> (r: Vec<u8>)
    ensures
        r@ == dec_bytes(n as nat),
{
    n.to_string().into_bytes()
}

/// Relies on `parquet::arrow::ArrowWriter::try_new`: opens an empty
/// Zstd-compressed writer over the export schema, carrying exactly the
/// two given metadata keys and values. The keys must differ (the reader
/// looks values up by key), neither may be the `ARROW:schema` key the
/// writer itself appends, and the values must be ASCII so that the
/// UTF-8 strings stored in the file carry the given bytes unchanged.
#[verifier::external_body]
pub(crate) fn sink_new(
    schema: &ExportSchema,
    epoch_key: &str,
    epoch_value: &Vec<u8>,
    duration_key: &str,
    duration_value: &Vec<u8>,
) -> (r: Result<PqSink, Error>)
    requires
        epoch_key@ != duration_key@,
        epoch_key@ != "ARROW:schema"@,
        duration_key@ != "ARROW:schema"@,
        forall|i: int| 0 <= i < epoch_value@.len() ==> epoch_value@[i] < 128,
        forall|i: int| 0 <= i < duration_value@.len() ==> duration_value@[i] < 128,
    ensures
        r matches Ok(s) ==> ({
            &&& sink_rows(s) == Seq::<ExportRow>::empty()
            &&& sink_meta(s, epoch_key@) == Some(epoch_value@)
            &&& sink_meta(s, duration_key@) == Some(duration_value@)
        }),
        r matches Err(e) ==> e == Error::Io,
{
    let level = ZstdLevel::try_new(3).map_err(|_| Error::Io)?;
    let ev = String::from_utf8_lossy(epoch_value).into_owned();
    let dv = String::from_utf8_lossy(duration_value).into_owned();
    let metadata = vec![
        KeyValue::new(epoch_key.to_string(), Some(ev)),
        KeyValue::new(duration_key.to_string(), Some(dv)),
    ];
    let props = WriterProperties::builder()
        .set_compression(Compression::ZSTD(level))
        .set_key_value_metadata(Some(metadata))
        .build();
    let writer = ArrowWriter::try_new(Vec::new(), schema.inner.clone(), Some(props)).map_err(
        |_| Error::Io,
    )?;
    Ok(PqSink { writer })
}

/// Relies on `parquet::arrow::ArrowWriter::write` and
/// `arrow::array::BinaryArray::from_iter_values`: appends one batch
/// holding exactly the rows formed by the four columns, in order,
/// leaving the metadata untouched. A binary column's offsets are
/// 32-bit, so one batch carries at most `i32::MAX` blob bytes; the
/// bound keeps the array construction from aborting.
#[verifier::external_body]
pub(crate) fn sink_write(
    s: &mut PqSink,
    schema: &ExportSchema,
    uids: &Vec<u32>,
    cids: &Vec<u64>,
    timestamps: &Vec<u64>,
    blobs: &Vec<Vec<u8>>,
) -> (r: Result<(), Error>)
    requires
        uids@.len() == cids@.len() == timestamps@.len() == blobs@.len(),
        crate::blobs::blob_bytes(blobs@) <= i32::MAX,
    ensures
        r is Ok ==> sink_rows(*final(s)) == sink_rows(*old(s)) + export_rows_of(
            uids@,
            cids@,
            timestamps@,
            blobs@,
        ),
        forall|k: Seq<char>| sink_meta(*final(s), k) == sink_meta(*old(s), k),
        r matches Err(e) ==> e == Error::Io || e == Error::Schema,
{
    let batch = RecordBatch::try_new(
        schema.inner.clone(),
        vec![
            Arc::new(UInt32Array::from_iter_values(uids.iter().copied())),
            Arc::new(UInt64Array::from_iter_values(cids.iter().copied())),
            Arc::new(UInt64Array::from_iter_values(timestamps.iter().copied())),
            Arc::new(BinaryArray::from_iter_values(blobs.iter())),
        ],
    ).map_err(|_| Error::Schema)?;
    s.writer.write(&batch).map_err(|_| Error::Io)
}

/// Relies on the Parquet writer and reader agreeing with each other:
/// `ArrowWriter::into_inner` finishes the file, and the bytes of a
/// finished file decode back to exactly the rows and metadata that were
/// written.
#[verifier::external_body]
pub(crate) fn sink_close(s: PqSink) -> (r: Result<Vec<u8>, Error>)
    ensures
        r matches Ok(bytes) ==> ({
            &&& pq_file_rows(bytes@) == Some(sink_rows(s))
            &&& forall|k: Seq<char>| pq_file_meta(bytes@, k) == sink_meta(s, k)
        }),
        r matches Err(e) ==> e == Error::Io,
{
    s.writer.into_inner().map_err(|_| Error::Io)
}

/// Relies on
/// `parquet::arrow::arrow_reader::ParquetRecordBatchReaderBuilder`:
/// opens the byte buffer, looks up the values of the two given metadata
/// keys, and builds a row reader; opening fails only when the bytes are
/// not a well-formed file.
#[verifier::external_body]
pub(crate) fn pq_open(data: &Bytes, epoch_key: &str, duration_key: &str) -> (r: Result<
    (Option<Vec<u8>>, Option<Vec<u8>>, PqReader),
    Error,
>)
    ensures
        r matches Ok(t) ==> ({
            &&& opt_bytes(t.0) == pq_file_meta(bytes_view(*data), epoch_key@)
            &&& opt_bytes(t.1) == pq_file_meta(bytes_view(*data), duration_key@)
            &&& reader_rows(t.2) == pq_file_rows(bytes_view(*data))
        }),
        r is Err ==> pq_file_rows(bytes_view(*data)) is None,
        r matches Err(e) ==> e == Error::Schema,
{
    let builder = ParquetRecordBatchReaderBuilder::try_new(data.clone()).map_err(
        |_| Error::Schema,
    )?;
    let kv = builder.metadata().file_metadata().key_value_metadata();
    let epoch = kv.and_then(|es| es.iter().find(|e| e.key == epoch_key)).and_then(
        |e| e.value.clone(),
    ).map(|v| v.into_bytes());
    let duration = kv.and_then(|es| es.iter().find(|e| e.key == duration_key)).and_then(
        |e| e.value.clone(),
    ).map(|v| v.into_bytes());
    let reader = builder.build().map_err(|_| Error::Schema)?;
    Ok((epoch, duration, PqReader { reader }))
}

/// Relies on `parquet::arrow::arrow_reader::ParquetRecordBatchReader`:
/// decodes every record batch of the file, in order.
#[verifier::external_body]
pub(crate) fn pq_batches(r: PqReader) -> (res: Result<Vec<PqBatch>, Error>)
    ensures
        res matches Ok(bs) ==> batch_seq_rows(bs@) == reader_rows(r),
        res is Err ==> reader_rows(r) is None,
        res matches Err(e) ==> e == Error::Io,
{
    let batches = r.reader.collect::<Result<Vec<_>, _>>().map_err(|_| Error::Io)?;
    Ok(batches.into_iter().map(|inner| PqBatch { inner }).collect())
}

/// Relies on `arrow::array::UInt32Array`: the values of one `u32`
/// column of an export batch, exactly when it decodes as one.
#[verifier::external_body]
fn pq_u32_column(b: &PqBatch, i: usize) -> (r: Result<Vec<u32>, Error>)
    ensures
        match r {
            Ok(v) => pq_u32_col(*b, i as int) == Some(v@),
            Err(e) => pq_u32_col(*b, i as int) is None && e == Error::Schema,
        },
{
    let columns = b.inner.columns();
    let col = columns.get(i).and_then(|c| c.as_any().downcast_ref::<UInt32Array>()).ok_or(
        Error::Schema,
    )?;
    Ok(col.values().to_vec())
}

/// Relies on `arrow::array::UInt64Array`: the values of one `u64`
/// column of an export batch, exactly when it decodes as one.
#[verifier::external_body]
fn pq_u64_column(b: &PqBatch, i: usize) -> (r: Result<Vec<u64>, Error>)
    ensures
        match r {
            Ok(v) => pq_u64_col(*b, i as int) == Some(v@),
            Err(e) => pq_u64_col(*b, i as int) is None && e == Error::Schema,
        },
{
    let columns = b.inner.columns();
    let col = columns.get(i).and_then(|c| c.as_any().downcast_ref::<UInt64Array>()).ok_or(
        Error::Schema,
    )?;
    Ok(col.values().to_vec())
}

/// Relies on `arrow::array::BinaryArray`: the values of one binary
/// column of an export batch, exactly when it decodes as one.
#[verifier::external_body]
fn pq_binary_column(b: &PqBatch, i: usize) -> (r: Result<Vec<Vec<u8>>, Error>)
    ensures
        match r {
            Ok(v) => pq_bin_col(*b, i as int) == Some(views_of(v@)),
            Err(e) => pq_bin_col(*b, i as int) is None && e == Error::Schema,
        },
{
    let columns = b.inner.columns();
    let col = columns.get(i).and_then(|c| c.as_any().downcast_ref::<BinaryArray>()).ok_or(
        Error::Schema,
    )?;
    Ok((0..col.len()).map(|k| col.value(k).to_vec()).collect())
}

/// The four columns of an export batch as plain values: succeeds
/// exactly when the batch decodes under the export schema.
pub(crate) fn pq_batch_columns(b: &PqBatch) -> (r: Result<
    (Vec<u32>, Vec<u64>, Vec<u64>, Vec<Vec<u8>>),
    Error,
>)
    ensures
        match r {
            Ok(t) => pq_batch_rows(*b) == Some(export_rows_of(t.0@, t.1@, t.2@, t.3@))
                && t.0@.len() == t.1@.len() && t.1@.len() == t.2@.len() && t.2@.len()
                == t.3@.len(),
            Err(e) => pq_batch_rows(*b) is None && e == Error::Schema,
        },
{
    let uids = pq_u32_column(b, 0)?;
    let cids = pq_u64_column(b, 1)?;
    let timestamps = pq_u64_column(b, 2)?;
    let blobs = pq_binary_column(b, 3)?;
    if uids.len() != cids.len() || cids.len() != timestamps.len() || timestamps.len()
        != blobs.len() {
        return Err(Error::Schema);
    }
    proof {
        let us = uids@;
        let bl = views_of(blobs@);
        assert(Seq::new(us.len(), |i: int| (us[i], cids@[i], timestamps@[i], bl[i]))
            =~= export_rows_of(uids@, cids@, timestamps@, blobs@));
    }
    Ok((uids, cids, timestamps, blobs))
}

/// The blob bytes of an export row sequence, summed.
pub open spec fn export_bytes(rows: Seq<ExportRow>) -> int {
    crate::sorting::sum_by(rows, |r: ExportRow| r.3.len() as int)
}

/// The rows formed by four parallel columns.
pub open spec fn export_rows_of(
    uids: Seq<u32>,
    cids: Seq<u64>,
    timestamps: Seq<u64>,
    blobs: Seq<Vec<u8>>,
) -> Seq<ExportRow>
    recommends
        uids.len() == cids.len() == timestamps.len() == blobs.len(),
{
    Seq::new(uids.len(), |i: int| (uids[i], cids[i], timestamps[i], blobs[i]@))
}

/// Whether a byte is an ASCII decimal digit.
pub open spec fn is_digit(b: u8) -> bool {
    48 <= b <= 57
}

/// The value of a big-endian sequence of decimal digit bytes.
pub open spec fn digits_value(s: Seq<u8>) -> nat
    decreases s.len(),
{
    if s.len() == 0 {
        0
    } else {
        digits_value(s.drop_last()) * 10 + (s.last() - 48) as nat
    }
}

/// Whether a byte sequence is a well-formed decimal number: nonempty,
/// all digits, and in range for a `u64`.
pub open spec fn is_decimal_u64(s: Seq<u8>) -> bool {
    &&& s.len() > 0
    &&& forall|i: int| 0 <= i < s.len() ==> is_digit(#[trigger] s[i])
    &&& digits_value(s) <= u64::MAX
}

/// What a strict decimal parse of a byte sequence yields.
pub open spec fn spec_parse_u64(s: Seq<u8>) -> Option<u64> {
    if is_decimal_u64(s) {
        Some(digits_value(s) as u64)
    } else {
        None
    }
}

/// Decimal digit bytes are ASCII.
pub proof fn lemma_dec_bytes_ascii(n: nat)
    ensures
        forall|i: int| 0 <= i < dec_bytes(n).len() ==> #[trigger] dec_bytes(n)[i] < 128,
    decreases n,
{
    let s = dec_bytes(n);
    if n < 10 {
        assert(s =~= seq![(48 + (n % 10)) as u8]);
    } else {
        lemma_dec_bytes_ascii(n / 10);
        let front = dec_bytes(n / 10);
        assert(s == front.push((48 + (n % 10)) as u8));
        assert forall|i: int| 0 <= i < s.len() implies #[trigger] s[i] < 128 by {
            if i < front.len() {
                assert(front[i] < 128);
            }
        }
    }
}

/// Printing a number gives a well-formed decimal whose value is the
/// number itself.
pub proof fn lemma_decimal_round_trip(n: u64)
    ensures
        spec_parse_u64(dec_bytes(n as nat)) == Some(n),
    decreases n,
{
    let s = dec_bytes(n as nat);
    if n < 10 {
        assert(s =~= seq![(48 + n) as u8]);
        assert(s.drop_last() =~= Seq::<u8>::empty());
        assert(digits_value(Seq::<u8>::empty()) == 0);
        assert(digits_value(s) == n);
        assert(is_digit(s[0]));
    } else {
        lemma_decimal_round_trip(n / 10);
        let front = dec_bytes((n / 10) as nat);
        assert(s == front.push((48 + (n as nat) % 10) as u8));
        assert(s.drop_last() =~= front);
        assert(s.last() == (48 + (n as nat) % 10) as u8);
        assert(digits_value(s) == digits_value(front) * 10 + (n as nat) % 10);
        assert(digits_value(front) == n / 10);
        assert(n as int == 10 * ((n as int) / 10) + (n as int) % 10);
        assert forall|i: int| 0 <= i < s.len() implies is_digit(#[trigger] s[i]) by {
            if i < front.len() {
                assert(is_digit(front[i]));
            }
        }
    }
}

/// Parses a strict decimal `u64`: digits only, no sign, rejecting
/// overflow. Returns a value exactly on well-formed input.
pub fn parse_u64(digits: &[u8]) -> (r: Option<u64>)
    ensures
        r == spec_parse_u64(digits@),
{
    let n = digits.len();
    if n == 0 {
        return None;
    }
    let mut value: u64 = 0;
    let mut i: usize = 0;
    while i < n
        invariant
            0 <= i <= n,
            n == digits@.len(),
            forall|j: int| 0 <= j < i ==> is_digit(#[trigger] digits@[j]),
            value == digits_value(digits@.take(i as int)),
        ensures
            0 <= i <= n,
            i == n ==> forall|j: int| 0 <= j < n ==> is_digit(#[trigger] digits@[j]),
            i == n ==> value == digits_value(digits@.take(n as int)),
            i < n ==> !is_digit(digits@[i as int]) || digits_value(digits@.take(i as int + 1))
                > u64::MAX,
        decreases n - i,
    {
        let b = digits[i];
        if b < 48 || b > 57 {
            break ;
        }
        let d = (b - 48) as u64;
        let next = match value.checked_mul(10) {
            Some(v) => v.checked_add(d),
            None => None,
        };
        proof {
            assert(digits@.take(i as int + 1).drop_last() =~= digits@.take(i as int));
            assert(digits@.take(i as int + 1).last() == digits@[i as int]);
            assert(digits_value(digits@.take(i as int + 1)) == digits_value(
                digits@.take(i as int),
            ) * 10 + (b - 48) as nat);
        }
        match next {
            Some(v) => {
                value = v;
            },
            None => {
                proof {
                    lemma_digits_value_grows(digits@.take(i as int + 1), digits@.take(n as int));
                }
                break ;
            },
        }
        i = i + 1;
    }
    if i == n {
        proof {
            assert(digits@.take(n as int) =~= digits@);
        }
        Some(value)
    } else {
        proof {
            if is_digit(digits@[i as int]) {
                lemma_digits_value_grows(digits@.take(i as int + 1), digits@.take(n as int));
                assert(digits@.take(n as int) =~= digits@);
            }
        }
        None
    }
}

/// A digit string's value never shrinks as digits are appended.
proof fn lemma_digits_value_grows(prefix: Seq<u8>, whole: Seq<u8>)
    requires
        prefix.len() <= whole.len(),
        prefix =~= whole.take(prefix.len() as int),
    ensures
        digits_value(prefix) <= digits_value(whole),
    decreases whole.len() - prefix.len(),
{
    if prefix.len() < whole.len() {
        let mid = whole.take(prefix.len() as int + 1);
        assert(mid.drop_last() =~= prefix);
        assert(digits_value(mid) == digits_value(prefix) * 10 + (mid.last() - 48) as nat);
        lemma_digits_value_grows(mid, whole);
    } else {
        assert(prefix =~= whole);
    }
}

} // verus!
