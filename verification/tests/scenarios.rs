use std::sync::Arc;

use arrow::array::{BinaryArray, RecordBatch, UInt32Array, UInt64Array};
use arrow::datatypes::{DataType, Field, Schema};
use bytes::Bytes;
use crimeline::{Cold, Error, Hot, Order, Relationships, Sharding, Slice, Timeline, Window};
use parquet::arrow::ArrowWriter;
use parquet::file::metadata::KeyValue;
use parquet::file::properties::WriterProperties;

fn freeze_s1() -> Arc<Cold> {
    let mut hot = Hot::new(Window::new(1000, 100)).unwrap();
    hot.add(1, 100, 1010, b"a").unwrap();
    hot.add(2, 200, 1020, b"b").unwrap();
    hot.add(3, 300, 1005, b"c").unwrap();
    hot.freeze().unwrap()
}

#[test]
fn three_entries_sorted_on_freeze() {
    let cold = freeze_s1();
    let mut it = cold.iter(Order::Asc, 0);
    let mut got: Vec<(u32, u64, u64, Vec<u8>)> = Vec::new();
    while let Some(e) = it.next() {
        let (cid, blob) = e.resolve();
        got.push((e.uid, e.timestamp(), cid, blob.to_vec()));
    }
    assert_eq!(
        got,
        vec![
            (3, 1005, 300, b"c".to_vec()),
            (1, 1010, 100, b"a".to_vec()),
            (2, 1020, 200, b"b".to_vec()),
        ],
    );
}

#[test]
fn dedup_across_add_and_add_bulk() {
    let mut hot = Hot::new(Window::new(1000, 100)).unwrap();
    hot.add(1, 100, 1010, b"individual").unwrap();
    hot.add_bulk(vec![(2, 100, 1020, b"bulk_dup".to_vec()), (3, 200, 1030, b"bulk_new".to_vec())])
        .unwrap();
    let cold = hot.freeze().unwrap();
    assert_eq!(cold.len(), 2);

    let mut it = cold.iter(Order::Asc, 0);
    while let Some(e) = it.next() {
        let (cid, blob) = e.resolve();
        if cid == 100 {
            assert_eq!(blob, b"individual", "first writer wins for a duplicated cid");
        }
    }
}

#[test]
fn skip_half() {
    let cold = freeze_s1();

    let mut asc = cold.iter(Order::Asc, 1020);
    let first = asc.next().expect("one entry at or past 1020");
    let (cid, _) = first.resolve();
    assert_eq!((first.uid, first.timestamp(), cid), (2, 1020, 200));
    assert!(asc.next().is_none());

    let mut desc = cold.iter(Order::Desc, 1020);
    let only = desc.next().expect("one entry at or past 1020");
    assert_eq!(only.timestamp(), 1020);
    assert!(desc.next().is_none());
}

#[test]
fn export_import_round_trip_matches() -> Result<(), Error> {
    let mut hot = Hot::new(Window::new(0, 10000))?;
    hot.add(5, 50, 5000, b"e")?;
    hot.add(1, 10, 1000, b"a")?;
    hot.add(3, 30, 3000, b"c")?;
    hot.add(2, 20, 2000, b"b")?;
    hot.add(4, 40, 4000, b"d")?;
    let cold = hot.freeze()?;

    let buf = cold.export()?;
    let imported = Cold::import(Bytes::from(buf))?;

    assert_eq!(imported.span, cold.span);
    assert_eq!(imported.len(), cold.len());

    let mut a = cold.iter(Order::Asc, 0);
    let mut b = imported.iter(Order::Asc, 0);
    loop {
        match (a.next(), b.next()) {
            (Some(x), Some(y)) => {
                assert_eq!(x.uid, y.uid);
                assert_eq!(x.timestamp(), y.timestamp());
                assert_eq!(x.resolve(), y.resolve());
            },
            (None, None) => break,
            _ => panic!("iterators of the original and imported arenas differ in length"),
        }
    }
    Ok(())
}

fn arena_at(epoch: u64, uid_base: u32, n: usize) -> Arc<Cold> {
    let mut hot = Hot::new(Window::new(epoch, 100)).unwrap();
    for i in 0..n {
        hot.add(uid_base + i as u32, epoch * 100 + i as u64, epoch + i as u64, b"p").unwrap();
    }
    hot.freeze().unwrap()
}

fn drain_keys(slice: &mut Slice) -> Vec<(u64, u64)> {
    let mut out = Vec::new();
    while let Some(e) = slice.next() {
        let (cid, _) = e.resolve();
        out.push((e.timestamp(), cid));
    }
    out
}

#[test]
fn snapshot_isolation_under_add_and_remove() {
    let mut timeline = Timeline::new(vec![arena_at(1000, 10, 3), arena_at(2000, 20, 3)]);

    let mut before_any = timeline.iter(0, Order::Asc);
    let pre_expected = drain_keys(&mut timeline.iter(0, Order::Asc));

    timeline.add(arena_at(3000, 30, 2));
    let mut after_add = timeline.iter(0, Order::Asc);

    timeline.remove(1000);
    let mut after_remove = timeline.iter(0, Order::Asc);

    // A reader that started before any mutation sees exactly the pre-state.
    assert_eq!(drain_keys(&mut before_any), pre_expected);

    // A reader that started after the add sees the new arena too.
    let with_added = drain_keys(&mut after_add);
    assert_eq!(with_added.len(), 8);
    for w in with_added.windows(2) {
        assert!(w[0] < w[1], "(epoch, timestamp, cid) sequence must increase");
    }

    // A reader that started after the remove no longer sees the first epoch.
    let post = drain_keys(&mut after_remove);
    assert_eq!(post.len(), 5);
    for (ts, _) in &post {
        assert!(*ts >= 2000);
    }
}

#[test]
fn follow_and_block_filter() {
    let viewer: u32 = 1;
    let mut rel = Relationships::new(Sharding::S2);
    rel.follows.add(viewer, 10);
    rel.follows.add(viewer, 20);
    rel.follows.add(viewer, 30);
    rel.blocks.add(viewer, 99);

    let authors: Vec<u32> = vec![10, 20, 99, 50, 30, 20];
    let mut hot = Hot::new(Window::new(1000, 100)).unwrap();
    for (i, uid) in authors.iter().enumerate() {
        hot.add(*uid, i as u64, 1000 + i as u64, b"post").unwrap();
    }
    let cold = hot.freeze().unwrap();
    let timeline = Timeline::new(vec![cold]);

    let mut yielded: Vec<u32> = Vec::new();
    let mut slice = timeline.iter(0, Order::Asc);
    while let Some(e) = slice.next() {
        if rel.follows.contains(viewer, e.uid) && !rel.blocks.contains(viewer, e.uid) {
            yielded.push(e.uid);
        }
    }
    assert_eq!(yielded, vec![10, 20, 30, 20], "followed, unblocked authors in timeline order");
}

#[test]
fn sort_duality_on_values() {
    let values: Vec<u64> = vec![5, 3, 8, 3, 1, 9];

    let mut asc = values.clone();
    Order::Asc.sort_unstable_by_key(&mut asc);
    assert!(asc.windows(2).all(|w| w[0] <= w[1]), "ascending sort not monotonic");

    let mut desc = values.clone();
    Order::Desc.sort_unstable_by_key(&mut desc);
    assert!(desc.windows(2).all(|w| w[0] >= w[1]), "descending sort not monotonic");

    desc.reverse();
    assert_eq!(desc, asc, "descending sort reversed equals ascending sort");
}

#[test]
fn range_duality_on_bounds() {
    let mut fwd: Vec<usize> = Vec::new();
    let mut it = Order::Asc.range(3..9);
    while let Some(i) = it.next() {
        fwd.push(i);
    }
    assert_eq!(fwd, vec![3, 4, 5, 6, 7, 8]);

    let mut rev: Vec<usize> = Vec::new();
    let mut it = Order::Desc.range(3..9);
    while let Some(i) = it.next() {
        rev.push(i);
    }
    rev.reverse();
    assert_eq!(fwd, rev, "both directions cover the same indices");

    let mut empty = Order::Asc.range(5..5);
    assert!(empty.next().is_none());
}

#[test]
fn ingest_order_does_not_change_the_frozen_rows() {
    let entries: Vec<(u32, u64, u64, Vec<u8>)> =
        vec![(1, 100, 1010, b"a".to_vec()), (2, 200, 1020, b"b".to_vec()), (3, 300, 1005, b"c".to_vec())];
    let mut reversed = entries.clone();
    reversed.reverse();

    let mut h1 = Hot::new(Window::new(1000, 100)).unwrap();
    h1.add_bulk(entries).unwrap();
    let mut h2 = Hot::new(Window::new(1000, 100)).unwrap();
    h2.add_bulk(reversed).unwrap();

    let c1 = h1.freeze().unwrap();
    let c2 = h2.freeze().unwrap();

    let mut i1 = c1.iter(Order::Asc, 0);
    let mut i2 = c2.iter(Order::Asc, 0);
    loop {
        match (i1.next(), i2.next()) {
            (Some(x), Some(y)) => {
                assert_eq!(x.uid, y.uid);
                assert_eq!(x.timestamp(), y.timestamp());
                assert_eq!(x.resolve(), y.resolve());
            },
            (None, None) => break,
            _ => panic!("the two frozen arenas differ in length"),
        }
    }
}

#[test]
fn add_then_remove_restores_membership() {
    let mut map = crimeline::UserMap::new(Sharding::S4);
    map.add(8, 9);
    assert!(!map.contains(2, 3));

    map.add(2, 3);
    map.remove(2, 3);

    assert!(!map.contains(2, 3), "the added edge is gone again");
    assert!(map.contains(8, 9), "unrelated edges survive");
    assert_eq!(map.len(), 1);
}

#[test]
fn import_rejects_missing_metadata() -> Result<(), Error> {
    let schema = Arc::new(Schema::new(vec![
        Field::new("uid", DataType::UInt32, false),
        Field::new("cid", DataType::UInt64, false),
        Field::new("timestamp", DataType::UInt64, false),
        Field::new("blob", DataType::Binary, false),
    ]));
    let batch = RecordBatch::try_new(
        schema.clone(),
        vec![
            Arc::new(UInt32Array::from(vec![1u32])),
            Arc::new(UInt64Array::from(vec![10u64])),
            Arc::new(UInt64Array::from(vec![1000u64])),
            Arc::new(BinaryArray::from_vec(vec![b"x"])),
        ],
    )
    .unwrap();
    let mut writer = ArrowWriter::try_new(Vec::new(), schema, None).unwrap();
    writer.write(&batch).unwrap();
    let buf = writer.into_inner().unwrap();

    let r = Cold::import(Bytes::from(buf));
    assert_eq!(r.err(), Some(Error::MissingMetadata));
    Ok(())
}

#[test]
fn import_rejects_malformed_metadata() -> Result<(), Error> {
    let schema = Arc::new(Schema::new(vec![
        Field::new("uid", DataType::UInt32, false),
        Field::new("cid", DataType::UInt64, false),
        Field::new("timestamp", DataType::UInt64, false),
        Field::new("blob", DataType::Binary, false),
    ]));
    let batch = RecordBatch::try_new(
        schema.clone(),
        vec![
            Arc::new(UInt32Array::from(vec![1u32])),
            Arc::new(UInt64Array::from(vec![10u64])),
            Arc::new(UInt64Array::from(vec![1000u64])),
            Arc::new(BinaryArray::from_vec(vec![b"x"])),
        ],
    )
    .unwrap();
    let props = WriterProperties::builder()
        .set_key_value_metadata(Some(vec![
            KeyValue::new("crimeline.epoch".to_string(), Some("not-a-number".to_string())),
            KeyValue::new("crimeline.duration".to_string(), Some("100".to_string())),
        ]))
        .build();
    let mut writer = ArrowWriter::try_new(Vec::new(), schema, Some(props)).unwrap();
    writer.write(&batch).unwrap();
    let buf = writer.into_inner().unwrap();

    let r = Cold::import(Bytes::from(buf));
    assert_eq!(r.err(), Some(Error::BadMetadata));
    Ok(())
}
