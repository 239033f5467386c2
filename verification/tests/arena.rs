use std::sync::Arc;

use bytes::Bytes;
use crimeline::{Cold, ColdIter, Entry, Error, Hot, Order, ReportUsage, Window};

fn collect<'a>(mut it: ColdIter<'a>) -> Vec<Entry<'a>> {
    let mut out = Vec::new();
    while let Some(e) = it.next() {
        out.push(e);
    }
    out
}

#[test]
fn add_bulk_dedup_across_individual_and_bulk() -> Result<(), Error> {
    let mut hot = Hot::new(Window::new(1000, 100))?;
    hot.add(1, 100, 1010, b"individual")?;

    let entries: Vec<(u32, u64, u64, Vec<u8>)> =
        vec![(2, 100, 1020, b"bulk_dup".to_vec()), (3, 200, 1030, b"bulk_new".to_vec())];
    hot.add_bulk(entries)?;

    let cold: Arc<Cold> = hot.freeze()?;
    assert_eq!(cold.len(), 2, "the repeated cid from the bulk call should be deduped");
    Ok(())
}

#[test]
fn add_bulk_deduplicates() -> Result<(), Error> {
    let entries: Vec<(u32, u64, u64, Vec<u8>)> = vec![
        (1, 100, 1010, b"first".to_vec()),
        (2, 100, 1020, b"second".to_vec()),
        (3, 200, 1030, b"third".to_vec()),
    ];

    let mut hot = Hot::new(Window::new(1000, 100))?;
    hot.add_bulk(entries)?;

    let cold: Arc<Cold> = hot.freeze()?;
    assert_eq!(cold.len(), 2, "duplicate cid should be skipped");

    let entries = collect(cold.iter(Order::Asc, 0));
    let (cid0, blob0) = entries[0].resolve();
    assert_eq!(cid0, 100);
    assert_eq!(blob0, b"first", "first occurrence wins");
    Ok(())
}

#[test]
fn add_bulk_empty() -> Result<(), Error> {
    let mut hot = Hot::new(Window::new(1000, 100))?;
    let entries: Vec<(u32, u64, u64, Vec<u8>)> = vec![];
    hot.add_bulk(entries)?;

    let cold: Arc<Cold> = hot.freeze()?;
    assert_eq!(cold.len(), 0);
    Ok(())
}

#[test]
fn add_bulk_equivalent_to_individual() -> Result<(), Error> {
    let entries: Vec<(u32, u64, u64, Vec<u8>)> =
        vec![(1, 100, 1010, b"a".to_vec()), (2, 200, 1020, b"b".to_vec()), (3, 300, 1005, b"c".to_vec())];

    let mut bulk = Hot::new(Window::new(1000, 100))?;
    bulk.add_bulk(entries.clone())?;

    let mut individual = Hot::new(Window::new(1000, 100))?;
    for (uid, cid, ts, blob) in &entries {
        individual.add(*uid, *cid, *ts, blob)?;
    }

    let cold_bulk: Arc<Cold> = bulk.freeze()?;
    let cold_ind: Arc<Cold> = individual.freeze()?;

    assert_eq!(cold_bulk.len(), cold_ind.len());

    let b = collect(cold_bulk.iter(Order::Asc, 0));
    let i = collect(cold_ind.iter(Order::Asc, 0));

    for (be, ie) in b.iter().zip(i.iter()) {
        assert_eq!(be.uid, ie.uid, "uid mismatch");
        assert_eq!(be.timestamp(), ie.timestamp(), "timestamp mismatch");
        assert_eq!(be.resolve(), ie.resolve(), "resolve mismatch");
    }
    Ok(())
}

#[test]
fn add_bulk_multi_chunk() -> Result<(), Error> {
    // More entries than one blob batch (256), forcing at least two chunks.
    let n: usize = 306;
    let entries: Vec<(u32, u64, u64, Vec<u8>)> = (0..n)
        .map(|i| {
            (i as u32, (1000 + i) as u64, 1000 + i as u64, format!("blob_{i}").into_bytes())
        })
        .collect();

    let mut hot = Hot::new(Window::new(0, 10000))?;
    hot.add_bulk(entries)?;

    let cold: Arc<Cold> = hot.freeze()?;
    assert_eq!(cold.len(), n);

    // spot-check first and last
    let all = collect(cold.iter(Order::Asc, 0));
    let (cid_first, _) = all[0].resolve();
    let (cid_last, _) = all[n - 1].resolve();
    assert_eq!(cid_first, 1000);
    assert_eq!(cid_last, (1000 + n - 1) as u64);
    Ok(())
}

#[test]
fn cold_empty() -> Result<(), Error> {
    let hot = Hot::new(Window::new(1000, 100))?;
    let cold: Arc<Cold> = hot.freeze()?;
    assert_eq!(cold.len(), 0);
    assert!(cold.is_empty());
    assert_eq!(collect(cold.iter(Order::Asc, 0)).len(), 0);
    Ok(())
}

#[test]
fn cold_iter_desc() -> Result<(), Error> {
    let mut hot = Hot::new(Window::new(1000, 100))?;

    hot.add(1, 100, 1010, b"a")?;
    hot.add(2, 200, 1020, b"b")?;
    hot.add(3, 300, 1005, b"c")?;

    let cold: Arc<Cold> = hot.freeze()?;

    // Desc: 200@1020, 100@1010, 300@1005
    let entries = collect(cold.iter(Order::Desc, 0));
    assert_eq!(entries[0].uid, 2);
    assert_eq!(entries[0].timestamp(), 1020);
    assert_eq!(entries[1].uid, 1);
    assert_eq!(entries[1].timestamp(), 1010);
    assert_eq!(entries[2].uid, 3);
    assert_eq!(entries[2].timestamp(), 1005);
    Ok(())
}

#[test]
fn cold_iter_start_skips_entries() -> Result<(), Error> {
    let mut hot = Hot::new(Window::new(1000, 100))?;
    hot.add(1, 100, 1010, b"a")?;
    hot.add(2, 200, 1020, b"b")?;
    hot.add(3, 300, 1050, b"c")?;
    hot.add(4, 400, 1080, b"d")?;

    let cold: Arc<Cold> = hot.freeze()?;

    // start=1020 should skip the entry at 1010
    let entries = collect(cold.iter(Order::Asc, 1020));
    assert_eq!(entries.len(), 3, "asc: should skip 1 entry before start");
    assert_eq!(entries[0].timestamp(), 1020);
    assert_eq!(entries[1].timestamp(), 1050);
    assert_eq!(entries[2].timestamp(), 1080);

    // Desc with start=1020 should yield 1080, 1050, 1020
    let entries = collect(cold.iter(Order::Desc, 1020));
    assert_eq!(entries.len(), 3, "desc: should skip 1 entry before start");
    assert_eq!(entries[0].timestamp(), 1080);
    assert_eq!(entries[1].timestamp(), 1050);
    assert_eq!(entries[2].timestamp(), 1020);
    Ok(())
}

#[test]
fn cold_resolve_deduplicated() -> Result<(), Error> {
    let mut hot = Hot::new(Window::new(1000, 100))?;

    // Duplicate cids: only the first blob should be kept.
    hot.add(1, 100, 1010, b"first")?;
    hot.add(2, 100, 1020, b"second")?;

    let cold: Arc<Cold> = hot.freeze()?;
    assert_eq!(cold.len(), 1);

    let entries = collect(cold.iter(Order::Asc, 0));
    let (cid, blob) = entries[0].resolve();
    assert_eq!(cid, 100);
    assert_eq!(blob, b"first");
    Ok(())
}

#[test]
fn cold_resolve_retrieves_blobs() -> Result<(), Error> {
    let mut hot = Hot::new(Window::new(1000, 100))?;

    hot.add(1, 100, 1010, b"blob_100")?;
    hot.add(2, 200, 1020, b"blob_200")?;
    hot.add(3, 300, 1005, b"blob_300")?;

    let cold: Arc<Cold> = hot.freeze()?;

    // Sorted by (timestamp, cid): 300@1005, 100@1010, 200@1020
    let entries = collect(cold.iter(Order::Asc, 0));
    assert_eq!(entries.len(), 3);

    let (cid0, blob0) = entries[0].resolve();
    assert_eq!(cid0, 300);
    assert_eq!(blob0, b"blob_300");

    let (cid1, blob1) = entries[1].resolve();
    assert_eq!(cid1, 100);
    assert_eq!(blob1, b"blob_100");

    let (cid2, blob2) = entries[2].resolve();
    assert_eq!(cid2, 200);
    assert_eq!(blob2, b"blob_200");
    Ok(())
}

#[test]
fn cold_usage_traits() -> Result<(), Error> {
    let mut hot = Hot::new(Window::new(1000, 100))?;
    hot.add(1, 100, 1010, b"test1")?;
    hot.add(2, 200, 1020, b"test2")?;

    let cold: Arc<Cold> = hot.freeze()?;

    let u = cold.usage();
    assert!(u.heap > 0, "cold arena should have heap usage");
    assert!(u.disk > 0, "cold arena should have disk usage");
    Ok(())
}

#[test]
fn export_import_empty() -> Result<(), Error> {
    let hot = Hot::new(Window::new(5000, 200))?;
    let cold: Arc<Cold> = hot.freeze()?;

    let buf = cold.export()?;
    let imported = Cold::import(Bytes::from(buf))?;

    assert_eq!(imported.len(), 0);
    assert_eq!(imported.span, Window::new(5000, 200));
    Ok(())
}

#[test]
fn export_import_preserves_order() -> Result<(), Error> {
    let mut hot = Hot::new(Window::new(0, 10000))?;
    hot.add(5, 50, 5000, b"e")?;
    hot.add(1, 10, 1000, b"a")?;
    hot.add(3, 30, 3000, b"c")?;
    hot.add(2, 20, 2000, b"b")?;
    hot.add(4, 40, 4000, b"d")?;

    let cold: Arc<Cold> = hot.freeze()?;

    let buf = cold.export()?;
    let imported = Cold::import(Bytes::from(buf))?;

    let entries = collect(imported.iter(Order::Asc, 0));
    for w in entries.windows(2) {
        assert!(
            w[0].timestamp() <= w[1].timestamp(),
            "out of order: {} > {}",
            w[0].timestamp(),
            w[1].timestamp(),
        );
    }
    Ok(())
}

#[test]
fn export_import_roundtrip() -> Result<(), Error> {
    let mut hot = Hot::new(Window::new(1000, 100))?;
    hot.add(1, 100, 1010, b"blob_100")?;
    hot.add(2, 200, 1020, b"blob_200")?;
    hot.add(3, 300, 1005, b"blob_300")?;

    let cold: Arc<Cold> = hot.freeze()?;

    let buf = cold.export()?;
    let imported = Cold::import(Bytes::from(buf))?;

    assert_eq!(imported.span, cold.span);
    assert_eq!(imported.span.end_exclusive(), cold.span.end_exclusive());
    assert_eq!(imported.len(), cold.len());

    let orig = collect(cold.iter(Order::Asc, 0));
    let imp = collect(imported.iter(Order::Asc, 0));

    for (o, i) in orig.iter().zip(imp.iter()) {
        assert_eq!(o.timestamp(), i.timestamp(), "timestamp mismatch");
        assert_eq!(o.uid, i.uid, "uid mismatch");
        let (o_cid, o_blob) = o.resolve();
        let (i_cid, i_blob) = i.resolve();
        assert_eq!(o_cid, i_cid, "cid mismatch");
        assert_eq!(o_blob, i_blob, "blob mismatch");
    }
    Ok(())
}

#[test]
fn hot_usage_traits() -> Result<(), Error> {
    let mut hot = Hot::new(Window::new(1000, 100))?;
    hot.add(1, 100, 1010, b"test")?;

    let u = hot.usage();
    assert!(u.heap > 0, "hot arena should have heap usage");
    assert!(u.disk > 0, "hot arena should have disk usage");
    Ok(())
}

#[test]
fn from_columns_rejects_unsorted_rows() {
    let r = Cold::from_columns(
        Window::new(0, 100),
        vec![1, 2],
        vec![10, 20],
        vec![50, 40],
        vec![b"x".to_vec(), b"y".to_vec()],
    );
    assert_eq!(r.err(), Some(Error::Unsorted));
}

#[test]
fn from_columns_rejects_duplicate_cid() {
    let r = Cold::from_columns(
        Window::new(0, 100),
        vec![1, 2],
        vec![10, 10],
        vec![40, 50],
        vec![b"x".to_vec(), b"y".to_vec()],
    );
    assert_eq!(r.err(), Some(Error::Unsorted));
}

#[test]
fn from_columns_rejects_timestamp_outside_window() {
    let r = Cold::from_columns(
        Window::new(100, 10),
        vec![1],
        vec![10],
        vec![50],
        vec![b"x".to_vec()],
    );
    assert_eq!(r.err(), Some(Error::OutOfWindow));
}

#[test]
fn import_rejects_arbitrary_bytes() {
    let r = Cold::import(Bytes::from(vec![1u8, 2, 3, 4, 5, 6, 7, 8]));
    assert_eq!(r.err(), Some(Error::Schema));
}
