use crimeline::{BlobStore, BlobStoreBuilder, Error, ReportUsage};

#[test]
fn empty_store() -> Result<(), Error> {
    let store = BlobStore::new(vec![], vec![])?;
    assert_eq!(store.len(), 0);
    assert!(store.is_empty());
    assert!(store.usage().disk > 0, "empty column file has a header");
    Ok(())
}

#[test]
fn roundtrip_resolve() -> Result<(), Error> {
    let cids: Vec<u64> = vec![100, 200, 300];
    let blobs: Vec<Vec<u8>> = vec![b"aaa".to_vec(), b"bbb".to_vec(), b"ccc".to_vec()];

    let store = BlobStore::new(cids, blobs)?;
    assert_eq!(store.len(), 3);

    let (cid, blob) = store.resolve(0);
    assert_eq!(cid, 100);
    assert_eq!(blob, b"aaa");

    let (cid, blob) = store.resolve(2);
    assert_eq!(cid, 300);
    assert_eq!(blob, b"ccc");
    Ok(())
}

#[test]
fn builder_empty() -> Result<(), Error> {
    let builder = BlobStoreBuilder::new()?;
    let store = builder.build_and_sort(&vec![])?;
    assert_eq!(store.len(), 0);
    Ok(())
}

#[test]
fn builder_sorted_build() -> Result<(), Error> {
    let mut builder = BlobStoreBuilder::new()?;
    builder.append(&vec![100, 200], &vec![b"aaa".to_vec(), b"bbb".to_vec()])?;
    builder.append(&vec![300], &vec![b"ccc".to_vec()])?;

    // Reverse order: sorted[0]=physical[2], sorted[1]=physical[1], sorted[2]=physical[0]
    let store = builder.build_and_sort(&vec![2, 1, 0])?;
    assert_eq!(store.len(), 3);

    let (cid, blob) = store.resolve(0);
    assert_eq!(cid, 300);
    assert_eq!(blob, b"ccc");

    let (cid, blob) = store.resolve(2);
    assert_eq!(cid, 100);
    assert_eq!(blob, b"aaa");
    Ok(())
}

#[test]
fn builder_disk_usage() -> Result<(), Error> {
    let mut builder = BlobStoreBuilder::new()?;
    builder.append(&vec![1], &vec![b"x".to_vec()])?;
    assert!(builder.usage().disk > 0);
    Ok(())
}

#[test]
fn builder_identity() -> Result<(), Error> {
    let mut builder = BlobStoreBuilder::new()?;
    builder.append(&vec![100, 200], &vec![b"aaa".to_vec(), b"bbb".to_vec()])?;
    builder.append(&vec![300], &vec![b"ccc".to_vec()])?;

    let store = builder.build_presorted()?;
    assert_eq!(store.len(), 3);

    let (cid, blob) = store.resolve(0);
    assert_eq!(cid, 100);
    assert_eq!(blob, b"aaa");

    let (cid, blob) = store.resolve(2);
    assert_eq!(cid, 300);
    assert_eq!(blob, b"ccc");
    Ok(())
}

#[test]
fn builder_identity_empty() -> Result<(), Error> {
    let builder = BlobStoreBuilder::new()?;
    let store = builder.build_presorted()?;
    assert_eq!(store.len(), 0);
    Ok(())
}

#[test]
fn builder_single_batch_adopts_file() -> Result<(), Error> {
    let mut builder = BlobStoreBuilder::new()?;
    builder.append(&vec![7, 8], &vec![b"left".to_vec(), b"right".to_vec()])?;
    let store = builder.build_presorted()?;
    assert_eq!(store.len(), 2);
    let (cid, blob) = store.resolve(1);
    assert_eq!(cid, 8);
    assert_eq!(blob, b"right");
    Ok(())
}
