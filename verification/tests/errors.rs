use paged_file_store::error::StoreError;
use paged_file_store::store::Inner;

fn fresh() -> Inner<1024> {
    Inner::<1024>::new(Vec::new()).ok().unwrap()
}

fn error_of(store: &mut Inner<1024>, offset: u64) -> StoreError {
    match store.bytes(offset) {
        Ok(blob) => panic!("read gave {:?}", blob.to_vec()),
        Err(e) => e,
    }
}

#[test]
fn page_not_found_beyond_the_tail_page() {
    let mut store = fresh();
    store.append(&[1, 2, 3]).unwrap();
    assert_eq!(error_of(&mut store, 1024), StoreError::PageNotFound);
    assert_eq!(error_of(&mut store, 5000), StoreError::PageNotFound);
    assert_eq!(error_of(&mut store, u64::MAX), StoreError::PageNotFound);
}

#[test]
fn page_not_found_in_the_uncommitted_tail() {
    let mut store = fresh();
    assert_eq!(error_of(&mut store, 0), StoreError::PageNotFound);
    store.append(&[1, 2, 3]).unwrap();
    assert_eq!(error_of(&mut store, 7), StoreError::PageNotFound);
    assert_eq!(error_of(&mut store, 4), StoreError::PageNotFound);
    // The four bytes at 3 lie in the committed part, but spell no real length.
    assert_eq!(error_of(&mut store, 3), StoreError::Truncated);
}

#[test]
fn bad_offset_at_the_end_of_a_sealed_page() {
    let mut store = fresh();
    store.append(&[1; 1000]).unwrap();
    store.append(&[2; 100]).unwrap();
    assert_eq!(error_of(&mut store, 1020), StoreError::BadOffset);
    assert_eq!(error_of(&mut store, 1023), StoreError::BadOffset);
    assert_eq!(store.bytes(1019).ok().unwrap().to_vec(), Vec::<u8>::new());
}

#[test]
fn truncated_where_the_prefix_promises_too_much() {
    let mut store = fresh();
    store.append(&[1; 10]).unwrap();
    store.append(&[2; 10]).unwrap();
    let mut file = store.into_file();
    file[1024..1028].copy_from_slice(&[0, 0, 0x03, 0xFD]);
    let mut store = Inner::<1024>::new(file.clone()).ok().unwrap();
    assert_eq!(error_of(&mut store, 0), StoreError::Truncated);
    assert_eq!(store.bytes(14).ok().unwrap().to_vec(), vec![2; 10]);
    file[1024..1028].copy_from_slice(&[0, 0, 0x03, 0xFC]);
    let mut store = Inner::<1024>::new(file).ok().unwrap();
    assert_eq!(store.bytes(0).ok().unwrap().len(), 1020);
}

#[test]
fn io_where_the_file_cannot_be_that_long() {
    match Inner::<1024>::new(vec![0xFF; 8]) {
        Ok(_) => panic!("opened"),
        Err(e) => assert_eq!(e, StoreError::Io),
    }
}

#[test]
fn errors_leave_the_store_usable() {
    let mut store = fresh();
    assert_eq!(store.append(&[0; 2000]), Err(StoreError::BlobTooLarge));
    assert_eq!(error_of(&mut store, 77), StoreError::PageNotFound);
    assert_eq!(store.append(&[1]), Ok(0));
    assert_eq!(store.bytes(0).ok().unwrap().to_vec(), vec![1]);
}

#[test]
fn messages() {
    assert_eq!(StoreError::BlobTooLarge.message(), "block too large for this store");
    assert_eq!(StoreError::PageNotFound.message(), "page not found");
    assert_ne!(StoreError::Io.message(), StoreError::BadOffset.message());
    assert_ne!(StoreError::Truncated.message(), StoreError::BadOffset.message());
}
