use paged_file_store::error::StoreError;
use paged_file_store::store::Inner;

fn fresh() -> Inner<1024> {
    Inner::<1024>::new(Vec::new()).ok().unwrap()
}

#[test]
fn largest_blob_fills_a_page() {
    let mut store = fresh();
    assert_eq!(store.append(&[1; 1019]), Ok(0));
    assert_eq!(store.size(), 1023);
    assert_eq!(store.append(&[]), Ok(1024));
    assert_eq!(store.bytes(0).ok().unwrap().to_vec(), vec![1; 1019]);
    assert_eq!(store.bytes(1024).ok().unwrap().to_vec(), Vec::<u8>::new());
}

#[test]
fn largest_blob_after_another_takes_a_fresh_page() {
    let mut store = fresh();
    assert_eq!(store.append(&[3]), Ok(0));
    assert_eq!(store.append(&[1; 1019]), Ok(1024));
    assert_eq!(store.size(), 2047);
    assert_eq!(store.append(&[4]), Ok(2048));
}

#[test]
fn blob_of_page_size_less_four_is_refused() {
    let mut store = fresh();
    assert_eq!(store.append(&[0; 1020]), Err(StoreError::BlobTooLarge));
    assert_eq!(store.size(), 0);
}

#[test]
fn blob_of_page_size_less_three_is_refused() {
    let mut store = fresh();
    assert_eq!(store.append(&[0; 1021]), Err(StoreError::BlobTooLarge));
    assert_eq!(store.append(&[0; 5000]), Err(StoreError::BlobTooLarge));
    assert_eq!(store.size(), 0);
    assert_eq!(store.append(&[7; 3]), Ok(0));
}

#[test]
fn record_that_would_end_on_the_boundary_moves_on() {
    let mut store = fresh();
    assert_eq!(store.append(&[1; 996]), Ok(0));
    assert_eq!(store.size(), 1000);
    // 1000 + 4 + 20 == 1024
    assert_eq!(store.append(&[2; 20]), Ok(1024));
    assert_eq!(store.size(), 1048);
    assert!(store.is_mapped(0));
    assert_eq!(store.append(&[3; 5]), Ok(1048));
    assert_eq!(store.bytes(1024).ok().unwrap().to_vec(), vec![2; 20]);
}

#[test]
fn record_that_ends_one_short_of_the_boundary_stays() {
    let mut store = fresh();
    assert_eq!(store.append(&[1; 996]), Ok(0));
    assert_eq!(store.append(&[2; 19]), Ok(1000));
    assert_eq!(store.size(), 1023);
    assert!(!store.is_mapped(0));
    assert_eq!(store.file().len(), 2048);
    assert_eq!(store.append(&[]), Ok(1024));
    assert_eq!(store.file().len(), 3072);
}

#[test]
fn empty_blob() {
    let mut store = fresh();
    assert_eq!(store.append(&[]), Ok(0));
    assert_eq!(store.append(&[]), Ok(4));
    assert_eq!(store.size(), 8);
    assert_eq!(store.bytes(0).ok().unwrap().len(), 0);
    assert_eq!(store.bytes(4).ok().unwrap().len(), 0);
}

#[test]
fn smallest_page_size() {
    let mut store = Inner::<8>::new(Vec::new()).ok().unwrap();
    assert_eq!(store.file().len(), 1032);
    assert_eq!(store.append(&[1, 2, 3]), Ok(0));
    assert_eq!(store.append(&[4, 5, 6]), Ok(8));
    assert_eq!(store.append(&[7, 8, 9, 10]), Err(StoreError::BlobTooLarge));
    assert_eq!(store.append(&[]), Ok(16));
    assert_eq!(store.bytes(8).ok().unwrap().to_vec(), vec![4, 5, 6]);
    assert_eq!(store.size(), 20);
}

#[test]
fn open_pads_a_short_file() {
    let store = Inner::<1024>::new(vec![0, 0, 0]).ok().unwrap();
    assert_eq!(store.file(), &vec![0u8; 2048]);
    assert_eq!(store.size(), 0);
}

#[test]
fn open_cuts_a_long_file() {
    let mut file = vec![0u8; 5000];
    file[7] = 9;
    file[4000] = 1;
    let store = Inner::<1024>::new(file).ok().unwrap();
    assert_eq!(store.size(), 9);
    assert_eq!(store.file().len(), 2048);
}

#[test]
fn open_fills_up_to_the_tail_page() {
    let mut file = vec![0u8; 1500];
    file[6] = 0x08;
    file[7] = 0x01;
    file[1499] = 5;
    let store = Inner::<1024>::new(file).ok().unwrap();
    assert_eq!(store.size(), 2049);
    assert_eq!(store.current_page(), 2);
    assert_eq!(store.current_offset_in_page(), 1);
    assert_eq!(store.file().len(), 1024 + 3 * 1024);
    assert_eq!(store.file()[1499], 5);
    assert!(store.file()[1500..].iter().all(|b| *b == 0));
}

#[test]
fn open_with_size_on_a_boundary_keeps_the_tail_page() {
    let mut file = vec![0u8; 1024];
    file[6] = 0x08;
    let mut store = Inner::<1024>::new(file).ok().unwrap();
    assert_eq!(store.size(), 2048);
    assert_eq!(store.current_page(), 2);
    assert_eq!(store.file().len(), 1024 + 3 * 1024);
    assert_eq!(store.append(&[1]), Ok(2048));
}

#[test]
fn close_page_seals_the_tail() {
    let mut store = fresh();
    assert_eq!(store.append(&[1, 2]), Ok(0));
    assert_eq!(store.close_page(), Ok(()));
    assert_eq!(store.size(), 1024);
    assert_eq!(store.current_page(), 1);
    assert_eq!(store.current_offset_in_page(), 0);
    assert_eq!(store.file().len(), 3072);
    assert!(store.is_mapped(0));
    assert!(!store.is_mapped(1));
    assert_eq!(store.bytes(0).ok().unwrap().to_vec(), vec![1, 2]);
    assert_eq!(store.append(&[3]), Ok(1024));
}
