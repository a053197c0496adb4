use std::sync::Arc;

use paged_file_store::blob::{Blob, BlobOwner};
use paged_file_store::error::StoreError;
use paged_file_store::page::{check_record, Page, PageInner};
use paged_file_store::store::Inner;

fn page_with(records: &[(usize, &[u8])]) -> Vec<u8> {
    let mut data = vec![0u8; 64];
    for (at, payload) in records {
        data[*at..*at + 4].copy_from_slice(&(payload.len() as u32).to_be_bytes());
        data[*at + 4..*at + 4 + payload.len()].copy_from_slice(payload);
    }
    data
}

fn error_of(page: &Page<64>, offset: usize) -> StoreError {
    match page.bytes(offset) {
        Ok(blob) => panic!("read gave {:?}", blob.to_vec()),
        Err(e) => e,
    }
}

#[test]
fn page_reads_records_by_offset() {
    let page = Page::<64>::new(page_with(&[(0, &[1, 2, 3]), (7, &[4]), (12, &[])]));
    assert_eq!(page.bytes(0).ok().unwrap().as_slice(), &[1, 2, 3]);
    assert_eq!(page.bytes(7).ok().unwrap().as_slice(), &[4]);
    assert_eq!(page.bytes(12).ok().unwrap().len(), 0);
    assert_eq!(page.share().bytes(7).ok().unwrap().to_vec(), vec![4]);
}

#[test]
fn page_refuses_offsets_without_room_for_a_prefix() {
    let page = Page::<64>::new(vec![0u8; 64]);
    assert!(page.bytes(59).is_ok());
    assert_eq!(error_of(&page, 60), StoreError::BadOffset);
    assert_eq!(error_of(&page, 64), StoreError::BadOffset);
    assert_eq!(error_of(&page, usize::MAX), StoreError::BadOffset);
}

#[test]
fn page_refuses_records_that_run_past_its_end() {
    let mut data = vec![0u8; 64];
    data[10..14].copy_from_slice(&50u32.to_be_bytes());
    data[20..24].copy_from_slice(&51u32.to_be_bytes());
    data[30..34].copy_from_slice(&u32::MAX.to_be_bytes());
    let page = Page::<64>::new(data);
    assert_eq!(page.bytes(10).ok().unwrap().len(), 50);
    assert_eq!(error_of(&page, 11), StoreError::Truncated);
    assert_eq!(error_of(&page, 20), StoreError::Truncated);
    assert_eq!(error_of(&page, 30), StoreError::Truncated);
}

#[test]
fn check_record_decides_as_the_page_does() {
    let data = page_with(&[(0, &[1, 2, 3]), (40, &[7; 20])]);
    assert_eq!(check_record(&data, 0), Ok(()));
    assert_eq!(check_record(&data, 40), Ok(()));
    assert_eq!(check_record(&data, 60), Err(StoreError::BadOffset));
    assert_eq!(check_record(&data[..63], 40), Err(StoreError::Truncated));
    assert_eq!(check_record(&data[..4], 0), Err(StoreError::BadOffset));
    assert_eq!(check_record(&[], 0), Err(StoreError::BadOffset));
}

#[test]
fn blob_of_any_owner() {
    let owner = Arc::new(PageInner::<64>::new(page_with(&[(5, &[6, 6, 6, 6])])));
    assert_eq!(owner.as_slice().len(), 64);
    assert_eq!(owner.get_slice(5), &[6, 6, 6, 6]);
    let blob = Blob::custom(owner.clone(), 5);
    assert_eq!(blob.as_slice(), &[6, 6, 6, 6]);
    assert_eq!(blob.len(), 4);
    drop(owner);
    assert_eq!(blob.share().to_vec(), vec![6, 6, 6, 6]);
}

#[test]
fn table_takes_sealed_pages_only() {
    let mut store = Inner::<1024>::new(Vec::new()).ok().unwrap();
    store.append(&[1; 1000]).unwrap();
    assert!(!store.is_mapped(0));
    store.bytes(0).ok().unwrap();
    assert!(!store.is_mapped(0));
    store.append(&[2; 1000]).unwrap();
    store.append(&[3; 1000]).unwrap();
    assert!(store.is_mapped(0));
    assert!(store.is_mapped(1));
    assert!(!store.is_mapped(2));
    let reopened_file = store.file().clone();
    let mut reopened = Inner::<1024>::new(reopened_file).ok().unwrap();
    assert!(!reopened.is_mapped(0));
    assert!(!reopened.is_mapped(1));
    assert_eq!(reopened.bytes(1024).ok().unwrap().to_vec(), vec![2; 1000]);
    assert!(!reopened.is_mapped(0));
    assert!(reopened.is_mapped(1));
    assert_eq!(reopened.bytes(1024).ok().unwrap().to_vec(), vec![2; 1000]);
    assert_eq!(reopened.bytes(2048).ok().unwrap().to_vec(), vec![3; 1000]);
    assert!(!reopened.is_mapped(2));
    assert!(reopened.bytes(9999).is_err());
    assert!(!reopened.is_mapped(9));
}

#[test]
fn map_page_copies_a_page_out_of_the_file() {
    let mut file = vec![0u8; 1024 + 2 * 16];
    for (i, b) in file.iter_mut().enumerate() {
        *b = i as u8;
    }
    let first = Inner::<16>::map_page(&file, 0).ok().unwrap();
    let second = Inner::<16>::map_page(&file, 1).ok().unwrap();
    assert_eq!(first, file[1024..1040].to_vec());
    assert_eq!(second, file[1040..1056].to_vec());
    assert_eq!(Inner::<16>::map_page(&file, 2), Err(StoreError::Io));
    assert_eq!(Inner::<16>::map_page(&file[..1055].to_vec(), 1), Err(StoreError::Io));
    assert_eq!(Inner::<16>::map_page(&file, u64::MAX), Err(StoreError::Io));
}

#[test]
fn map_page_mut_extends_the_file() {
    let mut file = vec![9u8; 1030];
    assert_eq!(Inner::<16>::map_page_mut(&mut file, 2), Ok(1024 + 32));
    assert_eq!(file.len(), 1024 + 48);
    assert!(file[..1030].iter().all(|b| *b == 9));
    assert!(file[1030..].iter().all(|b| *b == 0));
    assert_eq!(Inner::<16>::map_page_mut(&mut file, 0), Ok(1024));
    assert_eq!(file.len(), 1024 + 48);
    assert_eq!(Inner::<16>::map_page_mut(&mut file, u64::MAX / 16), Err(StoreError::Io));
    assert_eq!(file.len(), 1024 + 48);
}
