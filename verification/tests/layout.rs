use paged_file_store::layout::{align, is_valid_page_size, pages, round_up_to, ALIGN, HEADER_SIZE};
use paged_file_store::store::Inner;

#[test]
fn constants() {
    assert_eq!(HEADER_SIZE, 1024);
    assert_eq!(ALIGN, 8);
}

#[test]
fn pages_counts_whole_and_started_pages() {
    assert_eq!(pages(0, 1024), 0);
    assert_eq!(pages(1, 1024), 1);
    assert_eq!(pages(1024, 1024), 1);
    assert_eq!(pages(1025, 1024), 2);
    assert_eq!(pages(3 * 1024, 1024), 3);
    assert_eq!(pages(u64::MAX, 1), u64::MAX);
    assert_eq!(pages(u64::MAX, 2), 1 << 63);
    assert_eq!(pages(7, 3), 3);
}

#[test]
fn round_up_to_gives_the_next_multiple() {
    assert_eq!(round_up_to(0, 8), 0);
    assert_eq!(round_up_to(1, 8), 8);
    assert_eq!(round_up_to(8, 8), 8);
    assert_eq!(round_up_to(9, 8), 16);
    assert_eq!(round_up_to(1000, 1024), 1024);
    assert_eq!(round_up_to(2049, 1024), 3072);
    assert_eq!(round_up_to(10, 3), 12);
    assert_eq!(round_up_to(u64::MAX, 1), u64::MAX);
}

#[test]
fn align_gives_the_next_multiple_of_eight() {
    assert_eq!(align(0), 0);
    assert_eq!(align(1), 8);
    assert_eq!(align(7), 8);
    assert_eq!(align(8), 8);
    assert_eq!(align(9), 16);
    assert_eq!(align(1021), 1024);
    assert_eq!(align(u64::MAX - 7), u64::MAX - 7);
    assert_eq!(align(u64::MAX - 8), u64::MAX - 7);
}

#[test]
fn align_agrees_with_round_up_to() {
    for x in 0..100u64 {
        assert_eq!(align(x), round_up_to(x, 8));
        assert_eq!(round_up_to(x, 8), pages(x, 8) * 8);
    }
}

#[test]
fn valid_page_sizes() {
    assert!(is_valid_page_size(8));
    assert!(is_valid_page_size(1024));
    assert!(is_valid_page_size(1048576));
    assert!(!is_valid_page_size(0));
    assert!(!is_valid_page_size(4));
    assert!(!is_valid_page_size(1020));
    assert!(!is_valid_page_size(1025));
}

#[test]
fn offsets_split_into_page_and_rest() {
    assert_eq!(Inner::<1024>::page(0), 0);
    assert_eq!(Inner::<1024>::page(1023), 0);
    assert_eq!(Inner::<1024>::page(1024), 1);
    assert_eq!(Inner::<1024>::page(5000), 4);
    assert_eq!(Inner::<1024>::offset_within_page(0), 0);
    assert_eq!(Inner::<1024>::offset_within_page(1023), 1023);
    assert_eq!(Inner::<1024>::offset_within_page(1024), 0);
    assert_eq!(Inner::<1024>::offset_within_page(5000), 904);
    assert_eq!(Inner::<1024>::offset_of_page(0), 0);
    assert_eq!(Inner::<1024>::offset_of_page(4), 4096);
    assert_eq!(Inner::<1048576>::page(1048576 * 3 + 17), 3);
    assert_eq!(Inner::<1048576>::offset_within_page(1048576 * 3 + 17), 17);
    assert_eq!(Inner::<1048576>::offset_of_page(3), 1048576 * 3);
    for offset in [0u64, 1, 1023, 1024, 99999] {
        let page = Inner::<1024>::page(offset);
        let rest = Inner::<1024>::offset_within_page(offset) as u64;
        assert_eq!(Inner::<1024>::offset_of_page(page) + rest, offset);
    }
}
