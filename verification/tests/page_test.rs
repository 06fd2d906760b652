use wasdb::page::{SlottedPage, HEADER_SIZE, SLOT_SIZE};

const TEST_PAGE_SIZE: usize = 8192;

#[test]
fn test_insert_and_get() {
    let mut page = SlottedPage::<TEST_PAGE_SIZE>::new();

    let record1 = b"Hello, World!";
    let slot1 = page.insert_record(record1).unwrap();
    assert_eq!(slot1, 0);

    let record2 = b"Another record";
    let slot2 = page.insert_record(record2).unwrap();
    assert_eq!(slot2, 1);

    assert_eq!(page.get_record(slot1).unwrap(), record1);
    assert_eq!(page.get_record(slot2).unwrap(), record2);

    let header = page.header();
    assert_eq!(header.total_slots, 2);
}

#[test]
fn new_page_has_all_space_free() {
    let page = SlottedPage::<256>::new();
    let h = page.header();
    assert_eq!(h.total_slots, 0);
    assert_eq!(h.free_space_lower as usize, HEADER_SIZE);
    assert_eq!(h.free_space_upper, 256);
    assert_eq!(h.free_space_lower, 16);
    assert_eq!(h.log_sequence_number, 0);
    assert_eq!(h.page_flags, 0);
    assert!(page.get_record(0).is_none());
    assert_eq!(page.data().len(), 256);
}

#[test]
fn insert_moves_the_free_space_bounds() {
    let mut page = SlottedPage::<256>::new();
    page.insert_record(&[7u8; 10]).unwrap();
    let h = page.header();
    assert_eq!(h.free_space_lower as usize, HEADER_SIZE + SLOT_SIZE);
    assert_eq!(h.free_space_upper, 246);
    let slots = page.slots();
    assert_eq!(slots.len(), 1);
    assert_eq!(slots[0].offset, 246);
    assert_eq!(slots[0].length, 10);
}

#[test]
fn insert_fails_when_the_page_is_full_and_leaves_it_unchanged() {
    let mut page = SlottedPage::<64>::new();
    // 64 - 16 = 48 free bytes: a 44-byte record and its 4-byte slot fit exactly
    let big = [1u8; 44];
    assert_eq!(page.insert_record(&big), Some(0));
    let before = page.data().to_vec();
    assert_eq!(page.insert_record(&[2u8]), None);
    assert_eq!(page.data(), &before[..]);
}

#[test]
fn get_record_of_a_missing_slot_is_none() {
    let mut page = SlottedPage::<128>::new();
    page.insert_record(b"x").unwrap();
    assert!(page.get_record(1).is_none());
    assert!(page.get_record(100).is_none());
}

#[test]
fn header_and_slot_round_trip() {
    let mut page = SlottedPage::<128>::new();
    page.insert_record(b"abc").unwrap();
    let mut h = page.header();
    h.log_sequence_number = 0x0102_0304_0506_0708;
    h.page_flags = 9;
    page.set_header(h);
    let back = page.header();
    assert_eq!(back.log_sequence_number, 0x0102_0304_0506_0708);
    assert_eq!(back.page_flags, 9);
    assert_eq!(back.total_slots, 1);
    let mut slot = page.slots()[0];
    slot.length = 0;
    page.set_slot(0, slot);
    assert!(page.get_record(0).is_none());
}

#[test]
fn init_resets_the_header_only() {
    let mut page = SlottedPage::<128>::new();
    page.insert_record(b"zz").unwrap();
    page.init();
    let h = page.header();
    assert_eq!(h.total_slots, 0);
    assert_eq!(h.free_space_upper, 128);
    assert_eq!(&page.data()[126..128], b"zz");
}

#[test]
fn the_smallest_page_is_a_bare_header() {
    let page = SlottedPage::<16>::new();
    let h = page.header();
    assert_eq!(h.free_space_lower, 16);
    assert_eq!(h.free_space_upper, 16);
}
