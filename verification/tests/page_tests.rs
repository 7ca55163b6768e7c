use tinydb::page::{Page, PAGE_SIZE};

#[test]
fn insert_and_get_roundtrip() {
    let mut p = Page::new();
    let slot = p.insert_tuple(b"hello").unwrap();
    assert_eq!(p.get_tuple(slot), Some(&b"hello"[..]));
}

#[test]
fn multiple_inserts_keep_correct_data_per_slot() {
    let mut p = Page::new();
    let s1 = p.insert_tuple(b"first").unwrap();
    let s2 = p.insert_tuple(b"second-longer").unwrap();
    let s3 = p.insert_tuple(b"3").unwrap();

    assert_eq!(p.get_tuple(s3), Some(&b"3"[..]));
    assert_eq!(p.get_tuple(s1), Some(&b"first"[..]));
    assert_eq!(p.get_tuple(s2), Some(&b"second-longer"[..]));
}

#[test]
fn insert_fails_when_full_and_does_not_corrupt_state() {
    let mut p = Page::new();
    let big = vec![7u8; 1000];
    let mut count = 0;
    while p.insert_tuple(&big).is_some() {
        count += 1;
    }
    assert!(count > 0, "at least one insert fits before the page is full");

    let slots_before = p.num_slots();
    assert_eq!(p.insert_tuple(&big), None);
    assert_eq!(p.num_slots(), slots_before, "a failed insert must not add a slot");
}

#[test]
fn get_tuple_out_of_range_returns_none() {
    let p = Page::new();
    assert_eq!(p.get_tuple(0), None);
}

#[test]
fn num_slots_tracks_successful_inserts_only() {
    let mut p = Page::new();
    assert_eq!(p.num_slots(), 0);
    p.insert_tuple(b"a").unwrap();
    p.insert_tuple(b"b").unwrap();
    assert_eq!(p.num_slots(), 2);
}

#[test]
fn delete_tuple_marks_slot_as_dead() {
    let mut p = Page::new();
    let slot = p.insert_tuple(b"Hello").unwrap();
    assert_eq!(p.get_tuple(slot), Some(&b"Hello"[..]));
    let deleted = p.delete_tuple(slot).unwrap();
    assert_eq!(deleted, b"Hello");
    assert_eq!(p.get_tuple(slot), None);
}

#[test]
fn delete_does_not_reclaim_free_space() {
    let mut p = Page::new();
    let slot = p.insert_tuple(b"Hello").unwrap();
    let before = p.free_space();
    p.delete_tuple(slot).unwrap();
    let after = p.free_space();
    assert_eq!(before, after, "deleting does not reclaim space");
}

#[test]
fn delete_same_slot_twice() {
    let mut p = Page::new();
    let slot = p.insert_tuple(b"Hello").unwrap();
    assert!(p.delete_tuple(slot).is_some());
    assert_eq!(p.delete_tuple(slot), None);
}

#[test]
fn delete_out_of_range() {
    let mut p = Page::new();
    let _slot = p.insert_tuple(b"Hello").unwrap();
    assert_eq!(p.delete_tuple(99), None);
}

#[test]
fn free_space_counts_slot_entry_and_bytes() {
    let mut p = Page::new();
    assert_eq!(p.free_space(), PAGE_SIZE);
    p.insert_tuple(b"abc").unwrap();
    assert_eq!(p.free_space(), PAGE_SIZE - 4 - 3);
}

#[test]
fn exact_fit_succeeds_and_one_more_byte_fails() {
    let mut p = Page::new();
    let full = vec![1u8; PAGE_SIZE - 4];
    let mut q = Page::new();
    let too_big = vec![1u8; PAGE_SIZE - 3];
    assert_eq!(q.insert_tuple(&too_big), None);
    assert_eq!(q.num_slots(), 0);
    let s = p.insert_tuple(&full).unwrap();
    assert_eq!(p.free_space(), 0);
    assert_eq!(p.get_tuple(s), Some(&full[..]));
    assert_eq!(p.insert_tuple(b""), None);
}

#[test]
fn empty_tuple_is_stored() {
    let mut p = Page::new();
    let s = p.insert_tuple(b"").unwrap();
    assert_eq!(p.get_tuple(s), Some(&b""[..]));
    assert_eq!(p.delete_tuple(s), Some(Vec::new()));
    assert_eq!(p.get_tuple(s), None);
}

#[test]
fn image_layout_is_little_endian_slots_and_tail_data() {
    let mut p = Page::new();
    p.insert_tuple(b"xy").unwrap();
    let off = PAGE_SIZE - 2;
    assert_eq!(p.data[0], (off % 256) as u8);
    assert_eq!(p.data[1], (off / 256) as u8);
    assert_eq!(p.data[2], 2);
    assert_eq!(p.data[3], 0);
    assert_eq!(&p.data[off..], b"xy");
}

#[test]
fn page_read_back_from_its_bytes() {
    let mut p = Page::new();
    p.insert_tuple(b"hello").unwrap();
    p.insert_tuple(b"world!").unwrap();
    let q = Page::from_bytes(p.data).unwrap();
    assert_eq!(q.num_slots(), 2);
    assert_eq!(q.get_tuple(0), Some(&b"hello"[..]));
    assert_eq!(q.get_tuple(1), Some(&b"world!"[..]));
    assert_eq!(q.free_space(), p.free_space());
}

#[test]
fn zeroed_bytes_read_back_as_empty_page() {
    let q = Page::from_bytes([0u8; PAGE_SIZE]).unwrap();
    assert_eq!(q.num_slots(), 0);
    assert_eq!(q.free_space(), PAGE_SIZE);
}

#[test]
fn bytes_with_tuple_past_the_end_are_refused() {
    let mut data = [0u8; PAGE_SIZE];
    data[0..2].copy_from_slice(&8190u16.to_le_bytes());
    data[2..4].copy_from_slice(&10u16.to_le_bytes());
    assert!(Page::from_bytes(data).is_none());
}

#[test]
fn bytes_with_tuple_inside_directory_are_refused() {
    let mut data = [0u8; PAGE_SIZE];
    data[0..2].copy_from_slice(&2u16.to_le_bytes());
    data[2..4].copy_from_slice(&1u16.to_le_bytes());
    assert!(Page::from_bytes(data).is_none());
}
