use tinydb::heap::Heap;

#[test]
fn create_then_insert_and_get_roundtrip() {
    let mut h = Heap::new();
    let tid = h.insert(b"hello").unwrap();
    assert_eq!(h.get(tid).unwrap(), Some(&b"hello"[..]));
}

#[test]
fn insert_enough_to_spill_into_second_page() {
    let mut h = Heap::new();
    let big = vec![7u8; 1000];
    let mut tids = Vec::new();
    for _ in 0..20 {
        tids.push(h.insert(&big).unwrap());
    }
    let spilled_to_page1 = tids.iter().any(|(page_no, _)| *page_no == 1);
    assert!(spilled_to_page1, "at least one tid must be on the second page (page_no = 1)");
}

#[test]
fn get_reads_correct_data_across_multiple_pages() {
    let mut h = Heap::new();
    let big = vec![9u8; 1000];
    let mut tids = Vec::new();
    for _ in 0..20 {
        tids.push(h.insert(&big).unwrap());
    }
    for tid in tids {
        assert_eq!(h.get(tid).unwrap(), Some(&big[..]));
    }
}

#[test]
fn num_pages_matches_actual_page_count() {
    let mut h = Heap::new();
    assert_eq!(h.num_pages(), 0);

    let big = vec![7u8; 1000];
    for _ in 0..20 {
        h.insert(&big).unwrap();
    }
    assert!(h.num_pages() >= 2, "must spill into at least a second page");
}

#[test]
fn get_with_invalid_page_no_returns_none() {
    let mut h = Heap::new();
    h.insert(b"hello").unwrap();
    assert_eq!(h.get((99, 0)).unwrap(), None);
}

#[test]
fn small_tuple_goes_back_to_first_page_with_room() {
    let mut h = Heap::new();
    let big = vec![1u8; 8000];
    let a = h.insert(&big).unwrap();
    let b = h.insert(&big).unwrap();
    let c = h.insert(b"tiny").unwrap();
    assert_eq!(a, (0, 0));
    assert_eq!(b, (1, 0));
    assert_eq!(c, (0, 1));
    assert_eq!(h.first_fit(4), 0);
    assert_eq!(h.first_fit(8000), 2);
    assert_eq!(h.num_pages(), 2);
}
