use swarm_core::file::{spans_for_range, FileStore};

#[test]
fn test_new_store_zeroed() {
    let store = FileStore::new(&vec![3usize, 2]);
    assert_eq!(store.files.len(), 2);
    assert_eq!(store.files[0], vec![0u8, 0, 0]);
    assert_eq!(store.files[1], vec![0u8, 0]);
    assert_eq!(store.total_length(), 5);
}

#[test]
fn test_write_spans_two_files() {
    // a 20-byte write at offset 0 over files of 10 and 10: the first file
    // gets the first half, the second file the rest
    let mut store = FileStore::new(&vec![10usize, 10]);
    let data: Vec<u8> = (0u8..20).collect();
    store.write_range(0, &data);
    assert_eq!(store.files[0], (0u8..10).collect::<Vec<u8>>());
    assert_eq!(store.files[1], (10u8..20).collect::<Vec<u8>>());
}

#[test]
fn test_read_after_write_round_trip() {
    let mut store = FileStore::new(&vec![7usize, 5, 9]);
    let data: Vec<u8> = (100u8..115).collect();
    store.write_range(3, &data);
    let back = store.read_range(3, 15);
    assert_eq!(back, data);
    // bytes before and after the range are untouched
    assert_eq!(store.read_range(0, 3), vec![0u8, 0, 0]);
    assert_eq!(store.read_range(18, 3), vec![0u8, 0, 0]);
}

#[test]
fn test_spans_in_declaration_order() {
    // a range spanning three files takes exactly three spans, one per
    // file, in declaration order
    let lengths = vec![10usize, 4, 10];
    let spans = spans_for_range(&lengths, 8, 20);
    assert_eq!(spans.len(), 3);
    assert_eq!(spans[0], (0usize, 8usize, 2usize));
    assert_eq!(spans[1], (1usize, 0usize, 4usize));
    assert_eq!(spans[2], (2usize, 0usize, 6usize));
    let total: usize = spans.iter().map(|s| s.2).sum();
    assert_eq!(total, 12);

    // a range inside one file takes one span
    let spans = spans_for_range(&lengths, 1, 5);
    assert_eq!(spans, vec![(0usize, 1usize, 4usize)]);

    // an empty range takes none
    assert!(spans_for_range(&lengths, 6, 6).is_empty());
}

#[test]
fn test_read_subpiece_truncation() {
    // the final subpiece of a short payload comes back truncated; a
    // request past the payload comes back empty
    let mut store = FileStore::new(&vec![20000usize]);
    let data: Vec<u8> = (0..20000u32).map(|i| (i % 251) as u8).collect();
    store.write_range(0, &data);
    let first = store.read_subpiece(0, 0, 32768);
    assert_eq!(first.len(), 16384);
    assert_eq!(first[..], data[..16384]);
    let tail = store.read_subpiece(0, 16384, 32768);
    assert_eq!(tail.len(), 20000 - 16384);
    assert_eq!(tail[..], data[16384..]);
    let beyond = store.read_subpiece(1, 0, 32768);
    assert!(beyond.is_empty());
}
