use rustreexo::accumulator::index::{evicted, lookup, names, reindex, same_hash, IndexEntry};
use rustreexo::accumulator::transform::transform;

fn hash(i: u8) -> [u8; 32] {
    let mut h = [0u8; 32];
    h[0] = i + 1;
    h[31] = 0xaa;
    h
}

fn index_of(n: u8) -> Vec<IndexEntry> {
    (0..n).map(|i| IndexEntry { hash: hash(i), position: i as u64 }).collect()
}

#[test]
fn same_hash_compares_all_bytes() {
    let a = hash(1);
    let mut b = hash(1);
    assert!(same_hash(&a, &b));
    b[31] = 0;
    assert!(!same_hash(&a, &b));
    let mut c = hash(1);
    c[0] = 0;
    assert!(!same_hash(&a, &c));
}

#[test]
fn names_finds_positions() {
    assert!(names(&vec![1, 4, 9], 4));
    assert!(names(&vec![1, 4, 9], 9));
    assert!(!names(&vec![1, 4, 9], 5));
    assert!(!names(&vec![], 0));
}

#[test]
fn lookup_finds_the_latest_entry() {
    let mut index = index_of(4);
    assert_eq!(lookup(&index, &hash(2)), Some(2));
    assert_eq!(lookup(&index, &hash(7)), None);
    index.push(IndexEntry { hash: hash(2), position: 9 });
    assert_eq!(lookup(&index, &hash(2)), Some(9));
    assert_eq!(lookup(&vec![], &hash(2)), None);
}

#[test]
fn evicted_lists_the_deleted_in_the_order_of_the_index() {
    let mut index = index_of(4);
    index.reverse();
    assert_eq!(evicted(&index, &vec![0, 3]), vec![hash(3), hash(0)]);
    assert_eq!(evicted(&index, &vec![]), Vec::<[u8; 32]>::new());
}

#[test]
fn reindex_moves_the_entries_with_the_leaves() {
    let index = index_of(8);
    let dels = vec![0, 1, 2];
    let rows = transform(dels.clone(), 8, 3);
    let after = reindex(&index, &dels, &rows, 5, 3);
    let plain: Vec<([u8; 32], u64)> = after.iter().map(|e| (e.hash, e.position)).collect();
    assert_eq!(
        plain,
        vec![(hash(3), 3), (hash(4), 0), (hash(5), 1), (hash(6), 4), (hash(7), 2)]
    );
}

#[test]
fn reindex_keeps_what_does_not_move() {
    let index = index_of(7);
    let dels = vec![6];
    let rows = transform(dels.clone(), 7, 3);
    let after = reindex(&index, &dels, &rows, 6, 3);
    let plain: Vec<([u8; 32], u64)> = after.iter().map(|e| (e.hash, e.position)).collect();
    assert_eq!(plain, (0..6u8).map(|i| (hash(i), i as u64)).collect::<Vec<_>>());
}
