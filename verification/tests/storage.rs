use concurrent_interner::index::STORAGE_CHUNK_SIZE;
use concurrent_interner::pool::ConcurrentInternerStorage;
use concurrent_interner::storage::ConcurrentInternerMemberStorage;

#[test]
fn strings_of_every_size_read_back() {
    let mut storage = ConcurrentInternerMemberStorage::new(5);
    let strings: Vec<String> = vec![
        "first".to_string(),
        "".to_string(),
        "k".repeat(STORAGE_CHUNK_SIZE - 6),
        "k".repeat(STORAGE_CHUNK_SIZE),
        "".to_string(),
        "a".repeat(STORAGE_CHUNK_SIZE + 1),
        "h\u{e9}llo \u{1f937}".to_string(),
        "b".repeat(3 * STORAGE_CHUNK_SIZE),
        "\0".to_string(),
    ];
    let mut istrs = vec![];
    for s in &strings {
        istrs.push(storage.allocate(s));
    }
    assert_eq!(storage.len(), strings.len());
    assert_eq!(storage.arena_id(), 5);
    for (i, istr) in istrs.iter().enumerate() {
        assert_eq!(istr.arena_id(), 5);
        assert_eq!(istr.arena_local_id() as usize, i);
        assert_eq!(storage.get_str(*istr), strings[i]);
    }
}

#[test]
fn an_arena_does_not_compare_strings() {
    let mut storage = ConcurrentInternerMemberStorage::new(0);
    let a = storage.allocate("same");
    let b = storage.allocate("same");
    assert!(a != b);
    assert_eq!(storage.get_str(a), storage.get_str(b));
}

#[test]
fn a_chunk_can_be_filled_to_the_last_byte() {
    let mut storage = ConcurrentInternerMemberStorage::new(0);
    let full = "x".repeat(STORAGE_CHUNK_SIZE);
    let a = storage.allocate(&full);
    let b = storage.allocate("");
    let c = storage.allocate("y");
    assert_eq!(storage.get_str(a), full);
    assert_eq!(storage.get_str(b), "");
    assert_eq!(storage.get_str(c), "y");
}

#[test]
fn wasted_bytes_add_up() {
    let mut storage = ConcurrentInternerMemberStorage::new(0);
    assert_eq!(storage.wasted_bytes(), 0);
    storage.waste(3);
    storage.waste(4);
    assert_eq!(storage.wasted_bytes(), 7);
    storage.waste(usize::MAX - 2);
    assert_eq!(storage.wasted_bytes(), 4);
}

#[test]
fn the_pool_is_in_order_once_every_arena_is_back() {
    let mut pool = ConcurrentInternerStorage::new(4);
    assert!(pool.is_organized());
    let d = pool.take();
    let c = pool.take();
    let b = pool.take();
    let a = pool.take();
    assert_eq!(
        vec![a.arena_id(), b.arena_id(), c.arena_id(), d.arena_id()],
        vec![0, 1, 2, 3]
    );
    pool.put_back(c);
    assert!(!pool.is_organized());
    pool.put_back(a);
    pool.put_back(d);
    assert!(!pool.is_organized());
    assert_eq!(pool.get(0).arena_id(), 2);
    pool.put_back(b);
    assert!(pool.is_organized());
    for i in 0..4 {
        assert_eq!(pool.get(i).arena_id() as usize, i);
    }
}
