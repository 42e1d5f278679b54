use concurrent_interner::serial::Interner;
use std::collections::hash_map::RandomState;
use typed_arena::Arena;

#[test]
fn strings_are_numbered_in_order() {
    let arena = Arena::new();
    let mut interner = Interner::<RandomState>::new(&arena);
    assert_eq!(interner.len(), 0);
    assert_eq!(interner.intern("a"), 0);
    assert_eq!(interner.intern("b"), 1);
    assert_eq!(interner.intern("a"), 0);
    assert_eq!(interner.intern(""), 2);
    assert_eq!(interner.intern("b"), 1);
    assert_eq!(interner.len(), 3);
    assert_eq!(interner.lookup(0), "a");
    assert_eq!(interner.lookup(1), "b");
    assert_eq!(interner.lookup(2), "");
}

#[test]
fn the_interner_keeps_its_own_copy() {
    let arena = Arena::new();
    let mut interner = Interner::<ahash::RandomState>::new(&arena);
    let idx;
    {
        let name = "short-lived".repeat(200);
        idx = interner.intern(&name);
    }
    assert_eq!(interner.lookup(idx), "short-lived".repeat(200));
}

#[test]
fn many_strings_read_back() {
    let arena = Arena::new();
    let mut interner =
        Interner::<std::hash::BuildHasherDefault<rustc_hash::FxHasher>>::new(&arena);
    for i in 0..3000u32 {
        assert_eq!(interner.intern(&format!("name{}", i)), i);
    }
    for i in 0..3000u32 {
        assert_eq!(interner.lookup(i), format!("name{}", i));
        assert_eq!(interner.intern(&format!("name{}", i)), i);
    }
}
