use concurrent_interner::index::{
    ArenaLocalIndex, CompositeIndex, IStr, MAX_LOCAL_IDS, MAX_STORE_INDEX,
};

#[test]
fn test_istr_size() {
    assert!(std::mem::size_of::<IStr>() == 4);
}

#[test]
fn test_arena_local_index_roundtrip() {
    let mut x: u32 = 1;
    let mut samples: Vec<u32> = vec![0, 1, 2, 255, 256, 0x7fff_ffff, 0xffff_ffff, 1 << 31];
    for _ in 0..1000 {
        x = x.wrapping_mul(1664525).wrapping_add(1013904223);
        samples.push(x);
    }
    for i in samples {
        let i = i & !(1 << 31);
        assert_eq!(Some(i), ArenaLocalIndex::new_chunk_index(i).chunk_index());
        assert_eq!(Some(i), ArenaLocalIndex::new_huge_index(i).huge_index());
    }
}

#[test]
fn an_arena_local_index_counts_one_thing() {
    let chunk = ArenaLocalIndex::new_chunk_index(7);
    assert!(!chunk.is_huge());
    assert_eq!(chunk.huge_index(), None);
    assert_eq!(chunk.get_index_unchecked(), 7);
    let huge = ArenaLocalIndex::new_huge_index(7);
    assert!(huge.is_huge());
    assert_eq!(huge.chunk_index(), None);
    assert_eq!(huge.get_index_unchecked(), 7);
    assert!(chunk != huge);
    assert!(chunk == ArenaLocalIndex::new_chunk_index(7));
    assert!(huge == ArenaLocalIndex::new_huge_index(7));
    assert!(huge != ArenaLocalIndex::new_huge_index(8));
    assert_eq!(ArenaLocalIndex::new_huge_index(MAX_STORE_INDEX - 1).huge_index(), Some(0x7fff_ffff));
}

#[test]
fn an_istr_gives_back_its_two_ids() {
    for (arena, local) in [(0u8, 0usize), (1, 0), (0, 1), (255, MAX_LOCAL_IDS - 1), (17, 123456)] {
        let istr = IStr::new(arena, local);
        assert_eq!(istr.arena_id(), arena);
        assert_eq!(istr.arena_local_id() as usize, local);
    }
    assert!(IStr::new(1, 2) == IStr::new(1, 2));
    assert!(IStr::new(1, 2) != IStr::new(2, 1));
}

#[test]
fn a_composite_index_gives_back_its_parts() {
    let chunk = CompositeIndex::new_chunk_index(3, 4000, 168);
    assert_eq!(chunk.chunk_info(), Some((3, 4000, 168)));
    assert_eq!(chunk.huge_index(), None);
    let huge = CompositeIndex::new_huge_index(3);
    assert_eq!(huge.chunk_info(), None);
    assert_eq!(huge.huge_index(), Some(3));
}
