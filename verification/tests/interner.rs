use concurrent_interner::index::STORAGE_CHUNK_SIZE;
use concurrent_interner::{ConcurrentInterner, ConcurrentInternerMember, FrozenInterner, IStr};
use std::collections::hash_map::DefaultHasher;
use std::hash::{BuildHasher, Hasher};
use std::sync::atomic::{AtomicU64, Ordering};
use std::sync::{Arc, RwLock};

/// The three steps of interning, with the interner locked only where it has to be.
fn intern_shared(
    interner: &RwLock<ConcurrentInterner<ahash::RandomState>>,
    member: &mut ConcurrentInternerMember,
    s: &str,
) -> IStr {
    if let Some(istr) = interner.read().unwrap().lookup(s) {
        return istr;
    }
    let istr = member.allocate(s);
    member.publish(&mut interner.write().unwrap(), istr)
}

fn check_insertion(mut vs: Vec<String>, n: u8, near_huge_idxs: Vec<u8>, huge_idxs: Vec<u8>) {
    if vs.len() == 0 {
        return;
    }
    let chunk_size = STORAGE_CHUNK_SIZE;
    for i in near_huge_idxs.iter().take(3) {
        let near_huge_idx = *i as usize;
        if near_huge_idx < vs.len() {
            vs[near_huge_idx] = (0..(chunk_size - 1 - near_huge_idx)).map(|_| 'k').collect();
        }
    }
    for i in huge_idxs.iter().take(3) {
        let huge_idx = *i as usize;
        if huge_idx < vs.len() {
            vs[huge_idx] = (0..(chunk_size + 1 + huge_idx)).map(|_| 'a').collect();
        }
    }

    let n = (n % 8) + 1;
    let interner = RwLock::new(ConcurrentInterner::<ahash::RandomState>::new(n, Default::default()));
    let v: Vec<Vec<IStr>> = crossbeam::scope(|scope| {
        let interner_ref = &interner;
        let vsref = &vs;
        let mut handles = vec![];
        for _ in 0..n {
            handles.push(scope.spawn(move |_| {
                let mut vout = Vec::with_capacity(vsref.len());
                let mut member = interner_ref.write().unwrap().get_member();
                for s in vsref.iter() {
                    vout.push(intern_shared(interner_ref, &mut member, s));
                }
                member.release(&mut interner_ref.write().unwrap());
                vout
            }));
        }
        handles
            .into_iter()
            .map(|h| h.join().expect("Thread error!"))
            .collect()
    })
    .expect("crossbeam::scope had an error");

    let interner = interner.into_inner().unwrap();
    let istrs0 = &v[0];
    assert!(istrs0.len() == vs.len());
    for istrs in v.get(1..).expect("v.len() != 0").iter() {
        assert!(istrs.len() == vs.len());
        for (i1, i2) in istrs0.iter().zip(istrs.iter()) {
            assert!(*i1 == *i2);
        }
    }
    for istrs in v.iter() {
        for (istr, s) in istrs.iter().zip(vs.iter()) {
            assert!(interner.get_string(*istr) == *s);
        }
    }
}

#[test]
fn test_insertion() {
    let mut x: u32 = 3;
    let mut next = move || {
        x = x.wrapping_mul(1664525).wrapping_add(1013904223);
        x >> 16
    };
    for round in 0..40 {
        let len = next() % 40;
        let mut vs = vec![];
        for _ in 0..len {
            let word_len = next() % 24;
            let mut s = String::new();
            for _ in 0..word_len {
                s.push(['a', 'b', '\0', '\u{e9}', '\u{1f937}'][(next() % 5) as usize]);
            }
            vs.push(s);
        }
        let near = vec![(next() % 40) as u8, (next() % 40) as u8, 0];
        let huge = vec![(next() % 40) as u8, (next() % 40) as u8];
        check_insertion(vs, round as u8, near, huge);
    }
}

#[test]
fn members_agree_and_strings_read_back() {
    let mut interner = ConcurrentInterner::<ahash::RandomState>::new(2, Default::default());
    let mut m = interner.get_member();
    let mut n = interner.get_member();
    assert!(!interner.has_member());
    let x = m.intern(&mut interner, "x");
    let y = n.intern(&mut interner, "y");
    assert!(n.intern(&mut interner, "x") == x);
    assert!(m.intern(&mut interner, "y") == y);
    assert!(m.intern(&mut interner, "x") == x);
    assert!(x != y);
    assert_eq!((x.arena_id(), x.arena_local_id()), (1, 0));
    assert_eq!((y.arena_id(), y.arena_local_id()), (0, 0));
    assert_eq!(m.len(), 1);
    assert_eq!(n.len(), 1);
    m.release(&mut interner);
    assert!(!interner.is_organized());
    n.release(&mut interner);
    assert!(interner.is_organized());
    assert_eq!(interner.get_string(x), "x");
    assert_eq!(interner.get_string(y), "y");
}

#[test]
fn the_loser_of_a_race_takes_the_winners_istr() {
    let mut interner = ConcurrentInterner::<ahash::RandomState>::new(2, Default::default());
    let mut m = interner.get_member();
    let mut n = interner.get_member();
    assert!(interner.lookup("word").is_none());
    let stored_by_m = m.allocate("word");
    let by_n = n.intern(&mut interner, "word");
    let by_m = m.publish(&mut interner, stored_by_m);
    assert!(stored_by_m != by_n);
    assert!(by_m == by_n);
    assert!(interner.lookup("word") == Some(by_n));
    assert_eq!(m.wasted_bytes(), 4);
    assert_eq!(n.wasted_bytes(), 0);
    n.release(&mut interner);
    m.release(&mut interner);
    assert_eq!(interner.get_string(by_m), "word");
    assert_eq!(interner.get_string(stored_by_m), "word");
}

#[test]
fn the_winner_of_a_race_keeps_its_istr() {
    let mut interner = ConcurrentInterner::<ahash::RandomState>::new(1, Default::default());
    let mut m = interner.get_member();
    let stored = m.allocate("\0nul");
    assert!(interner.lookup("\0nul").is_none());
    assert!(m.publish(&mut interner, stored) == stored);
    assert!(interner.lookup("\0nul") == Some(stored));
    assert!(interner.lookup("nul").is_none());
    assert_eq!(m.wasted_bytes(), 0);
    m.release(&mut interner);
}

#[test]
fn part_of_the_shelf_can_be_read_while_a_member_is_out() {
    let mut interner = ConcurrentInterner::<ahash::RandomState>::new(2, Default::default());
    let first = interner.get_member();
    let mut second = interner.get_member();
    let in_zero = second.intern(&mut interner, "zero");
    assert!(!interner.is_readable(in_zero));
    second.release(&mut interner);
    assert!(interner.is_organized());
    assert!(interner.is_readable(in_zero));
    assert!(!interner.is_readable(IStr::new(0, 1)));
    assert!(!interner.is_readable(IStr::new(1, 0)));
    assert_eq!(interner.get_string(in_zero), "zero");
    first.release(&mut interner);
    assert!(!interner.is_readable(IStr::new(1, 0)));
}

#[test]
fn an_empty_string_fits_a_full_chunk() {
    let mut interner = ConcurrentInterner::<ahash::RandomState>::new(1, Default::default());
    let mut m = interner.get_member();
    let full = "x".repeat(STORAGE_CHUNK_SIZE);
    let a = m.intern(&mut interner, &full);
    let b = m.intern(&mut interner, "");
    assert!(m.intern(&mut interner, "") == b);
    m.release(&mut interner);
    assert_eq!(interner.get_string(a), full);
    assert_eq!(interner.get_string(b), "");
}

#[test]
fn a_frozen_interner_reads_the_same() {
    let mut interner = ConcurrentInterner::<ahash::RandomState>::new(3, Default::default());
    let mut istrs = vec![];
    for k in 0..3 {
        let mut m = interner.get_member();
        for j in 0..50 {
            let s = format!("{}-{}", k % 2, j);
            istrs.push((m.intern(&mut interner, &s), s));
        }
        m.release(&mut interner);
    }
    for (istr, s) in &istrs {
        assert_eq!(interner.get_string(*istr), *s);
    }
    let frozen = FrozenInterner::from(interner);
    for (istr, s) in &istrs {
        assert!(frozen.is_readable(*istr));
        assert_eq!(frozen.get_str(*istr), s);
    }
    assert!(!frozen.is_readable(IStr::new(3, 0)));
    assert_eq!(frozen.entries().len(), 100);
}

#[test]
fn freeze_and_from_are_the_same() {
    let mut interner = ConcurrentInterner::<ahash::RandomState>::new(1, Default::default());
    let mut m = interner.get_member();
    let x = m.intern(&mut interner, "x");
    m.release(&mut interner);
    let mut other = ConcurrentInterner::<ahash::RandomState>::new(1, Default::default());
    let mut m = other.get_member();
    assert!(m.intern(&mut other, "x") == x);
    m.release(&mut other);
    let frozen = interner.freeze();
    let from = FrozenInterner::from(other);
    assert_eq!(frozen.get_str(x), "x");
    assert_eq!(from.get_str(x), "x");
    assert!(frozen.entries() == from.entries());
}

#[test]
fn any_hash_builder_will_do() {
    let mut interner = ConcurrentInterner::<
        std::hash::BuildHasherDefault<rustc_hash::FxHasher>,
    >::new(2, Default::default());
    let mut m = interner.get_member();
    let mut n = interner.get_member();
    let mut istrs = vec![];
    for k in 0..2000 {
        let s = format!("word{}", k % 1000);
        let istr = if k % 3 == 0 {
            m.intern(&mut interner, &s)
        } else {
            n.intern(&mut interner, &s)
        };
        istrs.push((istr, s));
    }
    assert_eq!(m.len() + n.len(), 1000);
    m.release(&mut interner);
    n.release(&mut interner);
    for k in 0..1000 {
        assert!(istrs[k].0 == istrs[k + 1000].0);
        assert_eq!(interner.get_string(istrs[k].0), istrs[k].1);
    }
}

#[test]
fn entries_list_every_binding_once() {
    let mut interner = ConcurrentInterner::<ahash::RandomState>::new(1, Default::default());
    assert!(interner.entries().is_empty());
    let mut m = interner.get_member();
    let mut expected = vec![];
    for s in ["b", "a", "", "h\u{e9}", "a", "b"] {
        let istr = m.intern(&mut interner, s);
        if !expected.contains(&(s.to_string(), istr)) {
            expected.push((s.to_string(), istr));
        }
    }
    m.release(&mut interner);
    let mut entries = interner.entries();
    assert_eq!(entries.len(), 4);
    entries.sort_by(|a, b| a.0.cmp(&b.0));
    expected.sort_by(|a, b| a.0.cmp(&b.0));
    assert!(entries == expected);
}

/// A hash builder that seeds each hasher anew, so that equal strings have unequal hashes.
#[derive(Clone, Default)]
struct Unsteady {
    seed: Arc<AtomicU64>,
}

impl BuildHasher for Unsteady {
    type Hasher = DefaultHasher;

    fn build_hasher(&self) -> DefaultHasher {
        let mut hasher = DefaultHasher::new();
        hasher.write_u64(self.seed.fetch_add(1, Ordering::SeqCst));
        hasher
    }
}

#[test]
fn strings_read_back_whatever_the_hash_builder_does() {
    let mut interner = ConcurrentInterner::<Unsteady>::new(2, Default::default());
    let mut m = interner.get_member();
    let mut n = interner.get_member();
    let mut istrs = vec![];
    for k in 0..500 {
        let s = format!("word{}", k % 100);
        istrs.push((m.intern(&mut interner, &s), s.clone()));
        istrs.push((n.intern(&mut interner, &s), s));
    }
    m.release(&mut interner);
    n.release(&mut interner);
    for (istr, s) in &istrs {
        assert_eq!(interner.get_string(*istr), *s);
    }
    for (s, istr) in interner.entries() {
        assert_eq!(interner.get_string(istr), s);
    }
}
