use concurrent_interner::index::MAX_LOCAL_IDS;
use concurrent_interner::serial::Interner;
use concurrent_interner::workload::{
    benchmark_label, benchmark_runs, intern_text, intern_text_serial, intern_words,
    intern_words_serial,
};
use concurrent_interner::{ConcurrentInterner, IStr};
use typed_arena::Arena;

#[test]
fn words_of_a_text_are_interned_once_each() {
    let mut interner = ConcurrentInterner::<ahash::RandomState>::new(1, Default::default());
    let mut member = interner.get_member();
    assert!(intern_text(&mut member, &mut interner, "  fn main ( ) {\n\tfn\u{a0}( }\n"));
    assert_eq!(member.len(), 6);
    member.release(&mut interner);
    for (i, word) in ["fn", "main", "(", ")", "{", "}"].iter().enumerate() {
        let istr = interner.lookup(word).unwrap();
        assert_eq!(istr.arena_local_id() as usize, i);
        assert_eq!(interner.get_string(istr), *word);
    }
    assert!(interner.lookup("").is_none());
}

#[test]
fn words_that_are_known_are_not_stored_again() {
    let mut interner = ConcurrentInterner::<ahash::RandomState>::new(2, Default::default());
    let mut a = interner.get_member();
    let mut b = interner.get_member();
    assert_eq!(intern_words(&mut a, &mut interner, &vec!["x", "y", "x"]), 3);
    assert_eq!(intern_words(&mut b, &mut interner, &vec!["y", "z"]), 2);
    assert_eq!(a.len(), 2);
    assert_eq!(b.len(), 1);
    b.release(&mut interner);
    a.release(&mut interner);
}

#[test]
fn a_full_arena_takes_no_new_word() {
    let mut interner = ConcurrentInterner::<ahash::RandomState>::new(1, Default::default());
    let mut member = interner.get_member();
    assert!(intern_text(&mut member, &mut interner, "old"));
    while member.len() < MAX_LOCAL_IDS {
        member.allocate("");
    }
    assert_eq!(intern_words(&mut member, &mut interner, &vec!["old", "new", "old"]), 1);
    assert!(!intern_text(&mut member, &mut interner, "old new"));
    assert!(intern_text(&mut member, &mut interner, "old old"));
    assert!(interner.lookup("new").is_none());
    assert_eq!(member.len(), MAX_LOCAL_IDS);
    member.release(&mut interner);
    assert!(interner.is_readable(IStr::new(0, MAX_LOCAL_IDS - 1)));
    assert_eq!(interner.get_string(IStr::new(0, MAX_LOCAL_IDS - 1)), "");
}

#[test]
fn the_serial_interner_numbers_the_words() {
    let arena = Arena::new();
    let mut interner = Interner::<ahash::RandomState>::new(&arena);
    assert!(intern_text_serial(&mut interner, "to be or not to be"));
    assert_eq!(interner.len(), 4);
    assert_eq!(interner.lookup(0), "to");
    assert_eq!(interner.lookup(3), "not");
    assert_eq!(interner.intern("or"), 2);
}

#[test]
fn the_serial_interner_takes_words_one_by_one() {
    let arena = Arena::new();
    let mut interner = Interner::<ahash::RandomState>::new(&arena);
    assert_eq!(intern_words_serial(&mut interner, &vec![]), 0);
    assert_eq!(intern_words_serial(&mut interner, &vec!["b", "a", "b", ""]), 4);
    assert_eq!(intern_words_serial(&mut interner, &vec!["c", "a"]), 2);
    assert_eq!(interner.len(), 4);
    for (i, word) in ["b", "a", "", "c"].iter().enumerate() {
        assert_eq!(interner.lookup(i as u32), *word);
        assert_eq!(interner.number_of(word), Some(i as u32));
    }
    assert_eq!(interner.number_of("d"), None);
}

#[test]
fn words_are_parted_by_white_space_alone() {
    let white_space = |u: u32| {
        matches!(
            u,
            0x9..=0xd
                | 0x20
                | 0x85
                | 0xa0
                | 0x1680
                | 0x2000..=0x200a
                | 0x2028
                | 0x2029
                | 0x202f
                | 0x205f
                | 0x3000
        )
    };
    let mut text = String::new();
    let mut expected = vec![];
    for u in 0..0x11_0000u32 {
        if let Some(c) = char::from_u32(u) {
            let (before, after) = (format!("a{}", u), format!("b{}", u));
            text.push(' ');
            text.push_str(&before);
            text.push(c);
            text.push_str(&after);
            if white_space(u) {
                expected.push(before);
                expected.push(after);
            } else {
                expected.push(format!("{}{}{}", before, c, after));
            }
        }
    }
    let arena = Arena::new();
    let mut interner = Interner::<ahash::RandomState>::new(&arena);
    assert!(intern_text_serial(&mut interner, &text));
    assert_eq!(interner.len(), expected.len());
    for (i, word) in expected.iter().enumerate() {
        assert_eq!(interner.lookup(i as u32), word);
    }
}

#[test]
fn a_text_of_white_space_has_no_words() {
    let mut interner = ConcurrentInterner::<ahash::RandomState>::new(1, Default::default());
    let mut member = interner.get_member();
    assert!(intern_text(&mut member, &mut interner, ""));
    assert!(intern_text(&mut member, &mut interner, " \n\u{3000}\t "));
    assert_eq!(member.len(), 0);
    member.release(&mut interner);
}

#[test]
fn labels_name_the_run() {
    assert_eq!(benchmark_label(1, "warm", "ahash"), "intern serial: (warm/ahash, n = 1)");
    assert_eq!(benchmark_label(0, "cold", ""), "intern parallel: (cold/, n = 0)");
    assert_eq!(benchmark_label(10, "cold", "fxhash"), "intern parallel: (cold/fxhash, n = 10)");
    for n in 0..=255u8 {
        assert!(benchmark_label(n, "", "").ends_with(&format!(", n = {})", n)));
    }
}

#[test]
fn cold_runs_come_before_warm_ones() {
    assert_eq!(
        benchmark_runs(&vec![1, 4], true, "ahash"),
        vec![
            "intern serial: (cold/ahash, n = 1)",
            "intern parallel: (cold/ahash, n = 4)",
            "intern serial: (warm/ahash, n = 1)",
            "intern parallel: (warm/ahash, n = 4)",
        ]
    );
    assert_eq!(
        benchmark_runs(&vec![8, 1], false, "fxhash"),
        vec!["intern parallel: (warm/fxhash, n = 8)", "intern serial: (warm/fxhash, n = 1)"]
    );
    assert!(benchmark_runs(&vec![], true, "ahash").is_empty());
}
