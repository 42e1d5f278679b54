use concurrent_interner::sso::{ByteSlice, SSOStringRef, SIZE_IN_BYTES};

fn samples() -> Vec<String> {
    let mut all: Vec<String> = vec![
        "".to_string(),
        "a".to_string(),
        "b".to_string(),
        "\0".to_string(),
        "a\0".to_string(),
        "\0a".to_string(),
        "a\0b".to_string(),
        "0123456789abcde".to_string(),
        "0123456789abcdef".to_string(),
        "0123456789abcdeg".to_string(),
        "0123456789abcdefg".to_string(),
        "0123456789abcdefh".to_string(),
        "\0123456789abcdef".to_string(),
        "h\u{e9}llo".to_string(),
        "\u{1f937}\u{1f3fd}".to_string(),
        "\u{1f937}\u{1f3fd}\u{1f937}\u{1f3fd}\u{1f937}".to_string(),
    ];
    let mut x: u32 = 7;
    for _ in 0..60 {
        x = x.wrapping_mul(1664525).wrapping_add(1013904223);
        let len = (x >> 24) % 20;
        let mut s = String::new();
        for k in 0..len {
            s.push(if (x >> k) & 1 == 0 { 'a' } else { '\0' });
        }
        all.push(s);
    }
    all
}

#[test]
fn test_sso_stringref_eq1() {
    for a in samples() {
        for b in samples() {
            assert!((a == b) == (SSOStringRef::new(&a) == SSOStringRef::new(&b)));
        }
    }
}

#[test]
fn test_sso_stringref_eq2() {
    for s in samples() {
        assert!(SSOStringRef::new(&s) == SSOStringRef::new(&s.clone()));
    }
}

#[test]
fn a_reference_gives_back_the_bytes() {
    for s in samples() {
        assert_eq!(SSOStringRef::new(&s).as_bytes(), s.as_bytes());
        assert_eq!(SSOStringRef::new_unchecked(s.as_bytes()).as_bytes(), s.as_bytes());
    }
}

#[test]
fn short_strings_without_zeros_are_inline() {
    assert!(SSOStringRef::new("a").has_inline_data());
    assert_eq!(SIZE_IN_BYTES, 2 * std::mem::size_of::<usize>());
    assert!(SSOStringRef::new(&"x".repeat(SIZE_IN_BYTES)).has_inline_data());
    assert!(!SSOStringRef::new(&"x".repeat(SIZE_IN_BYTES + 1)).has_inline_data());
    assert!(!SSOStringRef::new("a\0").has_inline_data());
    assert!(!SSOStringRef::new("").has_inline_data());
}

#[test]
fn a_byte_slice_knows_its_length() {
    let slice = ByteSlice::new(b"hello");
    assert_eq!(slice.len(), 5);
    assert_eq!(slice.as_bytes(), b"hello");
    assert_eq!(ByteSlice::new(b"").len(), 0);
}
