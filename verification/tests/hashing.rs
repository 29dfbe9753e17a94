use ixa_index::hash128::{one_shot_128, one_shot_64};

#[test]
fn hashes_strings() {
    let a = one_shot_128(&"hello");
    let b = one_shot_128(&"hello");
    let c = one_shot_128(&"world");
    assert_eq!(a, b);
    assert_ne!(a, c);
}

#[derive(Hash)]
struct S {
    x: u32,
    y: String,
}

/// The struct's hashable content, as the framed string tuple the library
/// digests.
fn digest_s(s: &S) -> u128 {
    let content: Vec<String> = vec![s.x.to_string(), s.y.clone()];
    one_shot_128(&content)
}

#[test]
fn hashes_structs() {
    let h1 = digest_s(&S { x: 1, y: "a".into() });
    let h2 = digest_s(&S { x: 1, y: "a".into() });
    assert_eq!(h1, h2);
}

#[test]
fn string_and_str_agree() {
    let owned = String::from("hello");
    assert_eq!(one_shot_128(&owned), one_shot_128(&"hello"));
}

#[test]
fn digest_is_not_the_input() {
    // A hasher that handed its input back unchanged would fail here.
    assert_ne!(one_shot_128(&42u64), 42u128);
    assert_ne!(one_shot_128(&0u64), 0u128);
}

#[test]
fn one_shot_64_is_low_bits() {
    for x in [0u64, 1, 42, u64::MAX] {
        assert_eq!(one_shot_64(&x), one_shot_128(&x) as u64);
    }
}

#[test]
fn distinctness_over_sample() {
    // A large sample of distinct pseudo-random values: no two may share a
    // 128-bit digest.
    let mut seen = std::collections::HashSet::new();
    let mut values = std::collections::HashSet::new();
    let mut state: u64 = 0x9e3779b97f4a7c15;
    let mut count = 0u32;
    while count < 10_000 {
        state = state.wrapping_mul(6364136223846793005).wrapping_add(1442695040888963407);
        if values.insert(state) {
            assert!(seen.insert(one_shot_128(&state)), "digest collision");
            count += 1;
        }
    }
    assert_eq!(seen.len(), 10_000);
}

#[test]
fn composite_bytes_are_framed() {
    // ["ab", "c"] and ["a", "bc"] must digest differently: each part is
    // length-prefixed before hashing.
    let v1: Vec<String> = vec!["ab".into(), "c".into()];
    let v2: Vec<String> = vec!["a".into(), "bc".into()];
    assert_ne!(one_shot_128(&v1), one_shot_128(&v2));
    let w1: Vec<u64> = vec![7, 8];
    let w2: Vec<u64> = vec![8, 7];
    assert_ne!(one_shot_128(&w1), one_shot_128(&w2));
}
