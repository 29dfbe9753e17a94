use ixa_index::multi_index::{canonicalize, Permutation, TagOrderError};
use ixa_index::typed_index::Index;

/// Order keys standing for the type names `&'static str`, `f64` and
/// `usize`, which sort in that textual order.
const KEY_STR: u64 = 0;
const KEY_F64: u64 = 1;
const KEY_USIZE: u64 = 2;

fn positions(perm: &Permutation, n: usize) -> Vec<usize> {
    // Reordering the identity markers exposes, at each canonical
    // position, the caller position whose value lands there.
    let markers: Vec<usize> = (0..n).collect();
    perm.reorder(markers)
}

#[test]
fn test_sorted_tuple() {
    let a = (1, 2.0, "a");
    let tags = vec![KEY_USIZE, KEY_F64, KEY_STR];
    let (canonical, perm) = canonicalize(&tags).expect("distinct keys");
    assert_eq!(canonical, vec![KEY_STR, KEY_F64, KEY_USIZE]);
    assert_eq!(positions(&perm, 3), vec![2, 1, 0]);
    let sorted = (a.2, a.1, a.0);
    let unsorted: (usize, f64, &'static str) = (sorted.2, sorted.1, sorted.0);
    let expected = ("a", 2.0, 1);
    assert_eq!(a, unsorted);
    assert_eq!(sorted, expected);
    println!("original: {:?}, sorted: {:?}", a, sorted);
}

/// Order keys standing for the tag names `TagA`, `TagB` and `TagC`.
const KEY_TAG_A: u64 = 1;
const KEY_TAG_B: u64 = 2;
const KEY_TAG_C: u64 = 3;

#[test]
fn test_sort_by_tag() {
    let values = (123u8, "hi", 3.14);
    let tags = vec![KEY_TAG_C, KEY_TAG_A, KEY_TAG_B];
    let (canonical, perm) = canonicalize(&tags).expect("distinct keys");
    assert_eq!(canonical, vec![KEY_TAG_A, KEY_TAG_B, KEY_TAG_C]);
    assert_eq!(positions(&perm, 3), vec![1, 2, 0]);
    let sorted = (values.1, values.2, values.0);
    let expected_sorted = ("hi", 3.14, 123);
    let back = perm.unreorder(positions(&perm, 3));
    assert_eq!(back, vec![0, 1, 2]);
    let unsorted: (u8, &'static str, f64) = (expected_sorted.2, expected_sorted.0, expected_sorted.1);
    println!(
        "expected: {:?}\nsorted:   {:?}\nunsorted: {:?}",
        expected_sorted, sorted, unsorted
    );
    assert_eq!(sorted, expected_sorted);
    assert_eq!(unsorted, values);
}

#[test]
fn round_trip_all_orderings() {
    // For every caller ordering of one tag set and several value tuples,
    // unreorder(reorder(v)) == v.
    let orderings: [[u64; 3]; 6] = [
        [10, 20, 30],
        [10, 30, 20],
        [20, 10, 30],
        [20, 30, 10],
        [30, 10, 20],
        [30, 20, 10],
    ];
    let tuples: [[u64; 3]; 3] = [[7, 8, 9], [0, 0, 0], [u64::MAX, 1, 2]];
    for tags in orderings.iter() {
        let (_, perm) = canonicalize(&tags.to_vec()).expect("distinct keys");
        for v in tuples.iter() {
            let reordered = perm.reorder(v.to_vec());
            assert_eq!(perm.unreorder(reordered), v.to_vec());
        }
        let strings: Vec<String> = vec!["x".into(), "y".into(), "z".into()];
        assert_eq!(perm.unreorder(perm.reorder(strings.clone())), strings);
    }
}

#[test]
fn canonical_order_ignores_caller_order() {
    let (c1, _) = canonicalize(&vec![30, 10, 20]).expect("distinct keys");
    let (c2, _) = canonicalize(&vec![10, 20, 30]).expect("distinct keys");
    let (c3, _) = canonicalize(&vec![20, 30, 10]).expect("distinct keys");
    assert_eq!(c1, vec![10, 20, 30]);
    assert_eq!(c1, c2);
    assert_eq!(c1, c3);
}

#[test]
fn equal_tags_are_rejected() {
    assert!(matches!(canonicalize(&vec![5, 7, 5]), Err(TagOrderError::DuplicateTag)));
    assert!(matches!(canonicalize(&vec![4, 4]), Err(TagOrderError::DuplicateTag)));
}

#[test]
fn empty_and_single_composites() {
    let (c0, p0) = canonicalize(&vec![]).expect("empty set");
    assert_eq!(c0, Vec::<u64>::new());
    assert_eq!(p0.len(), 0);
    assert_eq!(p0.reorder(Vec::<u64>::new()), Vec::<u64>::new());
    let (c1, p1) = canonicalize(&vec![9]).expect("one tag");
    assert_eq!(c1, vec![9]);
    assert_eq!(p1.reorder(vec![42u64]), vec![42u64]);
}

#[test]
fn composite_two_orderings_one_entry() {
    // One composite index over (Region, Age), requested in either order:
    // both orderings canonicalize alike, and a value inserted under one
    // ordering is found under the other.
    let key_region: u64 = 2;
    let key_age: u64 = 1;

    let (canon1, perm1) = canonicalize(&vec![key_region, key_age]).expect("distinct keys");
    let (canon2, perm2) = canonicalize(&vec![key_age, key_region]).expect("distinct keys");
    assert_eq!(canon1, canon2);

    let mut idx: Index<Vec<String>> = Index::new();

    // Insert under caller order (Region = "X", Age = "30").
    let tuple1: Vec<String> = vec!["X".into(), "30".into()];
    let canonical_tuple1 = perm1.reorder(tuple1);
    assert!(idx.insert_entity(&canonical_tuple1, 17));

    // Query under caller order (Age = "30", Region = "X").
    let tuple2: Vec<String> = vec!["30".into(), "X".into()];
    let canonical_tuple2 = perm2.reorder(tuple2);
    assert_eq!(canonical_tuple1, canonical_tuple2);
    let ids = idx.get(&canonical_tuple2).expect("same entry");
    assert_eq!(ids, &vec![17]);
}
