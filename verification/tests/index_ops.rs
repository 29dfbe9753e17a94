use ixa_index::hash128::one_shot_128;
use ixa_index::type_erased_index as erased;
use ixa_index::typed_index::{Index, IndexError, TypeErasedIndex};

fn sorted_ids(ids: &Vec<u64>) -> Vec<u64> {
    let mut v = ids.clone();
    v.sort();
    v
}

#[test]
fn scenario_strings() {
    let mut idx: Index<String> = Index::new();
    assert!(idx.insert_entity(&"Alice".to_string(), 1));
    assert!(idx.insert_entity(&"Alice".to_string(), 2));
    let ids = idx.get(&"Alice".to_string()).expect("entry for Alice");
    assert_eq!(sorted_ids(ids), vec![1, 2]);
    assert!(!idx.has_key(&"Bob".to_string()));
    assert!(idx.get(&"Bob".to_string()).is_none());
}

#[test]
fn insertion_idempotence() {
    let mut idx: Index<u64> = Index::new();
    assert!(idx.insert_entity(&7, 99));
    assert!(!idx.insert_entity(&7, 99));
    assert_eq!(idx.get(&7).expect("entry").len(), 1);
}

#[test]
fn typed_erased_consistency() {
    let mut idx: Index<String> = Index::new();
    let key = String::from("color");
    assert!(idx.insert_entity(&key, 5));
    let hash = one_shot_128(&key);
    assert!(idx.has_hash(hash));
    let ids = idx.get_with_hash(hash).expect("entry by hash");
    assert!(ids.contains(&5));
}

#[test]
fn erased_insert_never_creates() {
    let mut idx: Index<String> = Index::new();
    let hash = one_shot_128(&String::from("absent"));
    assert!(!idx.has_hash(hash));
    assert_eq!(idx.insert_entity_with_hash(hash, 1), Err(IndexError::NoSuchEntry));
    assert_eq!(idx.insert_entity_with_hash(hash, 2), Err(IndexError::NoSuchEntry));
    assert!(!idx.has_hash(hash));
    assert!(idx.get_with_hash(hash).is_none());
}

#[test]
fn erased_insert_extends_existing() {
    let mut idx: Index<String> = Index::new();
    let key = String::from("city");
    idx.insert_entity(&key, 1);
    let hash = one_shot_128(&key);
    assert_eq!(idx.insert_entity_with_hash(hash, 2), Ok(true));
    assert_eq!(idx.insert_entity_with_hash(hash, 2), Ok(false));
    let ids = idx.get_with_hash(hash).expect("entry");
    assert_eq!(sorted_ids(ids), vec![1, 2]);
}

#[test]
fn insert_value_whole_set() {
    let mut idx: Index<u64> = Index::new();
    assert_eq!(idx.insert_value(11, vec![3, 1, 3, 2]), Ok(()));
    let ids = idx.get(&11).expect("entry");
    assert_eq!(sorted_ids(ids), vec![1, 2, 3]);
    assert_eq!(idx.insert_value(11, vec![9]), Err(IndexError::DuplicateKey));
    assert_eq!(sorted_ids(idx.get(&11).expect("entry")), vec![1, 2, 3]);
}

#[test]
fn typed_get_mut() {
    let mut idx: Index<u64> = Index::new();
    idx.insert_entity(&4, 10);
    if let Some(ids) = idx.get_mut(&4) {
        ids.push(11);
    } else {
        panic!("entry expected");
    }
    assert_eq!(sorted_ids(idx.get(&4).expect("entry")), vec![10, 11]);
    assert!(idx.get_mut(&5).is_none());
}

#[test]
fn fully_erased_index() {
    let mut idx = erased::Index::new();
    let key = String::from("pet");
    let hash = one_shot_128(&key);
    assert!(idx.get_with_hash(hash).is_none());
    assert_eq!(idx.insert(&key, vec![8, 8, 9]), Ok(()));
    assert_eq!(sorted_ids(idx.get(&key).expect("entry")), vec![8, 9]);
    assert_eq!(idx.insert_with_hash(hash, vec![1]), Err(IndexError::DuplicateKey));
    if let Some(ids) = idx.get_with_hash_mut(hash) {
        ids.push(10);
    } else {
        panic!("entry expected");
    }
    assert_eq!(sorted_ids(idx.get_mut(&key).expect("entry")), vec![8, 9, 10]);
}

#[test]
fn many_keys_stay_separate() {
    let mut idx: Index<u64> = Index::new();
    for k in 0..200u64 {
        assert!(idx.insert_entity(&k, k + 1000));
    }
    for k in 0..200u64 {
        let ids = idx.get(&k).expect("entry");
        assert_eq!(ids, &vec![k + 1000]);
    }
    assert!(!idx.has_key(&200));
}
