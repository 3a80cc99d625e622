use rust_collections::hashset::HashSet;
use rust_collections::key::HashKey;

#[test]
fn set_insert_reports_new_keys() {
    let mut set = HashSet::new();
    assert!(set.is_empty());
    assert!(set.insert("a"));
    assert!(set.insert("b"));
    assert!(!set.insert("a"));
    assert_eq!(set.len(), 2);
    assert!(set.contains(&"a"));
    assert!(!set.contains(&"c"));
}

#[test]
fn set_first_insert_allocates_buckets() {
    let mut set = HashSet::new();
    assert_eq!(set.capacity(), 0);
    set.insert(1u64);
    assert_eq!(set.capacity(), 64);
}

#[test]
fn set_grows_at_two_per_bucket() {
    let mut set = HashSet::new();
    for k in 0u64..128 {
        set.insert(k);
    }
    assert_eq!(set.capacity(), 64);
    set.insert(128);
    assert_eq!(set.capacity(), 128);
    assert_eq!(set.len(), 129);
    for k in 0u64..129 {
        assert!(set.contains(&k));
    }
}

#[test]
fn set_with_capacity_allocates() {
    let set: HashSet<u64> = HashSet::with_capacity(10);
    assert_eq!(set.capacity(), 10);
    assert!(set.is_empty());
    assert!(!set.contains(&3));
}

#[test]
fn set_contains_on_new_set_is_false() {
    let set: HashSet<u64> = HashSet::new();
    assert!(!set.contains(&3));
}

#[test]
fn set_remove_then_absent() {
    let mut set = HashSet::new();
    set.insert(1u64);
    set.insert(2u64);
    assert!(set.remove(&1));
    assert!(!set.contains(&1));
    assert_eq!(set.len(), 1);
    assert!(!set.remove(&1));
    assert_eq!(set.len(), 1);
}

#[test]
fn set_from_vec_drops_duplicates() {
    let set = HashSet::from_vec(vec!["x", "y", "x", "z"]);
    assert_eq!(set.len(), 3);
    assert!(set.contains(&"x"));
    assert!(set.contains(&"y"));
    assert!(set.contains(&"z"));
}

#[test]
fn set_iteration_yields_each_key_once() {
    let mut set = HashSet::new();
    for k in 0u64..300 {
        set.insert(k);
    }
    let mut seen = vec![false; 300];
    let mut count = 0;
    let mut it = set.iter();
    while let Some(&k) = it.next() {
        assert!(!seen[k as usize]);
        seen[k as usize] = true;
        count += 1;
    }
    assert_eq!(count, 300);
    assert_eq!(count, set.len());
}

#[test]
fn keys_compare_by_bytes_and_hash_alike() {
    let a = String::from("same");
    let b = String::from("same");
    let x: &str = a.as_str();
    let y: &str = b.as_str();
    assert!(x.same_key(&y));
    assert!(!x.same_key(&"other"));
    assert_eq!(x.hash_code(), y.hash_code());
    assert!(7u64.same_key(&7));
    assert!(!7u64.same_key(&8));
    assert_eq!(7u64.hash_code(), 7u64.hash_code());
    assert_ne!("ab".hash_code(), "ba".hash_code());
}

#[test]
fn set_of_owned_strings() {
    let mut books = HashSet::new();
    assert!(books.insert("A Dance With Dragons".to_string()));
    assert!(books.insert("To Kill a Mockingbird".to_string()));
    assert!(books.insert("The Odyssey".to_string()));
    assert!(books.insert("The Great Gatsby".to_string()));
    assert!(!books.insert("The Odyssey".to_string()));
    assert_eq!(books.len(), 4);
    assert!(!books.contains(&"The Winds of Winter".to_string()));
    assert!(books.remove(&"The Odyssey".to_string()));
    assert!(!books.contains(&"The Odyssey".to_string()));
    assert_eq!(books.len(), 3);
}
