use rust_collections::hashmap::{Entry, HashMap};

#[test]
fn insert() {
    let mut map = HashMap::new();
    assert_eq!(map.len(), 0);
    assert!(map.is_empty());

    map.insert("foo", 42);
    assert_eq!(map.len(), 1);
    assert!(!map.is_empty());
    assert_eq!(map.get(&"foo"), Some(&42));
    assert_eq!(map.remove(&"foo"), Some(42));
    assert_eq!(map.get(&"foo"), None);
}

#[test]
fn iter() {
    let mut map = HashMap::new();
    map.insert("foo", 42);
    map.insert("bar", 43);
    map.insert("baz", 142);
    map.insert("quox", 6);
    let mut it = map.iter();
    while let Some((&k, &v)) = it.next() {
        match k {
            "foo" => assert_eq!(v, 42),
            "bar" => assert_eq!(v, 43),
            "baz" => assert_eq!(v, 142),
            "quox" => assert_eq!(v, 6),
            _ => unreachable!(),
        }
    }
    let mut count = 0;
    let mut it = map.iter();
    while it.next().is_some() {
        count += 1;
    }
    assert_eq!(count, 4);
}

#[test]
fn get_on_new_map_is_none() {
    let map: HashMap<u64, u64> = HashMap::new();
    assert_eq!(map.get(&7), None);
    assert!(!map.contains_key(&7));
}

#[test]
fn remove_on_new_map_is_none() {
    let mut map: HashMap<u64, u64> = HashMap::new();
    assert_eq!(map.remove(&7), None);
    assert_eq!(map.len(), 0);
}

#[test]
fn insert_then_get_round_trip() {
    let mut map = HashMap::new();
    for k in 0u64..50 {
        assert_eq!(map.insert(k, k * 10), None);
        assert_eq!(map.get(&k), Some(&(k * 10)));
    }
}

#[test]
fn replacement_returns_prior_value() {
    let mut map = HashMap::new();
    assert_eq!(map.insert("a", 1), None);
    assert_eq!(map.len(), 1);
    assert_eq!(map.insert("a", 2), Some(1));
    assert_eq!(map.len(), 1);
    assert_eq!(map.get(&"a"), Some(&2));
}

#[test]
fn remove_then_absent() {
    let mut map = HashMap::new();
    map.insert(1u64, "one");
    map.insert(2u64, "two");
    assert_eq!(map.remove(&1), Some("one"));
    assert!(!map.contains_key(&1));
    assert_eq!(map.len(), 1);
    assert_eq!(map.remove(&1), None);
    assert_eq!(map.len(), 1);
    assert!(map.contains_key(&2));
}

#[test]
fn growth_keeps_latest_values() {
    let mut map = HashMap::new();
    for k in 0u64..1000 {
        map.insert(k, k);
    }
    for k in (0u64..1000).step_by(3) {
        assert_eq!(map.insert(k, k + 5000), Some(k));
    }
    assert_eq!(map.len(), 1000);
    for k in 0u64..1000 {
        let want = if k % 3 == 0 { k + 5000 } else { k };
        assert_eq!(map.get(&k), Some(&want));
    }
    assert_eq!(map.get(&1000), None);
}

#[test]
fn from_pairs_keeps_last_value_of_each_key() {
    let map = HashMap::from_pairs(vec![("x", 1), ("y", 2), ("x", 3), ("z", 4), ("y", 5)]);
    assert_eq!(map.len(), 3);
    assert_eq!(map.get(&"x"), Some(&3));
    assert_eq!(map.get(&"y"), Some(&5));
    assert_eq!(map.get(&"z"), Some(&4));
}

#[test]
fn iteration_yields_each_key_once() {
    let mut map = HashMap::new();
    for k in 0u64..200 {
        map.insert(k, k + 1);
    }
    for k in (0u64..200).step_by(2) {
        map.remove(&k);
    }
    let mut seen = vec![false; 200];
    let mut count = 0;
    let mut it = map.iter();
    while let Some((&k, &v)) = it.next() {
        assert_eq!(v, k + 1);
        assert!(map.contains_key(&k));
        assert!(!seen[k as usize]);
        seen[k as usize] = true;
        count += 1;
    }
    assert_eq!(count, map.len());
    assert_eq!(count, 100);
    assert!(it.next().is_none());
}

#[test]
fn entry_or_insert_on_absent_key() {
    let mut map = HashMap::new();
    let v = map.entry("k").or_insert(7);
    assert_eq!(*v, 7);
    assert_eq!(map.get(&"k"), Some(&7));
    assert_eq!(map.len(), 1);
}

#[test]
fn entry_or_insert_on_present_key() {
    let mut map = HashMap::new();
    map.insert("k", 1);
    let v = map.entry("k").or_insert(7);
    assert_eq!(*v, 1);
    assert_eq!(map.get(&"k"), Some(&1));
    assert_eq!(map.len(), 1);
}

#[test]
fn entry_reference_writes_through() {
    let mut map = HashMap::new();
    for w in ["a", "b", "a", "c", "a"] {
        *map.entry(w).or_insert(0) += 1;
    }
    assert_eq!(map.get(&"a"), Some(&3));
    assert_eq!(map.get(&"b"), Some(&1));
    assert_eq!(map.get(&"c"), Some(&1));
    assert_eq!(map.len(), 3);
}

#[test]
fn entry_or_insert_with_is_lazy() {
    let mut map = HashMap::new();
    map.insert(5u64, 50u64);
    let v = map.entry(5).or_insert_with(|| panic!("maker called on an occupied entry"));
    assert_eq!(*v, 50);
    let v = map.entry(6).or_insert_with(|| 60);
    assert_eq!(*v, 60);
    assert_eq!(map.len(), 2);
}

#[test]
fn entry_variants() {
    let mut map = HashMap::new();
    map.insert(1u64, 10u64);
    assert!(matches!(map.entry(1), Entry::Occupied(_)));
    assert!(matches!(map.entry(2), Entry::Vacant(_)));
    match map.entry(3) {
        Entry::Vacant(e) => {
            *e.insert(30) += 1;
        }
        Entry::Occupied(_) => unreachable!(),
    }
    assert_eq!(map.get(&3), Some(&31));
}
