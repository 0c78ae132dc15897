use fixed_hashmap::{Entry, HashMap};

#[test]
fn default_new() {
    let m: HashMap<usize, usize> = HashMap::new();
    assert_eq!(m.len(), 0);
    assert_eq!(m.cap(), 100);
    assert_eq!(m.get(&1), None);

    let mut count = 0;
    for (_, _) in m.iter() {
        count += 1;
    }
    assert_eq!(count, 0);
}

#[test]
fn test_common() {
    let mut m = HashMap::with_capacity(3);
    assert_eq!(m.cap(), 3);
    assert_eq!(m.len(), 0);

    // insert key 1, get result
    assert_eq!(m.insert(1, 100), (true, None));
    match m.get(&1) {
        Some(v) => assert_eq!(*v, 100),
        None => panic!("panicure!"),
    }

    // insert more keys
    assert_eq!(m.insert(2, 200), (true, None));
    assert_eq!(m.insert(3, 300), (true, None));
    assert_eq!(m.len(), 3);

    // the capacity is 3 and all buckets are taken: a new key does not fit
    assert_eq!(m.insert(4, 400), (false, None));

    // an existing key can still be updated
    assert_eq!(m.insert(1, 1000), (true, Some(100)));
    match m.get(&1) {
        Some(v) => assert_eq!(*v, 1000),
        None => panic!("panicure!"),
    }

    // remove key 1, which frees a bucket
    assert_eq!(m.remove(&1), true);
    match m.get(&1) {
        Some(y) => panic!("key {} must not exists!", y),
        None => {}
    }
    assert_eq!(m.contains_key(&1), false);
    assert_eq!(m.len(), 2);
    for (&k, &v) in m.iter() {
        match k {
            2 => assert_eq!(v, 200),
            3 => assert_eq!(v, 300),
            _ => {}
        }
    }

    // a key/value pair fits again
    assert_eq!(m.insert(4, 400), (true, None));
    assert_eq!(m.len(), 3);
    for (&k, &v) in m.iter() {
        match k {
            2 => assert_eq!(v, 200),
            3 => assert_eq!(v, 300),
            4 => assert_eq!(v, 400),
            _ => {}
        }
    }
}

#[test]
fn test_get_mut() {
    let mut m = HashMap::new();
    m.insert("foo", 42);
    m.insert("bar", 43);
    match m.get("foo") {
        Some(v) => assert_eq!(*v, 42),
        None => panic!("panicure!"),
    }

    // change the value of key `foo`
    match m.get_mut("foo") {
        Some(v) => *v = 40,
        None => panic!("panicure!"),
    }

    match m.get("foo") {
        Some(v) => assert_eq!(*v, 40),
        None => panic!("panicure!"),
    }
}

#[test]
fn test_iter_mut() {
    let mut m = HashMap::new();
    m.insert("foo", 42);
    m.insert("bar", 43);
    for i in 0..m.cap() {
        if let Some(v) = m.value_mut_at_slot(i) {
            *v += 1;
        }
    }

    for (&k, &v) in m.iter() {
        match k {
            "foo" => assert_eq!(v, 43),
            "bar" => assert_eq!(v, 44),
            _ => unreachable!(),
        }
    }
}

#[test]
fn test_keys_values() {
    let mut map = HashMap::new();
    map.insert("foo", 42);
    map.insert("bar", 43);

    for key in map.keys() {
        println!("{}", key);
    }

    for val in map.values() {
        println!("{}", val);
    }
}

#[test]
fn test_eq() {
    let mut map1 = HashMap::new();
    map1.insert("foo", 42);
    map1.insert("bar", 43);

    let mut map2 = HashMap::new();
    map2.insert("foo", 42);
    map2.insert("bar", 43);

    let eq = map1 == map2;
    assert_eq!(true, eq)
}

#[test]
fn capacity_ceiling_rejects_new_key() {
    let mut m: HashMap<u64, u64> = HashMap::with_capacity(4);
    for k in 0..4u64 {
        assert_eq!(m.insert(k * 7, k), (true, None));
    }
    assert_eq!(m.len(), 4);
    assert_eq!(m.insert(99, 1), (false, None));
    assert_eq!(m.len(), 4);
    assert_eq!(m.get(&99), None);
}

#[test]
fn update_on_full_table() {
    let mut m: HashMap<u64, u64> = HashMap::with_capacity(3);
    for k in 10..13u64 {
        m.insert(k, k * 2);
    }
    for k in 10..13u64 {
        assert_eq!(m.insert(k, k * 3), (true, Some(k * 2)));
        assert_eq!(m.len(), 3);
        assert_eq!(m.get(&k), Some(&(k * 3)));
    }
}

#[test]
fn round_trip_keeps_latest_values() {
    let mut m: HashMap<u64, u64> = HashMap::with_capacity(8);
    let pairs = [(5u64, 1u64), (13, 2), (21, 3), (5, 4), (29, 5), (13, 6)];
    for &(k, v) in pairs.iter() {
        assert!(m.insert(k, v).0);
    }
    assert_eq!(m.get(&5), Some(&4));
    assert_eq!(m.get(&13), Some(&6));
    assert_eq!(m.get(&21), Some(&3));
    assert_eq!(m.get(&29), Some(&5));
    assert_eq!(m.len(), 4);
}

#[test]
fn removal_decrements_length() {
    let mut m: HashMap<u64, &str> = HashMap::with_capacity(5);
    m.insert(1, "a");
    m.insert(2, "b");
    m.insert(3, "c");
    assert!(m.remove(&2));
    assert_eq!(m.len(), 2);
    assert_eq!(m.get(&2), None);
    assert!(!m.remove(&2));
    assert_eq!(m.len(), 2);
    assert!(!m.remove(&42));
}

#[test]
fn removal_keeps_colliding_keys_reachable() {
    // two buckets for many keys: every probe path crosses the other bucket
    let mut m: HashMap<u64, u64> = HashMap::with_capacity(2);
    assert!(m.insert(100, 1).0);
    assert!(m.insert(200, 2).0);
    assert!(m.remove(&100));
    assert_eq!(m.get(&200), Some(&2));
    assert!(m.insert(300, 3).0);
    assert!(m.remove(&200));
    assert_eq!(m.get(&300), Some(&3));
    assert_eq!(m.len(), 1);

    let mut big: HashMap<u64, u64> = HashMap::with_capacity(8);
    for k in 0..8u64 {
        assert!(big.insert(k, k + 100).0);
    }
    for k in (0..8u64).step_by(2) {
        assert!(big.remove(&k));
    }
    for k in 0..8u64 {
        if k % 2 == 0 {
            assert_eq!(big.get(&k), None);
        } else {
            assert_eq!(big.get(&k), Some(&(k + 100)));
        }
    }
    assert_eq!(big.len(), 4);
}

#[test]
fn equality_ignores_insertion_order() {
    let mut a: HashMap<i32, i32> = HashMap::with_capacity(5);
    let mut b: HashMap<i32, i32> = HashMap::with_capacity(5);
    for k in [1, 2, 3, 4] {
        a.insert(k, k * 10);
    }
    for k in [4, 3, 2, 1] {
        b.insert(k, k * 10);
    }
    assert!(a == b);
    assert!(b == a);
    assert!(a == a);
    b.insert(2, 0);
    assert!(a != b);
    b.insert(2, 20);
    b.remove(&4);
    assert!(a != b);
    assert!(b != a);
}

#[test]
fn capacity_three_scenario() {
    let mut m: HashMap<i32, i32> = HashMap::with_capacity(3);
    assert_eq!(m.insert(1, 100), (true, None));
    assert_eq!(m.insert(2, 200), (true, None));
    assert_eq!(m.insert(3, 300), (true, None));
    assert_eq!(m.len(), 3);
    assert_eq!(m.insert(4, 400), (false, None));
    assert_eq!(m.insert(1, 1000), (true, Some(100)));
    assert_eq!(m.get(&1), Some(&1000));
    assert!(m.remove(&1));
    assert_eq!(m.len(), 2);
    assert_eq!(m.get(&1), None);
    assert_eq!(m.insert(4, 400), (true, None));
    assert_eq!(m.len(), 3);
    let mut seen: Vec<(i32, i32)> = m.iter().into_iter().map(|(k, v)| (*k, *v)).collect();
    seen.sort();
    assert_eq!(seen, vec![(2, 200), (3, 300), (4, 400)]);
}

#[test]
fn empty_table() {
    let m: HashMap<&str, u8> = HashMap::new();
    assert_eq!(m.len(), 0);
    assert_eq!(m.cap(), 100);
    assert!(m.is_empty());
    assert_eq!(m.get("anything"), None);
    assert!(!m.contains_key("x"));
    assert!(m.iter().is_empty());
    assert!(m.keys().is_empty());
    assert!(m.values().is_empty());
}

#[test]
fn clear_keeps_capacity() {
    let mut m: HashMap<u32, u32> = HashMap::with_capacity(4);
    m.insert(1, 1);
    m.insert(2, 2);
    assert!(!m.is_empty());
    m.clear();
    assert_eq!(m.len(), 0);
    assert_eq!(m.cap(), 4);
    assert_eq!(m.get(&1), None);
    for k in 0..4u32 {
        assert!(m.insert(k, k).0);
    }
    assert_eq!(m.len(), 4);
}

#[test]
fn single_bucket_table() {
    let mut m: HashMap<i64, i64> = HashMap::with_capacity(1);
    assert_eq!(m.insert(-5, 1), (true, None));
    assert_eq!(m.insert(6, 2), (false, None));
    assert_eq!(m.insert(-5, 3), (true, Some(1)));
    assert!(m.contains_key(&-5));
    assert!(!m.contains_key(&6));
}

#[test]
fn keys_and_values_line_up_with_iter() {
    let mut m: HashMap<usize, usize> = HashMap::with_capacity(6);
    for k in 0..5usize {
        m.insert(k * 3, k);
    }
    let pairs = m.iter();
    let keys = m.keys();
    let values = m.values();
    assert_eq!(pairs.len(), 5);
    for i in 0..pairs.len() {
        assert_eq!(pairs[i].0, keys[i]);
        assert_eq!(pairs[i].1, values[i]);
        assert_eq!(*pairs[i].1 * 3, *pairs[i].0);
    }
}

#[test]
fn entry_accessors() {
    let mut e: Entry<&str, i32> = Entry::KeyPair("k", 5);
    assert_eq!(e.key(), Some(&"k"));
    assert_eq!(e.value(), Some(&5));
    assert!(!e.is_empty());
    if let Some(v) = e.value_mut() {
        *v = 9;
    }
    assert_eq!(e.value(), Some(&9));
    let mut empty: Entry<&str, i32> = Entry::Empty;
    assert!(empty.is_empty());
    assert_eq!(empty.key(), None);
    assert_eq!(empty.value(), None);
    assert!(empty.value_mut().is_none());
}

#[test]
fn string_slice_keys_by_content() {
    let owned = String::from("alpha");
    let mut m: HashMap<&str, i32> = HashMap::with_capacity(4);
    m.insert(owned.as_str(), 1);
    let other = String::from("alpha");
    assert_eq!(m.get(other.as_str()), Some(&1));
    assert_eq!(m.insert("alpha", 2), (true, Some(1)));
    assert_eq!(m.len(), 1);
}

#[test]
fn owned_string_keys_found_by_str() {
    let mut m: HashMap<String, u32> = HashMap::with_capacity(4);
    assert_eq!(m.insert(String::from("alpha"), 1), (true, None));
    assert_eq!(m.insert(String::from("beta"), 2), (true, None));
    assert_eq!(m.get("alpha"), Some(&1));
    assert_eq!(m.get("beta"), Some(&2));
    assert!(m.contains_key("beta"));
    assert!(!m.contains_key("gamma"));
    assert_eq!(m.insert(String::from("alpha"), 5), (true, Some(1)));
    assert!(m.remove("beta"));
    assert_eq!(m.len(), 1);
}

#[test]
fn mutable_access_by_slot_keeps_layout() {
    let mut m: HashMap<u64, u64> = HashMap::with_capacity(5);
    for k in 1..4u64 {
        m.insert(k, k);
    }
    let before: Vec<u64> = m.keys().into_iter().map(|k| *k).collect();
    let mut touched = 0;
    for i in 0..m.cap() {
        if let Some(v) = m.value_mut_at_slot(i) {
            *v *= 10;
            touched += 1;
        }
    }
    assert_eq!(touched, 3);
    assert!(m.value_mut_at_slot(m.cap()).is_none());
    let after: Vec<u64> = m.keys().into_iter().map(|k| *k).collect();
    assert_eq!(before, after);
    for k in 1..4u64 {
        assert_eq!(m.get(&k), Some(&(k * 10)));
    }
    if let Some(v) = m.get_mut(&2) {
        *v = 7;
    }
    let again: Vec<u64> = m.keys().into_iter().map(|k| *k).collect();
    assert_eq!(before, again);
    assert_eq!(m.get(&2), Some(&7));
}
