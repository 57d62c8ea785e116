use b_trees::BTreeMap;
use b_trees::Pair;

#[test]
fn empty_map() {
    let m: BTreeMap<i64, &str> = BTreeMap::new();
    assert!(m.is_empty());
    assert_eq!(m.len(), 0);
    assert!(!m.contains_key(&1));
    assert!(m.get(&1).is_none());
}

#[test]
fn insert_reports_new_key() {
    let mut m = BTreeMap::new();
    assert!(m.insert(1i64, "one"));
    assert!(m.insert(2, "two"));
    assert!(!m.insert(1, "uno"));
    assert_eq!(m.len(), 2);
    assert_eq!(m.get(&1), Some(&"uno"));
    assert_eq!(m.get(&2), Some(&"two"));
}

#[test]
fn upsert_keeps_one_entry() {
    let mut m = BTreeMap::new();
    assert!(m.insert(7i64, 100u32));
    assert!(!m.insert(7, 200));
    assert_eq!(m.len(), 1);
    assert_eq!(m.get(&7), Some(&200));
}

#[test]
fn remove_keys() {
    let mut m = BTreeMap::new();
    let vals = [
        "ash", "birch", "cedar", "dogwood", "elm", "fir", "gum", "hazel", "ivy", "juniper",
    ];
    for (k, v) in vals.iter().enumerate() {
        m.insert(k as i64, *v);
    }
    assert_eq!(m.len(), 10);
    for k in [4i64, 6, 9] {
        let removed = m.remove(&k).expect("key is present");
        assert_eq!(removed.key, k);
    }
    assert_eq!(m.len(), 7);
    assert!(!m.contains_key(&4));
    assert!(!m.contains_key(&6));
    assert!(!m.contains_key(&9));
    assert!(m.contains_key(&5));
    assert!(m.remove(&4).is_none());
    assert_eq!(m.len(), 7);
}

#[test]
fn iteration_is_key_ordered() {
    let mut m = BTreeMap::new();
    for (k, v) in [(30i64, "c"), (10, "a"), (20, "b")] {
        m.insert(k, v);
    }
    let mut it = m.iter();
    let mut seen: Vec<(i64, &str)> = Vec::new();
    while let Some(p) = it.next() {
        seen.push((p.key, p.val));
    }
    assert_eq!(seen, vec![(10, "a"), (20, "b"), (30, "c")]);

    let mut down = m.decreasing();
    let mut keys_down = Vec::new();
    while let Some(p) = down.next() {
        keys_down.push(p.key);
    }
    assert_eq!(keys_down, vec![30, 20, 10]);
}

#[test]
fn keys_and_values_projections() {
    let mut m = BTreeMap::new();
    for (k, v) in [(2i64, 20u8), (1, 10), (3, 30)] {
        m.insert(k, v);
    }
    let ks: Vec<i64> = m.keys().into_iter().map(|k| *k).collect();
    assert_eq!(ks, vec![1, 2, 3]);
    let vs: Vec<u8> = m.values().into_iter().map(|v| *v).collect();
    assert_eq!(vs, vec![10, 20, 30]);
}

#[test]
fn into_keys_and_values_consume() {
    let mut m = BTreeMap::new();
    for (k, v) in [(2i64, "b"), (1, "a"), (3, "c")] {
        m.insert(k, v);
    }
    assert_eq!(m.into_keys(), vec![1, 2, 3]);

    let mut m2 = BTreeMap::new();
    for (k, v) in [(2i64, "b"), (1, "a"), (3, "c")] {
        m2.insert(k, v);
    }
    assert_eq!(m2.into_values(), vec!["a", "b", "c"]);
}

#[test]
fn map_exposes_tree() {
    let mut m = BTreeMap::new();
    for k in 0i64..10 {
        m.insert(k, k * k);
    }
    let tree = m.avl();
    assert_eq!(tree.len(), 10);
    assert!(tree.height() >= 4);
    let probe: i64 = 3;
    assert!(tree.contains_by(&probe));
}

#[test]
fn pair_is_ordered_by_key_alone() {
    let mut m = BTreeMap::new();
    m.insert(5i64, "first");
    m.insert(5, "second");
    assert_eq!(m.len(), 1);
    let p: Pair<i64, &str> = m.remove(&5).expect("key is present");
    assert_eq!(p.key, 5);
    assert_eq!(p.val, "second");
}

#[test]
fn get_mut_updates_value_in_place() {
    let mut m = BTreeMap::new();
    m.insert(1i64, 10u32);
    m.insert(2, 20);
    let (r, _) = m.get_mut(&1);
    *r.expect("key is present") = 99;
    assert_eq!(m.get(&1), Some(&99));
    assert_eq!(m.get(&2), Some(&20));
    assert_eq!(m.len(), 2);
    let (absent, _) = m.get_mut(&7);
    assert!(absent.is_none());
}

#[test]
fn levels_of_map_tree() {
    let mut m = BTreeMap::new();
    for k in [2i64, 1, 3] {
        m.insert(k, ());
    }
    let mut levels = m.levels();
    let mut count: usize = 0;
    while let Some(mut level) = levels.next() {
        let mut width: usize = 0;
        while let Some(_) = level.next() {
            width += 1;
        }
        assert_eq!(width, 1 << count);
        count += 1;
    }
    assert_eq!(count, 2);
}
