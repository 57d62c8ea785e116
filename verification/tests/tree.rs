use b_trees::AVL;
use b_trees::FartherFrom;
use b_trees::NearerTo;

fn collect_increasing(t: &AVL<i64>) -> Vec<i64> {
    let mut out = Vec::new();
    let mut it = t.increasing();
    while let Some(v) = it.next() {
        out.push(*v);
    }
    out
}

fn collect_decreasing(t: &AVL<i64>) -> Vec<i64> {
    let mut out = Vec::new();
    let mut it = t.decreasing();
    while let Some(v) = it.next() {
        out.push(*v);
    }
    out
}

#[test]
fn empty_tree() {
    let t: AVL<i64> = AVL::new();
    assert_eq!(t.len(), 0);
    assert_eq!(t.height(), 0);
    assert!(t.is_empty());
    assert!(t.min().is_none());
    assert!(t.max().is_none());
    assert!(!t.contains(&3));
}

#[test]
fn insert_and_len() {
    let mut t = AVL::new();
    t.insert(3i64);
    t.insert(1);
    t.insert(2);
    assert_eq!(t.len(), 3);
    assert_eq!(t.height(), 2);
    assert!(t.contains(&1));
    assert!(t.contains(&2));
    assert!(t.contains(&3));
    assert!(!t.contains(&4));
}

#[test]
fn len_matches_traversal() {
    let mut t = AVL::new();
    let vals: [i64; 9] = [5, 3, 8, 1, 4, 7, 9, 2, 6];
    for v in vals {
        t.insert(v);
    }
    let asc = collect_increasing(&t);
    assert_eq!(t.len(), asc.len());
    assert_eq!(asc, vec![1, 2, 3, 4, 5, 6, 7, 8, 9]);
}

#[test]
fn traversal_orders_are_reverses() {
    let mut t = AVL::new();
    for v in [10i64, -3, 7, 7, 0, 22, -3] {
        t.insert(v);
    }
    let asc = collect_increasing(&t);
    let mut desc = collect_decreasing(&t);
    for w in asc.windows(2) {
        assert!(w[0] <= w[1]);
    }
    desc.reverse();
    assert_eq!(asc, desc);
}

#[test]
fn duplicates_are_kept() {
    let mut t = AVL::new();
    t.insert(4i64);
    t.insert(4);
    t.insert(4);
    assert_eq!(t.len(), 3);
    assert_eq!(collect_increasing(&t), vec![4, 4, 4]);
}

#[test]
fn insert_then_delete_all_roundtrip() {
    let mut t = AVL::new();
    let vals: [i64; 8] = [13, 2, 29, 5, 11, 3, 23, 17];
    for v in vals {
        t.insert(v);
    }
    // delete in a different order from insertion
    for v in [17i64, 13, 3, 29, 2, 23, 11, 5] {
        assert!(t.delete(&v));
    }
    assert_eq!(t.len(), 0);
    assert_eq!(t.height(), 0);
    assert!(t.is_empty());
}

#[test]
fn delete_absent_is_noop() {
    let mut t = AVL::new();
    t.insert(1i64);
    t.insert(2);
    assert!(!t.delete(&5));
    assert_eq!(t.len(), 2);
}

#[test]
fn remove_returns_value() {
    let mut t = AVL::new();
    for v in [4i64, 2, 6] {
        t.insert(v);
    }
    assert_eq!(t.remove(&2), Some(2));
    assert_eq!(t.remove(&2), None);
    assert_eq!(t.len(), 2);
}

#[test]
fn insert_distinct_reports_new() {
    let mut t = AVL::new();
    assert!(t.insert_distinct(7i64));
    assert!(t.insert_distinct(3));
    assert!(!t.insert_distinct(7));
    assert_eq!(t.len(), 2);
}

#[test]
fn min_max() {
    let mut t = AVL::new();
    for v in [12i64, 5, 40, -2, 19] {
        t.insert(v);
    }
    assert_eq!(t.min(), Some(&-2));
    assert_eq!(t.max(), Some(&40));
}

#[test]
fn heights_stay_logarithmic() {
    // An ascending run of inserts would build a chain without rebalancing;
    // the AVL invariant caps the height instead.
    let mut t = AVL::new();
    let mut v: i64 = 0;
    while v < 128 {
        t.insert(v);
        v += 1;
    }
    assert_eq!(t.len(), 128);
    // a chain would be 128 deep; the AVL bound allows at most ~1.44 log2(n)
    assert!(t.height() >= 8 && t.height() <= 10);
}

#[test]
fn delete_two_child_node_splices_successor() {
    // 3,5,7,6,8 builds the tree 5 -> (3, 7 -> (6, 8)); deleting the root 5
    // must put its in-order successor 6 at the top.
    let mut t = AVL::new();
    for v in [3i64, 5, 7, 6, 8] {
        t.insert(v);
    }
    assert!(t.delete(&5));
    assert!(!t.contains(&5));
    assert!(t.contains(&6));
    assert_eq!(t.len(), 4);
    let mut levels = t.levels();
    let mut first = levels.next().expect("one level");
    assert_eq!(first.next(), Some(Some(&6)));
    assert_eq!(first.next(), None);
    assert_eq!(collect_increasing(&t), vec![3, 6, 7, 8]);
}

#[test]
fn greater_than_yields_ascending_suffix() {
    let mut t = AVL::new();
    for v in [2i64, 3, 4, 5, 6, 7, 8] {
        t.insert(v);
    }
    let bound: i64 = 5;
    let mut it = t.greater_than(&bound);
    let mut out = Vec::new();
    while let Some(v) = it.next() {
        out.push(*v);
    }
    assert_eq!(out, vec![6, 7, 8]);
}

#[test]
fn less_than_yields_descending_prefix() {
    let mut t = AVL::new();
    for v in [2i64, 3, 4, 5, 6, 7, 8] {
        t.insert(v);
    }
    let bound: i64 = 5;
    let mut it = t.less_than(&bound);
    let mut out = Vec::new();
    while let Some(v) = it.next() {
        out.push(*v);
    }
    assert_eq!(out, vec![4, 3, 2]);
}

#[test]
fn nearest_agrees_with_brute_force() {
    let mut t = AVL::new();
    let vals: [i64; 10] = [15, -4, 92, 7, 33, 21, -40, 64, 5, 12];
    for v in vals {
        t.insert(v);
    }
    let mut target: i64 = -50;
    while target <= 100 {
        let got = *t.nearest(&target).expect("tree is not empty");
        let best = vals
            .iter()
            .map(|v| (v - target).abs())
            .min()
            .expect("some candidate");
        assert_eq!((got - target).abs(), best);
        target += 7;
    }
}

#[test]
fn nearest_prefers_exact_match() {
    let mut t = AVL::new();
    for v in [10i64, 20, 30] {
        t.insert(v);
    }
    assert_eq!(t.nearest(&20), Some(&20));
}

#[test]
fn farthest_returns_tree_element() {
    let mut t = AVL::new();
    let vals: [i64; 5] = [1, 5, 9, 14, 20];
    for v in vals {
        t.insert(v);
    }
    let target: i64 = 9;
    let got = *t.farthest(&target).expect("tree is not empty");
    assert!(vals.contains(&got));
}

#[test]
fn nearest_to_with_choosers() {
    let mut t = AVL::new();
    for v in [5i64, 1, 9] {
        t.insert(v);
    }
    let target: i64 = 6;
    let near = NearerTo { target: &target };
    let got = *t.nearest_to(&target, &near).expect("tree is not empty");
    assert_eq!(got, 5);
    let far = FartherFrom { target: &target };
    let far_got = *t.farthest_to(&target, &far).expect("tree is not empty");
    assert!([1i64, 5, 9].contains(&far_got));
}

#[test]
fn nearest_to_agrees_with_nearest() {
    let mut t = AVL::new();
    for v in [4i64, 2, 8, 6, 11, -5] {
        t.insert(v);
    }
    let mut target: i64 = -8;
    while target <= 14 {
        let near = NearerTo { target: &target };
        let via_chooser = t.nearest_to(&target, &near).copied();
        let direct = t.nearest(&target).copied();
        assert_eq!(
            via_chooser.map(|v| (v - target).abs()),
            direct.map(|v| (v - target).abs())
        );
        target += 3;
    }
}

#[test]
fn union_keeps_all_elements() {
    let mut a = AVL::new();
    for v in [1i64, 3, 5] {
        a.insert(v);
    }
    let mut b = AVL::new();
    for v in [2i64, 3, 6, 8] {
        b.insert(v);
    }
    let u = a.union(b);
    assert_eq!(u.len(), 7);
    assert_eq!(collect_increasing(&u), vec![1, 2, 3, 3, 5, 6, 8]);
}

#[test]
fn iter_visits_every_element_once() {
    let mut t = AVL::new();
    let vals: [i64; 6] = [11, 4, 17, 2, 8, 13];
    for v in vals {
        t.insert(v);
    }
    let mut seen = Vec::new();
    let mut it = t.iter();
    while let Some(v) = it.next() {
        seen.push(*v);
    }
    seen.sort();
    let mut expect = vals.to_vec();
    expect.sort();
    assert_eq!(seen, expect);
}

#[test]
fn into_iterators_consume() {
    let mut t = AVL::new();
    for v in [3i64, 1, 2] {
        t.insert(v);
    }
    let mut it = t.into_increasing();
    assert_eq!(it.next(), Some(1));
    assert_eq!(it.next(), Some(2));
    assert_eq!(it.next(), Some(3));
    assert_eq!(it.next(), None);

    let mut t2 = AVL::new();
    for v in [3i64, 1, 2] {
        t2.insert(v);
    }
    let mut it2 = t2.into_decreasing();
    assert_eq!(it2.next(), Some(3));
    assert_eq!(it2.next(), Some(2));
    assert_eq!(it2.next(), Some(1));
    assert_eq!(it2.next(), None);

    let mut t3 = AVL::new();
    for v in [3i64, 1, 2] {
        t3.insert(v);
    }
    let mut it3 = t3.into_iter();
    let mut all = Vec::new();
    while let Some(v) = it3.next() {
        all.push(v);
    }
    all.sort();
    assert_eq!(all, vec![1, 2, 3]);
}

#[test]
fn levels_show_shape_with_gaps() {
    // 2,1,3,4 builds 2 -> (1, 3 -> (_, 4)).
    let mut t = AVL::new();
    for v in [2i64, 1, 3, 4] {
        t.insert(v);
    }
    let mut rows = Vec::new();
    let mut levels = t.levels();
    while let Some(mut level) = levels.next() {
        let mut row = Vec::new();
        while let Some(entry) = level.next() {
            row.push(entry.copied());
        }
        rows.push(row);
    }
    assert_eq!(rows.len(), 3);
    assert_eq!(rows[0], vec![Some(2)]);
    assert_eq!(rows[1], vec![Some(1), Some(3)]);
    assert_eq!(rows[2], vec![None, None, None, Some(4)]);
}

#[test]
fn clear_resets() {
    let mut t = AVL::new();
    for v in [9i64, 4, 6] {
        t.insert(v);
    }
    t.clear();
    assert_eq!(t.len(), 0);
    assert_eq!(t.height(), 0);
}

#[test]
fn nearness_across_integer_widths() {
    let mut a: AVL<i8> = AVL::new();
    for v in [-100i8, 0, 100] {
        a.insert(v);
    }
    assert_eq!(a.nearest(&-60i8), Some(&-100));
    assert_eq!(a.farthest(&100i8), Some(&-100));

    let mut b: AVL<i16> = AVL::new();
    for v in [-30000i16, 1, 30000] {
        b.insert(v);
    }
    assert_eq!(b.nearest(&2i16), Some(&1));

    let mut c: AVL<i32> = AVL::new();
    for v in [-5i32, 6, 50] {
        c.insert(v);
    }
    assert_eq!(c.nearest(&0i32), Some(&-5));

    let mut d: AVL<isize> = AVL::new();
    for v in [3isize, 9] {
        d.insert(v);
    }
    assert_eq!(d.nearest(&5isize), Some(&3));
    assert_eq!(d.farthest(&0isize), Some(&9));

    let mut e: AVL<u16> = AVL::new();
    for v in [10u16, 60000] {
        e.insert(v);
    }
    assert_eq!(e.nearest(&9u16), Some(&10));

    let mut f: AVL<u32> = AVL::new();
    for v in [7u32, 1000] {
        f.insert(v);
    }
    assert_eq!(f.farthest(&900u32), Some(&7));

    let mut g: AVL<u64> = AVL::new();
    for v in [5u64, u64::MAX] {
        g.insert(v);
    }
    assert_eq!(g.nearest(&6u64), Some(&5));

    let mut h: AVL<u128> = AVL::new();
    for v in [1u128, u128::MAX] {
        h.insert(v);
    }
    assert_eq!(h.nearest(&2u128), Some(&1));
    assert_eq!(h.farthest(&u128::MAX), Some(&1));

    let mut w: AVL<i128> = AVL::new();
    for v in [i128::MIN, -7, 0, i128::MAX] {
        w.insert(v);
    }
    assert_eq!(w.nearest(&-6i128), Some(&-7));
    assert_eq!(w.nearest(&i128::MAX), Some(&i128::MAX));
    assert_eq!(w.nearest(&(i128::MIN + 1)), Some(&i128::MIN));
    assert_eq!(w.farthest(&i128::MAX), Some(&i128::MIN));
}

#[test]
fn unsigned_and_small_types_order() {
    let mut t: AVL<u8> = AVL::new();
    for v in [200u8, 3, 127] {
        t.insert(v);
    }
    assert_eq!(t.min(), Some(&3));
    assert_eq!(t.max(), Some(&200));
    assert_eq!(t.nearest(&120u8), Some(&127));

    let mut s: AVL<usize> = AVL::new();
    for v in [5usize, 10, 0] {
        s.insert(v);
    }
    assert_eq!(s.nearest(&7usize), Some(&5));
    assert_eq!(s.farthest(&9usize), Some(&0));
}
