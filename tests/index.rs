use bplus::tree::BPlusTree;

fn build(cap: usize, keys: &[usize]) -> BPlusTree {
    let mut b = BPlusTree::new(cap);
    for &k in keys {
        b.insert(k, k);
    }
    b
}

#[test]
fn lib_insert() {
    {
        let mut b = BPlusTree::new(3);
        b.insert(1, 1);
        let r = b.search(1);
        assert!(r.is_some());
        assert_eq!(*r.unwrap(), 1)
    }
    {
        let mut b = BPlusTree::new(3);
        b.insert(11, 11);
        b.insert(25, 25);
        b.insert(12, 12);
        b.insert(24, 24);
        b.insert(13, 13);
        b.insert(10, 10);
        b.insert(14, 14);
        {
            let r = b.search(24);
            assert!(r.is_some());
            assert_eq!(*r.unwrap(), 24)
        }
        {
            let r = b.search(10);
            assert!(r.is_some());
            assert_eq!(*r.unwrap(), 10)
        }
        {
            let r = b.search(11);
            assert!(r.is_some());
            assert_eq!(*r.unwrap(), 11)
        }
        {
            let r = b.search(12);
            assert!(r.is_some());
            assert_eq!(*r.unwrap(), 12)
        }
        {
            let r = b.search_range(11, 11);
            assert_eq!(r, vec![11]);
        }
    }
    {
        let mut b = BPlusTree::new(3);
        b.insert(11, 11);
        b.insert(25, 25);
        b.insert(12, 12);
        b.insert(24, 24);
        b.insert(13, 13);
        b.insert(10, 10);
        b.insert(14, 14);
        {
            let r = b.search_range(11, 11);
            assert_eq!(r, vec![11]);
        }
        {
            let r = b.search_range(11, 13);
            assert_eq!(r, vec![11, 12, 13]);
        }
        {
            let r = b.search_range(11, 24);
            assert_eq!(r, vec![11, 12, 13, 14, 24]);
        }
        {
            let r = b.search_range(0, 100);
            assert_eq!(r, vec![10, 11, 12, 13, 14, 24, 25]);
        }
    }
    {
        let mut b = BPlusTree::new(3);
        b.insert(11, 11);
        b.insert(25, 25);
        b.insert(12, 12);
        b.insert(14, 14);
        b.insert(15, 15);
        b.insert(16, 16);
        b.insert(17, 17);
        {
            let r = b.search_range(11, 11);
            assert_eq!(r, vec![11]);
        }
    }
}

#[test]
fn empty_tree_finds_nothing() {
    let b = BPlusTree::new(3);
    assert_eq!(b.search(0), None);
    assert_eq!(b.search_range(0, usize::MAX), Vec::<usize>::new());
}

#[test]
fn inverted_range_is_empty() {
    let b = build(3, &[11, 25, 12, 24, 13, 10, 14]);
    assert_eq!(b.search_range(24, 11), Vec::<usize>::new());
    assert_eq!(b.search_range(usize::MAX, 0), Vec::<usize>::new());
}

#[test]
fn range_between_keys_is_empty() {
    let b = build(3, &[10, 20, 30, 40, 50, 60]);
    assert_eq!(b.search_range(21, 29), Vec::<usize>::new());
    assert_eq!(b.search_range(0, 9), Vec::<usize>::new());
    assert_eq!(b.search_range(61, 100), Vec::<usize>::new());
}

#[test]
fn full_scan_of_scenario_keys_is_ordered() {
    let b = build(3, &[1, 5, 2, 4, 3]);
    assert_eq!(b.search_range(0, usize::MAX), vec![1, 2, 3, 4, 5]);
    assert_eq!(*b.search(5).unwrap(), 5);
}

#[test]
fn scenario_range_queries() {
    let b = build(3, &[11, 25, 12, 24, 13, 10, 14]);
    assert_eq!(b.search_range(11, 24), vec![11, 12, 13, 14, 24]);
    assert_eq!(b.search_range(0, 100), vec![10, 11, 12, 13, 14, 24, 25]);
}

#[test]
fn split_of_a_single_leaf_keeps_every_entry() {
    // capacity 3: the fourth entry splits the only leaf in two
    let b = build(3, &[40, 10, 30, 20]);
    assert_eq!(b.search_range(0, 100), vec![10, 20, 30, 40]);
    for k in [10, 20, 30, 40] {
        assert_eq!(*b.search(k).unwrap(), k);
    }
    assert_eq!(b.search_range(20, 30), vec![20, 30]);
}

#[test]
fn round_trip_in_any_order() {
    for cap in 1..6 {
        let mut b = BPlusTree::new(cap);
        let n: usize = 500;
        // a permutation of 0..n
        let keys: Vec<usize> = (0..n).map(|i| (i * 7919) % n).collect();
        for &k in &keys {
            b.insert(k, k * 3 + 1);
        }
        for k in 0..n {
            assert_eq!(*b.search(k).unwrap(), k * 3 + 1);
        }
        assert_eq!(b.search(n), None);
        let all: Vec<usize> = (0..n).map(|k| k * 3 + 1).collect();
        assert_eq!(b.search_range(0, usize::MAX), all);
        let mid: Vec<usize> = (100..=250).map(|k| k * 3 + 1).collect();
        assert_eq!(b.search_range(100, 250), mid);
    }
}

#[test]
fn descending_and_ascending_inserts() {
    let asc: Vec<usize> = (0..200).collect();
    let desc: Vec<usize> = (0..200).rev().collect();
    let a = build(2, &asc);
    let d = build(2, &desc);
    assert_eq!(a.search_range(0, 1000), asc);
    assert_eq!(d.search_range(0, 1000), asc);
    assert_eq!(a.search_range(50, 59), (50..60).collect::<Vec<usize>>());
    assert_eq!(d.search_range(150, 1000), (150..200).collect::<Vec<usize>>());
}

#[test]
fn equal_keys_are_all_kept() {
    let mut b = BPlusTree::new(3);
    b.insert(5, 1);
    b.insert(5, 2);
    b.insert(7, 3);
    let r = b.search(5);
    assert!(r == Some(&1) || r == Some(&2));
    // the later one sits behind the earlier one
    assert_eq!(b.search_range(0, 10), vec![1, 2, 3]);
}

#[test]
fn largest_keys() {
    let b = build(2, &[usize::MAX, 0, usize::MAX - 1, 1]);
    assert_eq!(*b.search(usize::MAX).unwrap(), usize::MAX);
    assert_eq!(b.search_range(usize::MAX - 1, usize::MAX), vec![usize::MAX - 1, usize::MAX]);
}

#[test]
fn scenario_leaf_chain() {
    // capacity 3: 1 5 2 4 overflow the first leaf, which splits into
    // [1 2] and [4 5]; 3 then routes to the left leaf
    let b = build(3, &[1, 5, 2, 4, 3]);
    assert_eq!(b.leaf_keys(), vec![vec![1, 2, 3], vec![4, 5]]);
}

#[test]
fn split_at_the_middle() {
    let mut b = build(3, &[40, 10, 30]);
    assert_eq!(b.leaf_keys(), vec![vec![10, 30, 40]]);
    b.insert(20, 20);
    assert_eq!(b.leaf_keys(), vec![vec![10, 20], vec![30, 40]]);

    let mut c = build(4, &[5, 1, 4, 2]);
    assert_eq!(c.leaf_keys(), vec![vec![1, 2, 4, 5]]);
    c.insert(3, 3);
    assert_eq!(c.leaf_keys(), vec![vec![1, 2], vec![3, 4, 5]]);
}

#[test]
fn chain_is_sorted_and_complete() {
    for cap in 1..5 {
        let n: usize = 300;
        let keys: Vec<usize> = (0..n).map(|i| (i * 131) % n).collect();
        let b = build(cap, &keys);
        let leaves = b.leaf_keys();
        assert!(leaves.len() > 1);
        for leaf in &leaves {
            assert!(!leaf.is_empty());
            assert!(leaf.len() <= cap);
        }
        let flat: Vec<usize> = leaves.concat();
        assert_eq!(flat, (0..n).collect::<Vec<usize>>());
    }
}

#[test]
fn empty_tree_has_no_leaves() {
    let b = BPlusTree::new(2);
    assert!(b.leaf_keys().is_empty());
}

#[test]
fn equal_keys_split_across_leaves() {
    // capacity 1: the second entry with key 5 splits the leaf, and both
    // children carry the key 5; routing with `<=` picks the later child
    let mut b = BPlusTree::new(1);
    b.insert(5, 1);
    b.insert(5, 2);
    assert_eq!(b.leaf_keys(), vec![vec![5], vec![5]]);
    assert_eq!(*b.search(5).unwrap(), 2);
    assert_eq!(b.search_range(5, 5), vec![2]);
    assert_eq!(b.search_range(4, 5), vec![1, 2]);
}
