use bplus::store::{BPlusTree, Data};

#[test]
fn insert() {
    {
        let mut b = BPlusTree::<i64>::new(3);
        b.insert(1, Data::new(0, -1));
        b.insert(5, Data::new(0, -5));
        b.insert(2, Data::new(0, -2));
        b.insert(4, Data::new(0, -4));
        b.insert(3, Data::new(0, -3));
        let r = b.search(5);
        assert!(r.is_some());
        assert_eq!(*r.unwrap(), -5)
    }
}

#[test]
fn store_finds_every_payload() {
    let mut b = BPlusTree::<String>::new(2);
    let keys = [8usize, 3, 9, 1, 7, 2, 6, 4, 5, 0];
    for &k in &keys {
        b.insert(k, Data::new(999, format!("v{}", k)));
    }
    for &k in &keys {
        assert_eq!(b.search(k).unwrap(), &format!("v{}", k));
    }
    assert!(b.search(10).is_none());
}

#[test]
fn store_empty_finds_nothing() {
    let b = BPlusTree::<i64>::new(1);
    assert!(b.search(0).is_none());
}

#[test]
fn store_ignores_the_given_id() {
    let mut b = BPlusTree::<i64>::new(3);
    b.insert(2, Data::new(41, 20));
    b.insert(1, Data::new(41, 10));
    assert_eq!(*b.search(1).unwrap(), 10);
    assert_eq!(*b.search(2).unwrap(), 20);
}

#[test]
fn store_scenario_finds_every_key() {
    let mut b = BPlusTree::<i64>::new(3);
    for k in [1usize, 5, 2, 4, 3] {
        b.insert(k, Data::new(0, -(k as i64)));
    }
    for k in 1usize..=5 {
        assert_eq!(*b.search(k).unwrap(), -(k as i64));
    }
    assert!(b.search(6).is_none());
}
