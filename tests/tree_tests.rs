use rbtree::{RBtree, Rand};
use std::collections::HashSet;

#[test]
fn insert_works_str() {
    let mut t: RBtree<String> = RBtree::new();

    let n1 = String::from("foo");
    let n2 = String::from("bar");
    let n3 = String::from("baz");

    t.insert(n1);
    t.insert(n2);
    t.insert(n3);
    assert_eq!(t.size(), 3);
}

#[test]
fn insert_works_int() {
    let mut t: RBtree<i32> = RBtree::new();
    let size = 10000;

    for i in 0..size {
        let n = i;
        t.insert(n);
    }

    for i in (0..size).rev() {
        assert_eq!(t.search(i), Some(i));
    }

    assert_eq!(t.size(), size as i64);
}

#[test]
fn insert_works_randint() {
    let mut t: RBtree<i32> = RBtree::new();
    let size = 10000;

    let mut r = Rand::srand(69);

    let mut values = Vec::new();
    let mut min = i32::MAX;
    let mut max = i32::MIN;
    for _ in 0..size {
        let n = (r.rand() % size) as i32;
        if n < min {
            min = n;
        }
        if n > max {
            max = n;
        }
        values.push(n);
        t.insert(n);
    }

    for i in 0..size {
        let n = values[i as usize];
        assert_eq!(t.search(n), Some(n));
    }

    assert_eq!(t.min(), Some(min));
    assert_eq!(t.max(), Some(max));

    assert_eq!(t.size(), size as i64);
}

#[test]
fn delete_works_randint() {
    let mut t: RBtree<i32> = RBtree::new();
    let size = 1000;

    let mut r = Rand::srand(69);

    let mut values = HashSet::new();
    let mut min = i32::MAX;
    let mut max = i32::MIN;
    for _ in 0..size {
        let mut n = (r.rand() % size) as i32;
        while values.contains(&n) {
            n = (r.rand() % size) as i32;
        }
        values.insert(n);
        if n < min {
            min = n;
        }
        if n > max {
            max = n;
        }
        t.insert(n);
    }

    for (_idx, item) in values.iter().enumerate() {
        println!("{}", _idx);
        let actual = t.delete(*item);
        assert_eq!(t.search(*item), None);
        assert_eq!(actual, Ok(*item));
    }

    assert_eq!(t.min(), None);
    assert_eq!(t.max(), None);

    assert_eq!(t.size(), 0);
}

#[test]
fn empty_tree_has_nothing() {
    let t: RBtree<i32> = RBtree::new();
    assert_eq!(t.size(), 0);
    assert_eq!(t.min(), None);
    assert_eq!(t.max(), None);
    assert_eq!(t.search(7), None);
    assert_eq!(t.height(), 0);
}

#[test]
fn delete_missing_key_is_not_found() {
    let mut t: RBtree<i32> = RBtree::new();
    assert_eq!(t.delete(3), Err("not found"));
    t.insert(1);
    t.insert(5);
    assert_eq!(t.delete(3), Err("not found"));
    assert_eq!(t.size(), 2);
    assert_eq!(t.search(1), Some(1));
    assert_eq!(t.search(5), Some(5));
}

#[test]
fn concrete_scenario_seven_keys() {
    let mut t: RBtree<i32> = RBtree::new();
    for k in [50, 30, 70, 20, 40, 60, 80] {
        t.insert(k);
    }
    assert_eq!(t.min(), Some(20));
    assert_eq!(t.max(), Some(80));
    assert_eq!(t.search(40), Some(40));
    assert_eq!(t.delete(50), Ok(50));
    assert_eq!(t.search(50), None);
    for k in [30, 70, 20, 40, 60, 80] {
        assert_eq!(t.search(k), Some(k));
    }
    assert_eq!(t.size(), 6);
    assert!(t.height() <= 4);
}

#[test]
fn single_key_tree() {
    let mut t: RBtree<i64> = RBtree::new();
    t.insert(-4);
    assert_eq!(t.height(), 1);
    assert_eq!(t.min(), Some(-4));
    assert_eq!(t.max(), Some(-4));
    assert_eq!(t.delete(-4), Ok(-4));
    assert_eq!(t.size(), 0);
    assert_eq!(t.height(), 0);
    assert_eq!(t.min(), None);
}

#[test]
fn duplicate_keys_are_kept() {
    let mut t: RBtree<u64> = RBtree::new();
    t.insert(5);
    t.insert(5);
    t.insert(2);
    assert_eq!(t.size(), 3);
    assert_eq!(t.delete(5), Ok(5));
    assert_eq!(t.search(5), Some(5));
    assert_eq!(t.size(), 2);
    assert_eq!(t.delete(5), Ok(5));
    assert_eq!(t.search(5), None);
    assert_eq!(t.delete(5), Err("not found"));
    assert_eq!(t.size(), 1);
    assert_eq!(t.min(), Some(2));
}

#[test]
fn string_keys_in_byte_order() {
    let mut t: RBtree<String> = RBtree::new();
    for s in ["foo", "bar", "baz", "", "ba", "éa", "zz"] {
        t.insert(String::from(s));
    }
    assert_eq!(t.min(), Some(String::new()));
    assert_eq!(t.max(), Some(String::from("éa")));
    assert_eq!(t.search(String::from("ba")), Some(String::from("ba")));
    assert_eq!(t.search(String::from("b")), None);
    assert_eq!(t.delete(String::from("foo")), Ok(String::from("foo")));
    assert_eq!(t.search(String::from("foo")), None);
    assert_eq!(t.size(), 6);
}

#[test]
fn round_trip_distinct_keys() {
    let mut t: RBtree<i32> = RBtree::new();
    let keys = [17, -3, 99, 0, 42, 8, -50, 23];
    for k in keys {
        t.insert(k);
    }
    for k in keys {
        assert_eq!(t.search(k), Some(k));
    }
    for k in [1, 100, -4] {
        assert_eq!(t.search(k), None);
    }
    assert_eq!(t.delete(42), Ok(42));
    assert_eq!(t.search(42), None);
    assert_eq!(t.size(), 7);
}

#[test]
fn min_max_follow_deletions() {
    let mut t: RBtree<i32> = RBtree::new();
    for k in [5, 1, 9, 3, 7] {
        t.insert(k);
    }
    assert_eq!(t.delete(1), Ok(1));
    assert_eq!(t.min(), Some(3));
    assert_eq!(t.delete(9), Ok(9));
    assert_eq!(t.max(), Some(7));
}

#[test]
fn ascending_inserts_stay_balanced() {
    let mut t: RBtree<i32> = RBtree::new();
    for k in 0..1023 {
        t.insert(k);
    }
    // 2 * log2(1024) = 20
    assert!(t.height() <= 20);
    assert!(t.height() >= 10);
}

#[test]
fn stress_scenario_seeded_keys() {
    let mut t: RBtree<i64> = RBtree::new();
    let mut r = Rand::srand(12345);
    let mut keys = Vec::new();
    for _ in 0..10000 {
        let k = r.rand() * 32768 + r.rand();
        keys.push(k);
        t.insert(k);
    }
    for k in keys.iter() {
        assert_eq!(t.search(*k), Some(*k));
    }
    assert_eq!(t.size(), 10000);
    // 2 * log2(10001) + 1 is a little under 27.6
    assert!(t.height() <= 27);
    // delete in an order drawn from the generator
    let mut order = keys.clone();
    let n = order.len();
    for i in (1..n).rev() {
        let j = (r.rand() as usize * 32768 + r.rand() as usize) % (i + 1);
        order.swap(i, j);
    }
    for k in order.iter() {
        assert_eq!(t.delete(*k), Ok(*k));
    }
    assert_eq!(t.size(), 0);
    assert_eq!(t.min(), None);
    assert_eq!(t.max(), None);
    for k in keys.iter().take(100) {
        assert_eq!(t.search(*k), None);
    }
}
