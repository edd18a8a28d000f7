use rbtree::Rand;

#[test]
fn same_seed_same_sequence() {
    let mut a = Rand::srand(69);
    let mut b = Rand::srand(69);
    for _ in 0..100 {
        assert_eq!(a.rand(), b.rand());
    }
}

#[test]
fn new_is_seed_one() {
    let mut a = Rand::new();
    let mut b = Rand::srand(1);
    for _ in 0..20 {
        assert_eq!(a.rand(), b.rand());
    }
}

#[test]
fn values_in_range_and_known() {
    let mut r = Rand::srand(1);
    // 1 * 1103515245 + 12345 = 1103527590; 1103527590 / 65536 = 16838
    assert_eq!(r.rand(), 16838);
    for _ in 0..1000 {
        let v = r.rand();
        assert!(v >= 0 && v < 32768);
    }
}

#[test]
fn negative_seed_stays_in_range() {
    let mut r = Rand::srand(i64::MIN);
    for _ in 0..1000 {
        let v = r.rand();
        assert!(v >= 0 && v < 32768);
    }
}

