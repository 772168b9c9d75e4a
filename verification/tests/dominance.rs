use state_search::dominance::{DenseDominance, Dominance, HashDominance};

fn check_offers<D: Dominance>(mut table: D) {
    assert_eq!(table.best(3), None);
    assert!(table.offer(3, 10));
    assert_eq!(table.best(3), Some(10));
    assert!(!table.offer(3, 10));
    assert!(!table.offer(3, 11));
    assert_eq!(table.best(3), Some(10));
    assert!(table.offer(3, 4));
    assert_eq!(table.best(3), Some(4));
    assert_eq!(table.best(2), None);
    assert!(table.offer(2, u64::MAX));
    assert_eq!(table.best(2), Some(u64::MAX));
    assert!(table.offer(2, 0));
    assert!(!table.offer(2, 0));
    assert_eq!(table.best(2), Some(0));
    assert_eq!(table.best(3), Some(4));
}

#[test]
fn dense_table_keeps_strict_improvements_only() {
    check_offers(DenseDominance::new(8));
}

#[test]
fn hashed_table_keeps_strict_improvements_only() {
    check_offers(HashDominance::new());
}

fn check_least<D: Dominance>(mut table: D) {
    let offers: Vec<(usize, u64)> =
        vec![(1, 9), (4, 2), (1, 7), (1, 8), (4, 2), (0, 5), (4, 1), (1, 7), (0, 6)];
    for (key, cost) in offers.iter() {
        table.offer(*key, *cost);
    }
    for key in 0..6usize {
        let least = offers.iter().filter(|o| o.0 == key).map(|o| o.1).min();
        assert_eq!(table.best(key), least);
    }
}

#[test]
fn dense_table_records_the_least_cost_offered() {
    check_least(DenseDominance::new(6));
}

#[test]
fn hashed_table_records_the_least_cost_offered() {
    check_least(HashDominance::new());
}

#[test]
fn hashed_table_takes_far_apart_keys() {
    let mut table = HashDominance::new();
    assert!(table.offer(usize::MAX, 3));
    assert!(table.offer(0, 4));
    assert_eq!(table.best(usize::MAX), Some(3));
    assert_eq!(table.best(0), Some(4));
    assert_eq!(table.best(usize::MAX - 1), None);
}
