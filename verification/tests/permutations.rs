use state_search::permutations::permutations_lexicographic;

fn all(a: Vec<u64>) -> Vec<Vec<u64>> {
    let mut it = permutations_lexicographic(&a);
    let mut out = Vec::new();
    while let Some(p) = it.next() {
        out.push(p);
    }
    out
}

#[test]
fn duplicates_are_arranged_once() {
    // 'A', 'B', 'A' as numbers.
    assert_eq!(all(vec![65, 66, 65]), vec![vec![65, 65, 66], vec![65, 66, 65], vec![66, 65, 65]]);
}

#[test]
fn three_distinct_numbers_have_six_arrangements_in_order() {
    assert_eq!(
        all(vec![3, 1, 2]),
        vec![
            vec![1, 2, 3],
            vec![1, 3, 2],
            vec![2, 1, 3],
            vec![2, 3, 1],
            vec![3, 1, 2],
            vec![3, 2, 1],
        ]
    );
}

#[test]
fn short_lists_have_one_arrangement() {
    assert_eq!(all(vec![]), vec![Vec::<u64>::new()]);
    assert_eq!(all(vec![9]), vec![vec![9]]);
    assert_eq!(all(vec![4, 4, 4]), vec![vec![4, 4, 4]]);
}

#[test]
fn iterator_stays_exhausted() {
    let mut it = permutations_lexicographic(&vec![2, 1]);
    assert_eq!(it.next(), Some(vec![1, 2]));
    assert_eq!(it.next(), Some(vec![2, 1]));
    assert_eq!(it.next(), None);
    assert_eq!(it.next(), None);
}

#[test]
fn arrangements_are_strictly_increasing_and_complete() {
    // Five of one kind, three of another, three of a third: 11! / (5! 3! 3!).
    let template = vec![0, 0, 0, 0, 0, 1, 1, 1, 2, 2, 2];
    let got = all(template);
    assert_eq!(got.len(), 9240);
    for pair in got.windows(2) {
        assert!(pair[0] < pair[1]);
    }
}
