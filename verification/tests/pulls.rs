use state_search::puzzles::pulls::coins_of_pulls;
use state_search::puzzles::wheels::Machine;

fn machine() -> Machine {
    let faces = |list: &[&str]| -> Vec<Vec<u8>> { list.iter().map(|f| f.as_bytes().to_vec()).collect() };
    Machine {
        wheels: vec![
            faces(&["^_^", ">.-", "-_-"]),
            faces(&["-.-", "^_^", "-.-", "-.^", ">.>"]),
            faces(&["^,-", ">.<", ">.<", "^_^"]),
        ],
        instructions: vec![1, 2, 3],
    }
}

#[test]
fn few_pulls_pay_pull_by_pull() {
    let pays: Vec<Option<u64>> =
        [0, 1, 2, 3, 4, 5, 10].iter().map(|n| coins_of_pulls(&machine(), *n)).collect();
    assert_eq!(
        pays,
        vec![Some(0), Some(1), Some(2), Some(4), Some(5), Some(7), Some(15)]
    );
}

#[test]
fn many_pulls_pay_round_by_round() {
    assert_eq!(coins_of_pulls(&machine(), 100), Some(138));
    assert_eq!(coins_of_pulls(&machine(), 1000), Some(1383));
    assert_eq!(coins_of_pulls(&machine(), 202420242024), Some(280014668134));
}

#[test]
fn machine_that_always_pays_outgrows_the_count() {
    let rich = Machine {
        wheels: vec![vec![b"AAA".to_vec()], vec![b"AAA".to_vec()], vec![b"AAA".to_vec()]],
        instructions: vec![1, 1, 1],
    };
    assert_eq!(coins_of_pulls(&rich, 3), Some(12));
    assert_eq!(coins_of_pulls(&rich, u64::MAX / 4), Some(u64::MAX / 4 * 4));
    assert_eq!(coins_of_pulls(&rich, u64::MAX / 4 + 1), None);
    assert_eq!(coins_of_pulls(&rich, u64::MAX), None);
}

#[test]
fn pays_are_kept_in_the_caches_from_call_to_call() {
    use_caches();
}

fn use_caches() {
    let machine = machine();
    let mut least = state_search::memo::MemoCache::new(60, 12).unwrap();
    let mut greatest = state_search::memo::MemoCache::new(60, 12).unwrap();
    let start = vec![0usize, 0, 0];
    let first = state_search::puzzles::wheels::dfs_cached(10, &start, &machine, &mut least, &mut greatest);
    assert_eq!(first, state_search::puzzles::wheels::dfs(10, &start, &machine));
    assert_eq!(least.get(0, 10), first.0);
    assert_eq!(greatest.get(0, 10), first.1);
    let again = state_search::puzzles::wheels::dfs_cached(10, &start, &machine, &mut least, &mut greatest);
    assert_eq!(again, first);
    let fewer = state_search::puzzles::wheels::dfs_cached(3, &start, &machine, &mut least, &mut greatest);
    assert_eq!(fewer, state_search::puzzles::wheels::dfs(3, &start, &machine));
    let none = state_search::puzzles::wheels::dfs_cached(0, &start, &machine, &mut least, &mut greatest);
    assert_eq!(none, (Some(0), Some(0)));
}
