use state_search::search::{distances, distances_bucketed};

#[test]
fn every_state_gets_its_cheapest_cost() {
    // 0 -> 1 (4), 0 -> 2 (1), 2 -> 1 (2), 1 -> 3 (5), 4 is cut off.
    let edges: Vec<Vec<(usize, u64)>> =
        vec![vec![(1, 4), (2, 1)], vec![(3, 5)], vec![(1, 2)], vec![], vec![(0, 1)]];
    let for_heap = edges.clone();
    assert_eq!(
        distances(0, 5, move |s| for_heap[s].clone()),
        vec![Some(0), Some(3), Some(1), Some(8), None]
    );
    let for_buckets = edges.clone();
    assert_eq!(
        distances_bucketed(0, 5, move |s| for_buckets[s].clone(), 10),
        vec![Some(0), Some(3), Some(1), Some(8), None]
    );
}

#[test]
fn bucketed_distances_stop_at_the_limit() {
    let edges: Vec<Vec<(usize, u64)>> =
        vec![vec![(1, 4), (2, 1)], vec![(3, 5)], vec![(1, 2)], vec![], vec![(0, 1)]];
    assert_eq!(
        distances_bucketed(0, 5, move |s| edges[s].clone(), 7),
        vec![Some(0), Some(3), Some(1), None, None]
    );
}

#[test]
fn unit_steps_give_breadth_first_levels() {
    let ring = |s: usize| -> Vec<(usize, u64)> { vec![((s + 1) % 6, 1), ((s + 5) % 6, 1)] };
    assert_eq!(
        distances_bucketed(2, 6, ring, 6),
        vec![Some(2), Some(1), Some(0), Some(1), Some(2), Some(3)]
    );
}
