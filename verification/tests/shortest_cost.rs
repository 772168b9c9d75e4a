use state_search::search::{
    solve_shortest_cost, solve_shortest_cost_bucketed, solve_shortest_cost_sparse, Mode,
};
use state_search::state_key::KeyLayout;

type Estimate = fn(usize) -> u64;

fn grid_moves(layout: KeyLayout, walls: Vec<(usize, usize)>) -> impl Fn(usize) -> Vec<(usize, u64)> {
    move |key: usize| {
        let (x, y, _) = layout.decode(key);
        let mut out = Vec::new();
        let mut candidates = Vec::new();
        if x + 1 < layout.width {
            candidates.push((x + 1, y));
        }
        if y + 1 < layout.height {
            candidates.push((x, y + 1));
        }
        if x > 0 {
            candidates.push((x - 1, y));
        }
        if y > 0 {
            candidates.push((x, y - 1));
        }
        for (nx, ny) in candidates {
            if !walls.contains(&(nx, ny)) {
                out.push((layout.encode(nx, ny, 0), 1u64));
            }
        }
        out
    }
}

#[test]
fn wall_on_the_straight_line_costs_a_detour_of_two() {
    let layout = KeyLayout::new(5, 5, 1).unwrap();
    let start = layout.encode(0, 0, 0);
    let target = layout.encode(4, 0, 0);
    let manhattan = 4u64;
    let mode: Mode<Estimate> = Mode::Dijkstra;
    let cost = solve_shortest_cost(
        start,
        layout.capacity_of(),
        grid_moves(layout, vec![(2, 0)]),
        |k| k == target,
        mode,
    );
    assert_eq!(cost, Some(manhattan + 2));
}

#[test]
fn corner_to_corner_through_a_winding_corridor_takes_the_detour() {
    // Open cells, from corner (0, 0) to corner (4, 4):
    //   . . . . #
    //   # # # . #
    //   # # . . #
    //   # # . # #
    //   # # . . .
    // The corridor steps back from column 3 to column 2, so the way through
    // is two longer than the Manhattan distance of 8.
    let layout = KeyLayout::new(5, 5, 1).unwrap();
    let open = vec![
        (0, 0), (1, 0), (2, 0), (3, 0), (3, 1), (3, 2), (2, 2), (2, 3), (2, 4), (3, 4), (4, 4),
    ];
    let mut walls = Vec::new();
    for y in 0..5 {
        for x in 0..5 {
            if !open.contains(&(x, y)) {
                walls.push((x, y));
            }
        }
    }
    let start = layout.encode(0, 0, 0);
    let target = layout.encode(4, 4, 0);
    let mode: Mode<Estimate> = Mode::Dijkstra;
    let cost = solve_shortest_cost(
        start,
        layout.capacity_of(),
        grid_moves(layout, walls),
        |k| k == target,
        mode,
    );
    assert_eq!(cost, Some(8 + 2));
}

#[test]
fn bucketed_and_sparse_agree_with_the_heap() {
    let layout = KeyLayout::new(5, 5, 1).unwrap();
    let start = layout.encode(0, 0, 0);
    let target = layout.encode(4, 4, 0);
    let walls = vec![(2, 2)];
    let plain: Mode<Estimate> = Mode::Dijkstra;
    let sparse: Mode<Estimate> = Mode::Dijkstra;
    let a = solve_shortest_cost(start, 25, grid_moves(layout, walls.clone()), |k| k == target, plain);
    let b = solve_shortest_cost_bucketed(start, 25, grid_moves(layout, walls.clone()), |k| k == target, 64);
    let c = solve_shortest_cost_sparse(start, 25, grid_moves(layout, walls), |k| k == target, sparse);
    assert_eq!(a, Some(8));
    assert_eq!(b, Some(8));
    assert_eq!(c, Some(8));
}

/// The cheapest cost from `start` to any goal by exhaustive relaxation:
/// every edge is relaxed once per round, for as many rounds as there are
/// states.
fn brute_force(edges: &[Vec<(usize, u64)>], start: usize, goals: &[usize]) -> Option<u64> {
    let n = edges.len();
    let mut dist: Vec<Option<u64>> = vec![None; n];
    dist[start] = Some(0);
    for _ in 0..n {
        for s in 0..n {
            if let Some(d) = dist[s] {
                for &(t, w) in edges[s].iter() {
                    let nd = d + w;
                    if dist[t].map_or(true, |old| nd < old) {
                        dist[t] = Some(nd);
                    }
                }
            }
        }
    }
    goals.iter().filter_map(|g| dist[*g]).min()
}

fn small_graph(seed: &mut u64, n: usize) -> Vec<Vec<(usize, u64)>> {
    let mut edges = vec![Vec::new(); n];
    for s in 0..n {
        for t in 0..n {
            *seed = seed.wrapping_mul(6364136223846793005).wrapping_add(1442695040888963407);
            if (*seed >> 33) % 10 < 3 {
                let w = (*seed >> 40) % 12;
                edges[s].push((t, w));
            }
        }
    }
    edges
}

#[test]
fn dijkstra_agrees_with_exhaustive_search_on_small_graphs() {
    let mut seed: u64 = 2024;
    for round in 0..300 {
        let n = 1 + round % 8;
        let edges = small_graph(&mut seed, n);
        let goal = (round * 7) % n;
        let expected = brute_force(&edges, 0, &[goal]);
        let for_heap = edges.clone();
        let mode: Mode<Estimate> = Mode::Dijkstra;
        let got = solve_shortest_cost(0, n, move |s| for_heap[s].clone(), |s| s == goal, mode);
        assert_eq!(got, expected);
        let for_buckets = edges.clone();
        let bucketed =
            solve_shortest_cost_bucketed(0, n, move |s| for_buckets[s].clone(), |s| s == goal, 100);
        assert_eq!(bucketed, expected);
        let for_sparse = edges.clone();
        let sparse_mode: Mode<Estimate> = Mode::Dijkstra;
        let sparse =
            solve_shortest_cost_sparse(0, n, move |s| for_sparse[s].clone(), |s| s == goal, sparse_mode);
        assert_eq!(sparse, expected);
    }
}

#[test]
fn a_star_with_manhattan_estimate_agrees_with_dijkstra() {
    let layout = KeyLayout::new(9, 7, 1).unwrap();
    let mut seed: u64 = 7;
    for _ in 0..40 {
        let mut walls = Vec::new();
        for y in 0..7 {
            for x in 0..9 {
                seed = seed.wrapping_mul(6364136223846793005).wrapping_add(1442695040888963407);
                if (seed >> 33) % 4 == 0 && (x, y) != (0, 0) && (x, y) != (8, 6) {
                    walls.push((x, y));
                }
            }
        }
        let start = layout.encode(0, 0, 0);
        let target = layout.encode(8, 6, 0);
        let plain: Mode<Estimate> = Mode::Dijkstra;
        let by_cost = solve_shortest_cost(
            start,
            layout.capacity_of(),
            grid_moves(layout, walls.clone()),
            |k| k == target,
            plain,
        );
        let guided = Mode::AStar(move |k: usize| {
            let (x, y, _) = layout.decode(k);
            ((8 - x) + (6 - y)) as u64
        });
        let by_estimate = solve_shortest_cost(
            start,
            layout.capacity_of(),
            grid_moves(layout, walls),
            |k| k == target,
            guided,
        );
        assert_eq!(by_estimate, by_cost);
    }
}

#[test]
fn a_star_with_an_estimate_that_is_not_monotone_is_still_optimal() {
    // 0 -> 1 -> 3 costs 1 + 5, 0 -> 2 -> 3 costs 4 + 1. The estimate is
    // admissible but drops by more than the edge cost from 2 to 3.
    let edges: Vec<Vec<(usize, u64)>> = vec![vec![(1, 1), (2, 4)], vec![(3, 5)], vec![(3, 1)], vec![]];
    let estimate = |s: usize| -> u64 { [5, 4, 0, 0][s] };
    let got = solve_shortest_cost(0, 4, move |s| edges[s].clone(), |s| s == 3, Mode::AStar(estimate));
    assert_eq!(got, Some(5));
}

#[test]
fn goal_that_cannot_be_reached_gives_none() {
    let edges: Vec<Vec<(usize, u64)>> = vec![vec![(1, 1)], vec![(0, 1)], vec![]];
    let mode: Mode<Estimate> = Mode::Dijkstra;
    assert_eq!(solve_shortest_cost(0, 3, move |s| edges[s].clone(), |s| s == 2, mode), None);
}

#[test]
fn start_that_is_a_goal_costs_nothing() {
    let edges: Vec<Vec<(usize, u64)>> = vec![vec![(1, 3)], vec![]];
    let mode: Mode<Estimate> = Mode::Dijkstra;
    assert_eq!(solve_shortest_cost(0, 2, move |s| edges[s].clone(), |s| s == 0, mode), Some(0));
}

#[test]
fn bucketed_search_finds_nothing_beyond_its_limit() {
    let chain = |s: usize| -> Vec<(usize, u64)> {
        if s < 5 {
            vec![(s + 1, 3)]
        } else {
            vec![]
        }
    };
    assert_eq!(solve_shortest_cost_bucketed(0, 6, chain, |s| s == 5, 15), Some(15));
    assert_eq!(solve_shortest_cost_bucketed(0, 6, chain, |s| s == 5, 14), None);
    assert_eq!(solve_shortest_cost_bucketed(0, 6, chain, |s| s == 4, 14), Some(12));
}

#[test]
fn walk_whose_cost_does_not_fit_is_not_followed() {
    let edges: Vec<Vec<(usize, u64)>> =
        vec![vec![(1, u64::MAX), (2, u64::MAX - 1)], vec![(3, 1)], vec![(3, 1)], vec![]];
    let mode: Mode<Estimate> = Mode::Dijkstra;
    assert_eq!(
        solve_shortest_cost(0, 4, move |s| edges[s].clone(), |s| s == 3, mode),
        Some(u64::MAX)
    );
    let too_far: Vec<Vec<(usize, u64)>> = vec![vec![(1, u64::MAX)], vec![(2, 1)], vec![]];
    let mode: Mode<Estimate> = Mode::Dijkstra;
    assert_eq!(solve_shortest_cost(0, 3, move |s| too_far[s].clone(), |s| s == 2, mode), None);
}

#[test]
fn cheapest_of_several_goals_wins() {
    let edges: Vec<Vec<(usize, u64)>> =
        vec![vec![(1, 7), (2, 2)], vec![], vec![(3, 2), (1, 1)], vec![]];
    let mode: Mode<Estimate> = Mode::Dijkstra;
    assert_eq!(
        solve_shortest_cost(0, 4, move |s| edges[s].clone(), |s| s == 1 || s == 3, mode),
        Some(3)
    );
}
