use state_search::puzzles::constellations::{constellation, constellations, size_of};
use state_search::puzzles::measures::Star;

fn stars_of(map: &[&str]) -> Vec<Star> {
    let mut stars = Vec::new();
    for (y, row) in map.iter().enumerate() {
        for (x, c) in row.chars().enumerate() {
            if c == '*' {
                stars.push(Star { x, y });
            }
        }
    }
    stars
}

fn span(stars: &[Star], a: usize, b: usize) -> u64 {
    (stars[a].x.abs_diff(stars[b].x) + stars[a].y.abs_diff(stars[b].y)) as u64
}

fn linked(stars: &[Star], a: usize, b: usize, reach: Option<u64>) -> bool {
    a != b && reach.map_or(true, |r| span(stars, a, b) < r)
}

/// Checks that every star of `joins` was a free star at the end of a
/// shortest link leaving the stars before it, and that no link leaves the
/// whole.
fn check_run(stars: &[Star], taken: &[bool], reach: Option<u64>, start: usize, joins: &[(usize, u64)]) {
    assert_eq!(joins[0], (start, 0));
    let mut inside = taken.to_vec();
    assert!(!inside[start]);
    inside[start] = true;
    let mut members = vec![start];
    for &(s, d) in &joins[1..] {
        assert!(!inside[s]);
        let mut least: Option<u64> = None;
        for &a in &members {
            for b in 0..stars.len() {
                if !inside[b] && linked(stars, a, b, reach) {
                    least = Some(least.map_or(span(stars, a, b), |l| l.min(span(stars, a, b))));
                }
            }
        }
        assert_eq!(least, Some(d));
        assert!(members.iter().any(|&a| linked(stars, a, s, reach) && span(stars, a, s) == d));
        inside[s] = true;
        members.push(s);
    }
    for &a in &members {
        for b in 0..stars.len() {
            assert!(inside[b] || !linked(stars, a, b, reach));
        }
    }
}

const SKY: [&str; 5] = ["*...*", "..*..", ".....", ".....", "*.*.."];

const WIDE_SKY: [&str; 7] = [
    ".......................................",
    "..*.......*...*.....*...*......**.**...",
    "....*.................*.......*..*..*..",
    "..*.........*.......*...*.....*.....*..",
    "......................*........*...*...",
    "..*.*.....*...*.....*...*........*.....",
    ".......................................",
];

#[test]
fn five_stars_make_a_constellation_of_size_sixteen() {
    let stars = stars_of(&SKY);
    let mut inside = vec![false; stars.len()];
    let joins = constellation(&stars, 0, None, &mut inside);
    assert_eq!(joins.len(), 5);
    assert_eq!(size_of(&joins), Some(16));
    assert_eq!(inside, vec![true; 5]);
    check_run(&stars, &[false; 5], None, 0, &joins);
}

#[test]
fn constellation_has_the_same_size_from_every_start() {
    let stars = stars_of(&SKY);
    for start in 0..stars.len() {
        let mut inside = vec![false; stars.len()];
        let joins = constellation(&stars, start, None, &mut inside);
        assert_eq!(joins[0], (start, 0));
        assert_eq!(size_of(&joins), Some(16));
        check_run(&stars, &[false; 5], None, start, &joins);
    }
}

#[test]
fn stars_join_nearest_first() {
    let stars = vec![Star { x: 0, y: 0 }, Star { x: 10, y: 0 }, Star { x: 3, y: 0 }, Star { x: 4, y: 0 }];
    let mut inside = vec![false; 4];
    let joins = constellation(&stars, 0, None, &mut inside);
    assert_eq!(joins, vec![(0, 0), (2, 3), (3, 1), (1, 6)]);
    assert_eq!(size_of(&joins), Some(14));
}

#[test]
fn lone_star_is_a_constellation_of_size_one() {
    let stars = vec![Star { x: 7, y: 9 }];
    let mut inside = vec![false];
    let joins = constellation(&stars, 0, None, &mut inside);
    assert_eq!(joins, vec![(0, 0)]);
    assert_eq!(size_of(&joins), Some(1));
    assert_eq!(inside, vec![true]);
}

#[test]
fn stars_beyond_the_reach_stay_outside() {
    let stars = vec![Star { x: 0, y: 0 }, Star { x: 5, y: 0 }, Star { x: 11, y: 0 }, Star { x: 6, y: 1 }];
    let mut inside = vec![false; 4];
    let joins = constellation(&stars, 0, Some(6), &mut inside);
    assert_eq!(joins, vec![(0, 0), (1, 5), (3, 2)]);
    assert_eq!(inside, vec![true, true, false, true]);
    let rest = constellation(&stars, 2, Some(6), &mut inside);
    assert_eq!(rest, vec![(2, 0)]);
    assert_eq!(inside, vec![true; 4]);
}

#[test]
fn stars_taken_before_are_never_joined() {
    let stars = vec![Star { x: 0, y: 0 }, Star { x: 1, y: 0 }, Star { x: 2, y: 0 }];
    let mut inside = vec![false, true, false];
    let joins = constellation(&stars, 0, None, &mut inside);
    assert_eq!(joins, vec![(0, 0), (2, 2)]);
    assert_eq!(inside, vec![true, true, true]);
}

#[test]
fn sky_without_reach_is_one_constellation() {
    let stars = stars_of(&WIDE_SKY);
    let all = constellations(&stars, None);
    assert_eq!(all.len(), 1);
    assert_eq!(all[0].len(), stars.len());
    check_run(&stars, &vec![false; stars.len()], None, 0, &all[0]);
}

#[test]
fn sky_with_reach_six_parts_into_four_constellations() {
    let stars = stars_of(&WIDE_SKY);
    let all = constellations(&stars, Some(6));
    let sizes: Vec<Option<u64>> = all.iter().map(size_of).collect();
    assert_eq!(sizes, vec![Some(14), Some(21), Some(24), Some(31)]);
    let firsts: Vec<usize> = all.iter().map(|c| c[0].0).collect();
    assert_eq!(firsts, vec![0, 1, 3, 5]);
    let mut taken = vec![false; stars.len()];
    for joins in &all {
        check_run(&stars, &taken, Some(6), joins[0].0, joins);
        for &(s, _) in joins {
            taken[s] = true;
        }
    }
    assert!(taken.iter().all(|t| *t));
    let mut sorted: Vec<u64> = sizes.iter().map(|s| s.unwrap()).collect();
    sorted.sort_unstable();
    assert_eq!(sorted.iter().rev().take(3).product::<u64>(), 15624);
}

#[test]
fn no_stars_make_no_constellation() {
    assert!(constellations(&Vec::new(), None).is_empty());
    assert_eq!(size_of(&Vec::new()), Some(0));
}

#[test]
fn size_counts_every_star_and_every_link() {
    assert_eq!(size_of(&vec![(0, 0), (4, 7), (2, 1)]), Some(11));
    assert_eq!(size_of(&vec![(0, u64::MAX - 1)]), Some(u64::MAX));
    assert_eq!(size_of(&vec![(0, u64::MAX)]), None);
    assert_eq!(size_of(&vec![(0, u64::MAX - 2), (1, 0)]), Some(u64::MAX));
    assert_eq!(size_of(&vec![(0, u64::MAX - 2), (1, 1)]), None);
}
