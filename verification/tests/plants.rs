use state_search::puzzles::plants::{dfs, dfs2, settle, Incoming, Plant};

fn free(id: i64) -> Plant {
    Plant { id, free: true, thickness: 1, incoming: vec![Incoming { thickness: 1, source: None }] }
}

fn fed(id: i64, thickness: i64, branches: &[(i64, usize)]) -> Plant {
    Plant {
        id,
        free: false,
        thickness,
        incoming: branches.iter().map(|b| Incoming { thickness: b.0, source: Some(b.1) }).collect(),
    }
}

fn garden() -> Vec<Plant> {
    vec![
        free(1),
        free(2),
        free(3),
        fed(4, 17, &[(15, 0), (3, 1)]),
        fed(5, 24, &[(11, 1), (13, 2)]),
        fed(6, 15, &[(14, 2)]),
        fed(7, 10, &[(15, 3), (21, 4), (34, 5)]),
    ]
}

fn thicket() -> Vec<Plant> {
    vec![
        free(1),
        free(2),
        free(3),
        free(4),
        fed(5, 8, &[(-8, 0), (11, 1), (13, 2), (-7, 3)]),
        fed(6, 7, &[(-7, 0), (-9, 1), (-11, 2), (6, 3)]),
        fed(7, 15, &[(-14, 0), (10, 1), (6, 2), (-9, 3)]),
        fed(8, 5, &[(11, 4), (22, 5), (13, 6)]),
    ]
}

#[test]
fn garden_without_losses_is_brightest_with_all_plants_on() {
    let plants = garden();
    assert_eq!(dfs2(&plants, 3), Some(774));
    assert_eq!(dfs2(&plants, 2), Some(774));
    assert_eq!(dfs2(&plants, 0), Some(774));
    assert_eq!(dfs(6, &plants), Some(774));
}

#[test]
fn thicket_is_brightest_with_two_plants_off() {
    let plants = thicket();
    assert_eq!(dfs(7, &plants), Some(99));
    assert_eq!(dfs2(&plants, 4), Some(472));
    assert_eq!(dfs2(&plants, 2), Some(187));
    assert_eq!(dfs2(&plants, 0), Some(99));
}

#[test]
fn brightest_setting_of_the_thicket_gives_what_the_search_found() {
    let plants = thicket();
    let best = settle(&plants, &vec![false, true, true, false]);
    assert_eq!(dfs(7, &best), Some(472));
    for mask in 0..16u32 {
        let setting: Vec<bool> = (0..4).map(|i| mask & (1 << i) != 0).collect();
        let set = settle(&plants, &setting);
        assert!(dfs(7, &set).unwrap() <= 472);
    }
}

#[test]
fn settle_sets_the_thickness_of_the_first_plants_only() {
    let plants = garden();
    let set = settle(&plants, &vec![false, true]);
    let thickness: Vec<i64> = set.iter().map(|p| p.thickness).collect();
    assert_eq!(thickness, vec![0, 1, 1, 17, 24, 15, 10]);
    assert!(set.iter().zip(plants.iter()).all(|(a, b)| a.id == b.id && a.free == b.free));
    assert_eq!(set[6].incoming.len(), 3);
    assert_eq!(set[6].incoming[1].thickness, 21);
    assert_eq!(set[6].incoming[1].source, Some(4));
}

#[test]
fn garden_that_is_never_thick_enough_stays_dark() {
    let plants = vec![free(1), fed(2, 5, &[(2, 0)])];
    assert_eq!(dfs2(&plants, 1), Some(0));
    assert_eq!(dfs2(&plants, 0), Some(0));
}

#[test]
fn energy_that_does_not_fit_under_one_setting_is_refused() {
    let plants = vec![free(1), fed(2, 0, &[(i64::MAX, 0), (i64::MAX, 0)])];
    assert_eq!(dfs2(&plants, 1), None);
    assert_eq!(dfs2(&plants, 0), None);
    let mild = vec![free(1), fed(2, 0, &[(i64::MAX, 0)])];
    assert_eq!(dfs2(&mild, 1), Some(i64::MAX));
}
