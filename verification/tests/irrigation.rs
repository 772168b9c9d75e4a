use state_search::grid::Grid;
use state_search::puzzles::irrigation::{flood, flow_from, last_plant, plants_of, well_sums};
use state_search::puzzles::tree::least_positive;

fn farm(rows: &[&str]) -> Grid {
    Grid::new(rows.concat().into_bytes(), rows[0].len(), rows.len()).unwrap()
}

const SMALL: [&str; 5] = ["##########", "..#......#", "#.P.####P#", "#.#...P#.#", "##########"];

const LARGE: [&str; 9] = [
    "#######################",
    "...P..P...#P....#.....#",
    "#.#######.#.#.#.#####.#",
    "#.....#...#P#.#..P....#",
    "#.#####.#####.#########",
    "#...P....P.P.P.....P#.#",
    "#.#######.#####.#.#.#.#",
    "#...#.....#P...P#.#....",
    "#######################",
];

const CLOSED: [&str; 5] = ["##########", "#.#......#", "#.P.####P#", "#.#...P#.#", "##########"];

fn watering_time(grid: &Grid) -> Option<u64> {
    last_plant(grid, &flood(grid, grid.len()))
}

#[test]
fn water_from_one_entrance_reaches_the_last_plant_after_eleven_minutes() {
    assert_eq!(watering_time(&farm(&SMALL)), Some(11));
}

#[test]
fn water_from_two_entrances_reaches_the_last_plant_after_twenty_one_minutes() {
    assert_eq!(watering_time(&farm(&LARGE)), Some(21));
}

#[test]
fn farm_without_an_entrance_stays_dry() {
    assert_eq!(watering_time(&farm(&CLOSED)), None);
    assert_eq!(watering_time(&farm(&["#P#", "###"])), None);
}

#[test]
fn farm_without_plants_is_watered_at_once() {
    assert_eq!(watering_time(&farm(&["..", ".."])), Some(0));
    assert_eq!(watering_time(&farm(&["##", "##"])), Some(0));
}

#[test]
fn plant_on_the_edge_is_no_entrance() {
    assert_eq!(watering_time(&farm(&["..", "P."])), Some(1));
}

#[test]
fn water_comes_in_at_the_open_cells_of_the_edge() {
    let grid = farm(&SMALL);
    assert_eq!(flow_from(&grid, grid.len()), vec![(10, 0)]);
    assert_eq!(flow_from(&grid, 11), vec![(21, 1), (10, 1)]);
    assert_eq!(flow_from(&grid, 10), vec![(11, 1)]);
    let costs = flood(&grid, grid.len());
    assert_eq!(costs[10], Some(0));
    assert_eq!(costs[11], Some(1));
    assert_eq!(costs[21], Some(2));
    assert_eq!(costs[22], Some(3));
    assert_eq!(costs[0], None);
    let wide = farm(&LARGE);
    assert_eq!(flow_from(&wide, wide.len()), vec![(23, 0), (183, 0)]);
}

#[test]
fn plants_are_listed_in_the_order_of_the_cells() {
    assert_eq!(plants_of(&farm(&SMALL)), vec![22, 28, 36]);
    assert!(plants_of(&farm(&["..", ".."])).is_empty());
}

#[test]
fn best_place_for_a_well_costs_twelve_minutes() {
    let grid = farm(&CLOSED);
    let rows: Vec<Vec<Option<u64>>> = plants_of(&grid).iter().map(|p| flood(&grid, *p)).collect();
    let sums = well_sums(&grid, &rows).unwrap();
    assert_eq!(
        sums,
        vec![
            0, 0, 0, 0, 0, 0, 0, 0, 0, 0, 0, 19, 0, 13, 14, 15, 16, 17, 18, 0, 0, 16, 0, 12, 0, 0,
            0, 0, 0, 0, 0, 19, 0, 13, 14, 15, 0, 0, 22, 0, 0, 0, 0, 0, 0, 0, 0, 0, 0, 0
        ]
    );
    assert_eq!(least_positive(&sums), Some(12));
}

#[test]
fn well_sums_that_do_not_fit_are_refused() {
    let grid = farm(&["..P#"]);
    let high = vec![Some(u64::MAX), Some(u64::MAX), Some(u64::MAX), Some(u64::MAX)];
    let low = vec![Some(1), None, Some(1), Some(1)];
    assert_eq!(well_sums(&grid, &vec![high.clone(), low.clone()]), None);
    assert_eq!(well_sums(&grid, &vec![high.clone()]), Some(vec![u64::MAX, u64::MAX, 0, 0]));
    let other = vec![None, Some(0), Some(1), Some(1)];
    assert_eq!(well_sums(&grid, &vec![low, other]), Some(vec![1, 0, 0, 0]));
    assert_eq!(well_sums(&grid, &Vec::new()), Some(vec![0, 0, 0, 0]));
}
