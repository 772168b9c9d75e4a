use state_search::grid::Grid;
use state_search::puzzles::volcano::{round_from, round_volcano, sum_of_rings, value, worst_ring};
use state_search::state_key::KeyLayout;

fn field(rows: &[&str]) -> (Grid, Vec<u64>, usize, usize) {
    let grid = Grid::new(rows.concat().into_bytes(), rows[0].len(), rows.len()).unwrap();
    let origin = grid.find(b'@').unwrap();
    let start = grid.find(b'S').unwrap_or(0);
    let (ox, oy) = ((origin % grid.width) as f64, (origin / grid.width) as f64);
    let radii = (0..grid.len())
        .map(|c| {
            let dx = (c % grid.width) as f64 - ox;
            let dy = (c / grid.width) as f64 - oy;
            (dx * dx + dy * dy).sqrt().ceil() as u64
        })
        .collect();
    (grid, radii, origin, start)
}

const ISLAND: [&str; 15] = [
    "2645233S5466644",
    "634566343252465",
    "353336645243246",
    "233343552544555",
    "225243326235365",
    "536334634462246",
    "666344656233244",
    "6426432@2366453",
    "364346442652235",
    "253652463426433",
    "426666225623563",
    "555462553462364",
    "346225464436334",
    "643362324542432",
    "463332353552464",
];

#[test]
fn cells_cost_their_digit() {
    assert_eq!(value(b'0'), 0);
    assert_eq!(value(b'7'), 7);
    assert_eq!(value(b'9'), 9);
    assert_eq!(value(b'S'), 0);
    assert_eq!(value(b'@'), 0);
}

#[test]
fn rings_are_summed_by_their_radius() {
    let (grid, radii, _, _) = field(&ISLAND);
    assert_eq!(sum_of_rings(&grid, &radii, 0, 3), 109);
    assert_eq!(sum_of_rings(&grid, &radii, 0, 10), 891);
    assert_eq!(sum_of_rings(&grid, &radii, 0, 0), 0);
    assert_eq!(sum_of_rings(&grid, &radii, 5, 4), 0);
}

#[test]
fn worst_ring_is_the_outermost_of_those_that_destroy_most() {
    let (grid, radii, _, _) = field(&ISLAND);
    assert_eq!(worst_ring(&grid, &radii, 7), Some((7, 143)));
    assert_eq!(worst_ring(&grid, &radii, 0), None);
    let (flat, even, _, _) = field(&["000", "0@0", "000"]);
    assert_eq!(worst_ring(&flat, &even, 2), Some((2, 0)));
}

#[test]
fn way_round_the_island() {
    let (grid, radii, origin, start) = field(&ISLAND);
    assert_eq!(round_volcano(&grid, &radii, origin, start), Some(596));
}

#[test]
fn ways_round_small_islands() {
    let cases: [(&[&str], u64); 4] = [
        (&["653S553", "1355353", "3244565", "342@545", "4225136", "1413555", "2365444"], 57),
        (&["434S442", "5536343", "4133432", "411@542", "3124145", "5324124", "3263345"], 45),
        (
            &[
                "3363S4326", "433525223", "436166642", "555643556", "3612@5456", "226266142",
                "212132425", "144346515", "226313434",
            ],
            164,
        ),
        (
            &[
                "5656S1233", "563536514", "336652113", "546165214", "4556@6644", "446623413",
                "164536432", "246543524", "551162311",
            ],
            162,
        ),
    ];
    for (rows, expected) in cases {
        let (grid, radii, origin, start) = field(rows);
        assert_eq!(round_volcano(&grid, &radii, origin, start), Some(expected));
    }
}

#[test]
fn island_without_a_cell_below_the_volcano_has_no_round() {
    let (grid, radii, origin, start) = field(&["1S1", "1@1"]);
    assert_eq!(round_volcano(&grid, &radii, origin, start), None);
    let (slow, far, at, from) = field(&["9S9", "9@9", "999"]);
    assert_eq!(round_volcano(&slow, &far, at, from), None);
}

#[test]
fn no_step_crosses_the_row_of_the_volcano_on_the_far_side() {
    let (grid, radii, origin, _) = field(&["1S1", "2@3", "456"]);
    let layout = KeyLayout::new(9, 1, 6).unwrap();
    let left_of = |c: usize, level: usize| layout.encode(c, 0, 2 * level);
    let right_of = |c: usize, level: usize| layout.encode(c, 0, 2 * level + 1);
    assert_eq!(
        round_from(&grid, &radii, origin, &layout, left_of(2, 2)),
        vec![(left_of(1, 1), 0)]
    );
    assert_eq!(
        round_from(&grid, &radii, origin, &layout, right_of(2, 2)),
        vec![(right_of(5, 1), 3), (right_of(1, 1), 0)]
    );
    assert_eq!(
        round_from(&grid, &radii, origin, &layout, left_of(6, 2)),
        vec![(left_of(7, 1), 5), (left_of(3, 1), 2)]
    );
}
