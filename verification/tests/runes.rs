use state_search::puzzles::runes::{solve_block, try_solve};

fn grid_of(rows: &[&str]) -> (Vec<u8>, usize) {
    (rows.concat().into_bytes(), rows[0].len())
}

fn rows_of(grid: &[u8], width: usize) -> Vec<String> {
    grid.chunks(width).map(|r| String::from_utf8(r.to_vec()).unwrap()).collect()
}

const BLOCK: [&str; 8] = [
    "**PCBS**", "**RLNW**", "BV....PT", "CR....HZ", "FL....JW", "SG....MN", "**FTZV**", "**GMJH**",
];

const WALL: [&str; 14] = [
    "**XFZB**DCST**",
    "**LWQK**GQJH**",
    "?G....WL....DQ",
    "BS....H?....CN",
    "P?....KJ....TV",
    "NM....Z?....SG",
    "**NSHM**VKWZ**",
    "**PJGV**XFNL**",
    "WQ....?L....YS",
    "FX....DJ....HV",
    "?Y....WM....?J",
    "TJ....YK....LP",
    "**XRTK**BMSP**",
    "**DWZN**GCJV**",
];

#[test]
fn block_with_all_symbols_known_is_solved_by_matching() {
    let (mut grid, width) = grid_of(&BLOCK);
    let found = try_solve(&mut grid, width, 0, 0);
    assert_eq!(found, Some((1851, b"PTBVRCZHFLJWGMNS".to_vec())));
    assert_eq!(
        rows_of(&grid, width),
        vec![
            "**PCBS**", "**RLNW**", "BVPTBVPT", "CRRCZHHZ", "FLFLJWJW", "SGGMNSMN", "**FTZV**",
            "**GMJH**"
        ]
    );
}

#[test]
fn solve_block_gives_the_block_back_solved() {
    let (cells, _) = grid_of(&BLOCK);
    let (solved, found) = solve_block(cells);
    assert_eq!(found, Some((1851, b"PTBVRCZHFLJWGMNS".to_vec())));
    assert_eq!(&solved[16..24], b"BVPTBVPT");
    assert_eq!(&solved[0..16], b"**PCBS****RLNW**");
}

#[test]
fn unknown_symbols_are_guessed_from_what_is_left() {
    let (mut grid, width) = grid_of(&WALL);
    let found = try_solve(&mut grid, width, 0, 0);
    assert_eq!(found, Some((1900, b"LWGVXSHBPJQKNFZM".to_vec())));
    let rows = rows_of(&grid, width);
    assert_eq!(rows[2], "VGLWGVWL....DQ");
    assert_eq!(rows[3], "BSXSHBHX....CN");
    assert_eq!(rows[4], "PQPJQKKJ....TV");
    assert_eq!(rows[5], "NMNFZMZF....SG");
    assert_eq!(rows[0], WALL[0]);
    assert_eq!(rows[8], WALL[8]);
}

#[test]
fn block_beside_the_first_is_solved_in_its_place() {
    let (mut grid, width) = grid_of(&WALL);
    let found = try_solve(&mut grid, width, 6, 0);
    assert_eq!(found, Some((1989, b"DQWLXCNHVKJTGFSZ".to_vec())));
    let rows = rows_of(&grid, width);
    assert_eq!(rows[2], "?G....WLDQWLDQ");
    assert_eq!(rows[3], "BS....HXXCNHCN");
    assert_eq!(rows[4], "P?....KJVKJTTV");
    assert_eq!(rows[5], "NM....ZFGFSZSG");
    assert_eq!(rows[10], WALL[10]);
}

#[test]
fn block_that_cannot_be_solved_keeps_what_was_found() {
    let (mut grid, width) = grid_of(&WALL);
    assert_eq!(try_solve(&mut grid, width, 0, 6), None);
    let rows = rows_of(&grid, width);
    assert_eq!(rows[8], "WQ.W..?L....YS");
    assert_eq!(rows[9], "FXXJ..DJ....HV");
    assert_eq!(rows[10], "?Y.W.MWM....?J");
    assert_eq!(rows[11], "TJ.JTKYK....LP");
    assert_eq!(rows[2], WALL[2]);
}

#[test]
fn blocks_solved_one_after_another_share_their_edges() {
    let (mut grid, width) = grid_of(&WALL);
    let mut found = Vec::new();
    for (sx, sy) in [(0, 0), (6, 0), (0, 6), (6, 6)] {
        found.push(try_solve(&mut grid, width, sx, sy).map(|f| f.0));
    }
    assert_eq!(found, vec![Some(1900), Some(1989), None, None]);
    assert_eq!(
        rows_of(&grid, width),
        vec![
            "**XFZB**DCST**",
            "**LWQK**GQJH**",
            "VGLWGVWLDQWLDQ",
            "BSXSHBHXXCNHCN",
            "PQPJQKKJVKJTTV",
            "NMNFZMZFGFSZSG",
            "**NSHM**VKWZ**",
            "**PJGV**XFNL**",
            "WQ.W..?L..SLYS",
            "FXXJ..DJV.JVHV",
            "?Y.W.MWM.MW.?J",
            "TJ.JTKYK.K.LLP",
            "**XRTK**BMSP**",
            "**DWZN**GCJV**",
        ]
    );
}

#[test]
fn block_with_too_few_matches_is_not_solved() {
    let rows = ["**AB?D**", "**EFGH**", "AX....YE", "BQ....RF", "CS....TG", "DU....VH", "**XQSU**", "**YRTV**"];
    let (mut grid, width) = grid_of(&rows);
    assert_eq!(try_solve(&mut grid, width, 0, 0), None);
    assert_eq!(
        rows_of(&grid, width),
        vec!["**AB?D**", "**EFGH**", "AXA...YE", "BQ.B..RF", "CS..G.TG", "DU...DVH", "**XQSU**", "**YRTV**"]
    );
}
