use state_search::puzzles::shrine::{build, part1, part2, part3, Rule};

#[test]
fn plain_shrine_of_thirteen_blocks_misses_three_at_width_seven() {
    assert_eq!(part1(13), Some(21));
}

#[test]
fn plain_shrines_of_few_blocks() {
    assert_eq!(part1(0), Some(0));
    assert_eq!(part1(1), Some(0));
    assert_eq!(part1(2), Some(6));
    assert_eq!(part1(4), Some(0));
    assert_eq!(part1(5), Some(20));
    assert_eq!(part1(4097), Some(16512));
}

#[test]
fn plain_shrine_of_a_million_layers() {
    assert_eq!(part1(1000000000000), Some(0));
    assert_eq!(part1(999999999999), Some(1999999));
    assert_eq!(part1(1000000000001), Some(2000001 * 2000000));
}

#[test]
fn shrine_of_the_priests_with_fifty_blocks() {
    assert_eq!(part2(3, 5, 50), Some(27));
    assert_eq!(part2(3, 5, 1), Some(0));
    assert_eq!(part2(3, 5, 0), Some(1));
    assert_eq!(part2(2, 7, 100), Some(117));
    assert_eq!(part2(3, 1111, 20240000), Some(19342085));
}

#[test]
fn shrine_whose_layers_lose_all_thickness_is_never_complete() {
    assert_eq!(part2(5, 5, 50), None);
    assert_eq!(part2(0, 7, 2), None);
    assert_eq!(part2(6, 4, 1000), None);
    assert_eq!(part2(5, 5, 1), Some(0));
    assert!(build(&Rule { priests: 5, acolytes: 5, extra: 0 }, 2, false).is_none());
}

#[test]
fn shrine_with_blocks_taken_out() {
    assert_eq!(part3(2, 5, 160), Some(2));
    assert_eq!(part3(2, 5, 1), Some(0));
    assert_eq!(part3(2, 5, 19), Some(0));
    assert_eq!(part3(3, 10, 202400000), Some(37396));
    assert_eq!(part3(2, 5, 125820925), Some(0));
}

#[test]
fn built_shrine_lists_its_layers() {
    let shrine = build(&Rule { priests: 3, acolytes: 5, extra: 0 }, 50, true).unwrap();
    assert_eq!(shrine.heights, vec![1, 3, 4, 2, 1]);
    assert_eq!(shrine.width, 9);
    assert_eq!(shrine.required, 1 + 9 + 20 + 14 + 9);
    let high = build(&Rule { priests: 2, acolytes: 5, extra: 5 }, 160, true).unwrap();
    assert_eq!(high.layers, 5);
    let bare = build(&Rule { priests: 2, acolytes: 5, extra: 5 }, 160, false).unwrap();
    assert!(bare.heights.is_empty());
    assert_eq!((bare.width, bare.required, bare.layers), (9, 177, 5));
    assert_eq!(high.heights, vec![1, 7, 9, 8, 6]);
    assert_eq!(high.width, 9);
    assert_eq!(high.required, 177);
}
