use state_search::puzzles::tree::{
    direction, grow, key_at, least_positive, read_branch, steps_from, trunk_distances, trunk_sums,
    Tree,
};

fn tree_of(text: &str) -> Tree {
    let branches: Vec<Vec<(u8, i32)>> =
        text.lines().map(|l| read_branch(&l.as_bytes().to_vec()).unwrap()).collect();
    grow(&branches).unwrap()
}

fn murkiness(tree: &Tree) -> Option<u64> {
    let rows: Vec<Vec<Option<u64>>> =
        tree.leaves.iter().map(|l| trunk_distances(&tree.segments, *l)).collect();
    least_positive(&trunk_sums(&rows).unwrap())
}

const SMALL: &str = "U5,R3,D2,L5,U4,R5,D2\nU6,L1,D2,R3,U2,L1";

const LARGE: &str = "U20,L1,B1,L2,B1,R2,L1,F1,U1\nU10,F1,B1,R1,L1,B1,L1,F1,R2,U1\n\
                     U30,L2,F1,R1,B1,R1,F2,U1,F1\nU25,R1,L2,B1,U1,R2,F1,L2\nU16,L1,B1,L1,B3,L1,B1,F1";

#[test]
fn single_branch_reaches_height_seven() {
    let tree = tree_of("U5,R3,D2,L5,U4,R5,D2");
    assert_eq!(tree.height, 7);
    assert_eq!(tree.n_segments, 24);
    assert_eq!(tree.leaves, vec![(3, 5, 0)]);
}

#[test]
fn two_branches_share_segments() {
    let tree = tree_of(SMALL);
    assert_eq!(tree.n_segments, 32);
    assert_eq!(tree.height, 7);
    assert_eq!(tree.leaves, vec![(3, 5, 0), (1, 6, 0)]);
    assert_eq!(tree.segments.iter().filter(|s| **s).count(), 32);
    assert!(tree.segments[key_at(0, 1, 0)]);
    assert!(tree.segments[key_at(3, 5, 0)]);
    assert!(tree.segments[key_at(-2, 3, 0)]);
    assert!(!tree.segments[key_at(0, 0, 0)]);
    assert!(!tree.segments[key_at(4, 5, 0)]);
}

#[test]
fn five_branches_in_three_dimensions() {
    let tree = tree_of(LARGE);
    assert_eq!(tree.n_segments, 68);
    assert_eq!(tree.height, 31);
    assert_eq!(
        tree.leaves,
        vec![(-2, 21, -1), (1, 11, 0), (0, 31, 3), (-1, 26, 0), (-3, 16, -4)]
    );
}

#[test]
fn tree_without_branches_is_empty() {
    let tree = grow(&Vec::new()).unwrap();
    assert_eq!(tree.n_segments, 0);
    assert_eq!(tree.height, 0);
    assert!(tree.leaves.is_empty());
    assert_eq!(tree.segments.len(), 128 * 128 * 128);
    assert!(tree.segments.iter().all(|s| !*s));
}

#[test]
fn instruction_without_steps_marks_nothing() {
    let tree = grow(&vec![vec![(b'U', 0), (b'R', -4), (b'U', 2)]]).unwrap();
    assert_eq!(tree.n_segments, 2);
    assert_eq!(tree.leaves, vec![(0, 2, 0)]);
    assert_eq!(tree.height, 2);
}

#[test]
fn branch_that_leaves_the_cube_grows_no_tree() {
    assert!(grow(&vec![vec![(b'U', 127)]]).is_some());
    assert!(grow(&vec![vec![(b'U', 128)]]).is_none());
    assert!(grow(&vec![vec![(b'D', 1)]]).is_none());
    assert!(grow(&vec![vec![(b'R', 63)]]).is_some());
    assert!(grow(&vec![vec![(b'R', 64)]]).is_none());
    assert!(grow(&vec![vec![(b'L', 64)]]).is_some());
    assert!(grow(&vec![vec![(b'L', 65)]]).is_none());
    assert!(grow(&vec![vec![(b'F', 63)], vec![(b'B', 64)]]).is_some());
    assert!(grow(&vec![vec![(b'F', 63)], vec![(b'B', 65)]]).is_none());
    assert!(grow(&vec![vec![(b'U', i32::MAX)]]).is_none());
}

#[test]
fn unknown_direction_letter_grows_no_tree() {
    assert!(grow(&vec![vec![(b'U', 1), (b'X', 1)]]).is_none());
    assert!(grow(&vec![vec![(b'u', 0)]]).is_none());
    assert_eq!(direction(b'U'), Some((0, 1, 0)));
    assert_eq!(direction(b'D'), Some((0, -1, 0)));
    assert_eq!(direction(b'R'), Some((1, 0, 0)));
    assert_eq!(direction(b'L'), Some((-1, 0, 0)));
    assert_eq!(direction(b'F'), Some((0, 0, 1)));
    assert_eq!(direction(b'B'), Some((0, 0, -1)));
    assert_eq!(direction(b'Q'), None);
}

#[test]
fn branch_is_read_from_its_line() {
    assert_eq!(
        read_branch(&b"U5,R3,D2".to_vec()),
        Some(vec![(b'U', 5), (b'R', 3), (b'D', 2)])
    );
    assert_eq!(read_branch(&b"  F12\n".to_vec()), Some(vec![(b'F', 12)]));
    assert_eq!(read_branch(&b"X1,U-3".to_vec()), Some(vec![(b'X', 1), (b'U', -3)]));
    assert_eq!(read_branch(&b"U2147483647".to_vec()), Some(vec![(b'U', i32::MAX)]));
}

#[test]
fn line_that_writes_no_branch_is_refused() {
    assert_eq!(read_branch(&b"".to_vec()), None);
    assert_eq!(read_branch(&b"U5,,R3".to_vec()), None);
    assert_eq!(read_branch(&b"U5,R".to_vec()), None);
    assert_eq!(read_branch(&b"U5, R3".to_vec()), None);
    assert_eq!(read_branch(&b"U2147483648".to_vec()), None);
    assert_eq!(read_branch(&b"5".to_vec()), None);
}

#[test]
fn steps_lead_to_segments_only() {
    let tree = tree_of(SMALL);
    let at = key_at(3, 5, 0);
    let mut next = steps_from(&tree.segments, at);
    next.sort_unstable();
    let mut expected = vec![(key_at(2, 5, 0), 1), (key_at(3, 4, 0), 1), (key_at(3, 6, 0), 1)];
    expected.sort_unstable();
    assert_eq!(next, expected);
}

#[test]
fn steps_from_the_trunk_lead_up_and_down_only() {
    let tree = tree_of(SMALL);
    assert_eq!(
        steps_from(&tree.segments, key_at(0, 5, 0)),
        vec![(key_at(0, 6, 0), 1), (key_at(0, 4, 0), 1)]
    );
    assert_eq!(steps_from(&tree.segments, key_at(0, 1, 0)), vec![(key_at(0, 2, 0), 1)]);
    assert_eq!(steps_from(&tree.segments, key_at(0, 127, 0)), vec![]);
}

#[test]
fn distances_from_a_leaf_to_the_trunk() {
    let tree = tree_of(SMALL);
    let row = trunk_distances(&tree.segments, (3, 5, 0));
    assert_eq!(row.len(), 128);
    assert_eq!(&row[0..9], &[None, Some(7), Some(6), Some(5), Some(4), Some(3), Some(4), Some(5), None]);
    assert!(row[9..].iter().all(|c| c.is_none()));
    let other = trunk_distances(&tree.segments, (1, 6, 0));
    assert_eq!(
        &other[0..9],
        &[None, Some(6), Some(5), Some(4), Some(3), Some(2), Some(1), Some(2), None]
    );
}

#[test]
fn murkiness_of_the_small_tree_is_five() {
    let tree = tree_of(SMALL);
    let rows: Vec<Vec<Option<u64>>> =
        tree.leaves.iter().map(|l| trunk_distances(&tree.segments, *l)).collect();
    let sums = trunk_sums(&rows).unwrap();
    assert_eq!(&sums[0..9], &[0, 13, 11, 9, 7, 5, 5, 7, 0]);
    assert_eq!(least_positive(&sums), Some(5));
}

#[test]
fn murkiness_of_the_large_tree_is_forty_six() {
    assert_eq!(murkiness(&tree_of(LARGE)), Some(46));
}

#[test]
fn sums_that_do_not_fit_are_refused() {
    let mut high = vec![None; 128];
    high[3] = Some(u64::MAX);
    let mut low = vec![None; 128];
    low[3] = Some(1);
    low[4] = Some(9);
    assert_eq!(trunk_sums(&vec![high.clone(), low.clone()]), None);
    let sums = trunk_sums(&vec![high, vec![None; 128]]).unwrap();
    assert_eq!(sums[3], u64::MAX);
    assert_eq!(trunk_sums(&Vec::new()), Some(vec![0; 128]));
    assert_eq!(trunk_sums(&vec![low]).unwrap()[4], 9);
}

#[test]
fn least_positive_skips_zeros() {
    assert_eq!(least_positive(&vec![0, 7, 3, 0, 9]), Some(3));
    assert_eq!(least_positive(&vec![0, 0]), None);
    assert_eq!(least_positive(&Vec::new()), None);
    assert_eq!(least_positive(&vec![u64::MAX]), Some(u64::MAX));
}
