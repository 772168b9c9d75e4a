use state_search::puzzles::catapult::{can_hit, extrapolate};
use state_search::puzzles::chariots::{race, Action};
use state_search::puzzles::dice::Die;
use state_search::puzzles::engraving::{count_engraved, is_engraved, part1, Complex};
use state_search::puzzles::measures::{
    apply_permutation, count_active, count_intersections, count_ones, creature_to_potion,
    find_intersection, is_on_wall, make_index, nail, similarity, Star,
};
use state_search::puzzles::powers::{mul_mod, pow_mod};
use state_search::puzzles::sheep::SheepMask;

#[test]
fn creatures_cost_potions() {
    assert_eq!(creature_to_potion(b'A'), 0);
    assert_eq!(creature_to_potion(b'B'), 1);
    assert_eq!(creature_to_potion(b'C'), 3);
    assert_eq!(creature_to_potion(b'D'), 5);
    assert_eq!(creature_to_potion(b'x'), 0);
}

#[test]
fn blows_are_the_sum_of_the_distances() {
    assert_eq!(nail(&vec![3, 4, 7, 8], 3), Some(0 + 1 + 4 + 5));
    assert_eq!(nail(&vec![2, 4, 5, 6, 8], 5), Some(3 + 1 + 0 + 1 + 3));
    assert_eq!(nail(&vec![], 9), Some(0));
    assert_eq!(nail(&vec![u64::MAX, 0], 1), Some(u64::MAX));
    assert_eq!(nail(&vec![u64::MAX, 0, 0], 1), None);
}

#[test]
fn stars_are_apart_by_steps_along_the_axes() {
    let a = Star { x: 3, y: 9 };
    let b = Star { x: 7, y: 2 };
    assert_eq!(a.dist(&b), 11);
    assert_eq!(b.dist(&a), 11);
    assert_eq!(a.dist(&a), 0);
}

#[test]
fn walls_hold_the_points_between_their_ends() {
    let upright = ((3, 1), (3, 5));
    assert!(is_on_wall(upright, (3, 1)));
    assert!(is_on_wall(upright, (3, 5)));
    assert!(!is_on_wall(upright, (3, 6)));
    assert!(!is_on_wall(upright, (4, 3)));
    let level = ((-2, 7), (4, 7));
    assert!(is_on_wall(level, (0, 7)));
    assert!(!is_on_wall(level, (5, 7)));
    assert!(!is_on_wall(level, (0, 8)));
}

#[test]
fn paths_cross_the_line_of_a_wall() {
    let upright = ((3, 1), (3, 5));
    assert_eq!(find_intersection(upright, ((0, 2), (6, 2))), Some((3, 2)));
    assert_eq!(find_intersection(upright, ((6, 4), (3, 4))), Some((3, 4)));
    assert_eq!(find_intersection(upright, ((0, 2), (2, 2))), None);
    assert_eq!(find_intersection(upright, ((4, 2), (9, 2))), None);
    assert_eq!(find_intersection(upright, ((3, 0), (3, 9))), None);
    let level = ((-2, 7), (4, 7));
    assert_eq!(find_intersection(level, ((1, 0), (1, 9))), Some((1, 7)));
    assert_eq!(find_intersection(level, ((1, 8), (1, 9))), None);
    assert_eq!(find_intersection(level, ((0, 7), (9, 7))), None);
}

#[test]
fn threads_cross_when_their_ends_alternate() {
    let threads = vec![(1, 5), (2, 4), (3, 7), (5, 8), (0, 3), (2, 6), (4, 9)];
    // (2, 6): (1, 5) crosses, (2, 4) shares an end, (3, 7) crosses, (5, 8)
    // crosses, (0, 3) crosses, (2, 6) is the thread itself, (4, 9) crosses.
    assert_eq!(count_intersections((2, 6), &threads), 6);
    assert_eq!(count_intersections((10, 12), &threads), 0);
    // (2, 4): itself, and (3, 7) and (0, 3) cross it.
    assert_eq!(count_intersections((2, 4), &threads), 3);
}

#[test]
fn child_agrees_with_a_parent_at_every_place() {
    let child = b"ACGT".to_vec();
    assert_eq!(similarity(&child, &b"ACCC".to_vec(), &b"TTGT".to_vec()), Some(2 * 2));
    assert_eq!(similarity(&child, &b"ACGA".to_vec(), &b"TTGT".to_vec()), Some(3 * 2));
    assert_eq!(similarity(&child, &b"ACGT".to_vec(), &b"ACGT".to_vec()), Some(16));
    assert_eq!(similarity(&child, &b"ACCC".to_vec(), &b"TTTT".to_vec()), None);
    assert_eq!(similarity(&vec![], &vec![], &vec![]), Some(0));
}

#[test]
fn permutation_says_where_each_place_comes_from() {
    let mut dest = vec![0u8; 5];
    apply_permutation(&mut dest, &b"abcd".to_vec(), &vec![2, 0, 3, 1]);
    assert_eq!(dest, vec![b'c', b'a', b'd', b'b', 0]);
}

#[test]
fn powers_are_taken_modulo() {
    assert_eq!(pow_mod(2, 10, 1000), 24);
    assert_eq!(pow_mod(3, 0, 7), 1);
    assert_eq!(pow_mod(3, 0, 1), 0);
    assert_eq!(pow_mod(0, 0, 5), 1);
    assert_eq!(pow_mod(3, 5, 1), 0);
    assert_eq!(pow_mod(7, 1, 5), 2);
    assert_eq!(pow_mod(0, 3, 5), 0);
    assert_eq!(pow_mod(10, 18, 1_000_000_007), 49);
    // Moduli beyond 2^32 do not overflow.
    assert_eq!(pow_mod(u64::MAX, 2, u64::MAX - 1), 1);
    assert_eq!(mul_mod(u64::MAX, u64::MAX, u64::MAX - 2), 4);
}

#[test]
fn die_rolls_follow_from_the_seed() {
    let mut die = Die::new(vec![1, 2, 3, 4, 5, 6], 7);
    // roll 1: spin 7, front 7, face 7 % 6 = 1 -> 2; pulse (7 + 7) % 7 + 1 + 1 + 7 = 9
    assert_eq!(die.next(), Some(2));
    assert_eq!((die.pulse, die.front, die.roll_number), (9, 7, 1));
    // roll 2: spin 18, front 25, face 25 % 6 = 1 -> 2; pulse (9 + 18) % 7 + 1 + 2 + 7 = 16
    assert_eq!(die.next(), Some(2));
    assert_eq!((die.pulse, die.front, die.roll_number), (16, 25, 2));
    // roll 3: spin 48, front 73, face 73 % 6 = 1 -> 2; pulse (16 + 48) % 7 + 1 + 3 + 7 = 12
    assert_eq!(die.next(), Some(2));
    assert_eq!((die.pulse, die.front, die.roll_number), (12, 73, 3));
}

#[test]
fn die_that_would_outgrow_its_state_stays_as_it_is() {
    let mut die = Die::new(vec![1, 2], 3);
    die.front = usize::MAX - 2;
    assert_eq!(die.next(), None);
    assert_eq!((die.pulse, die.front, die.roll_number), (3, usize::MAX - 2, 0));
    die.front = usize::MAX - 3;
    assert_eq!(die.next(), Some(2));
    assert_eq!(die.front, usize::MAX);
}

#[test]
fn sheep_mask_keeps_a_row_per_column() {
    let empty = SheepMask::new();
    assert!(empty.is_empty());
    for x in 0..8 {
        assert_eq!(empty.get(x), 15);
    }
    let m = empty.set(3, 5).set(0, 0).set(7, 14);
    assert!(!m.is_empty());
    assert_eq!(m.get(3), 5);
    assert_eq!(m.get(0), 0);
    assert_eq!(m.get(7), 14);
    assert_eq!(m.get(4), 15);
    let moved = m.set(3, 6);
    assert_eq!(moved.get(3), 6);
    assert_eq!(moved.get(0), 0);
    assert!(m.clear(3).clear(0).clear(7).is_empty());
}

#[test]
fn projectile_rises_flies_level_and_falls() {
    assert_eq!(extrapolate(2, 3, 0), 2);
    assert_eq!(extrapolate(2, 3, 2), 4);
    assert_eq!(extrapolate(2, 3, 3), 5);
    assert_eq!(extrapolate(2, 3, 5), 5);
    assert_eq!(extrapolate(2, 3, 6), 5);
    assert_eq!(extrapolate(2, 3, 8), 3);
    assert_eq!(extrapolate(2, 3, 11), 0);
    assert_eq!(extrapolate(2, 0, 4), -2);
}

#[test]
fn catapult_finds_the_one_strength_that_hits() {
    // Straight up the diagonal.
    assert_eq!(can_hit(0, 0, 5, 5), Some(5));
    // Too high to reach.
    assert_eq!(can_hit(0, 0, 5, 6), None);
    // After 7 units: strength 4 gives 4, strength 3 gives 2, strength 2 gives -1.
    assert_eq!(can_hit(0, 0, 7, 4), Some(4));
    assert_eq!(can_hit(0, 0, 7, 2), Some(3));
    assert_eq!(can_hit(0, 0, 7, -1), Some(2));
    assert_eq!(can_hit(0, 0, 7, 1), None);
    assert_eq!(can_hit(0, 0, 7, -4), Some(1));
    assert_eq!(can_hit(0, 0, 7, -5), None);
    assert_eq!(can_hit(3, 1, 3, 1), Some(0));
}

#[test]
fn pairs_are_squared_scaled_and_shifted() {
    assert_eq!(Complex::new(1, 2).mul(Complex::new(3, 4)), Complex::new(-5, 10));
    assert_eq!(Complex::new(-7, 9).div(Complex::new(2, 2)), Complex::new(-3, 4));
    assert_eq!(Complex::new(1, 2).add(Complex::new(3, 4)), Some(Complex::new(4, 6)));
    assert_eq!(Complex::new(i64::MAX, 0).add(Complex::new(1, 0)), None);
    // (25, 9)^2 = (625 - 81, 450) -> (54, 45) -> + (25, 9)
    assert_eq!(part1(Complex::new(25, 9), Complex::new(25, 9)), Some(Complex::new(79, 54)));
    assert_eq!(part1(Complex::new(0, 0), Complex::new(i64::MIN, 3)), Some(Complex::new(i64::MIN, 3)));
}

#[test]
fn points_near_zero_are_engraved_and_far_ones_are_not() {
    assert!(is_engraved(Complex::new(0, 0)));
    assert!(is_engraved(Complex::new(1000, -1000)));
    assert!(!is_engraved(Complex::new(1000001, 0)));
    assert!(!is_engraved(Complex::new(900000, 900000)));
    // A grid of 3 by 3 points around the bound: only x = 999999 and 1000000 pass at first.
    assert_eq!(count_engraved(Complex::new(0, 0), 2, 10), 9);
    assert_eq!(count_engraved(Complex::new(2000000, 0), 3, 1), 0);
}

#[test]
fn index_lists_the_places_of_every_byte() {
    let index = make_index(&b"abcab".to_vec());
    assert_eq!(index.len(), 128);
    assert_eq!(index[b'a' as usize], vec![0, 3]);
    assert_eq!(index[b'b' as usize], vec![1, 4]);
    assert_eq!(index[b'c' as usize], vec![2]);
    assert_eq!(index[b'd' as usize], Vec::<usize>::new());
    assert!(make_index(&vec![]).iter().all(|places| places.is_empty()));
}

#[test]
fn active_cells_are_the_bits_that_are_set() {
    assert_eq!(count_ones(0), 0);
    assert_eq!(count_ones(1), 1);
    assert_eq!(count_ones(0b1011_0100), 4);
    assert_eq!(count_ones(u64::MAX), 64);
    assert_eq!(count_active(&vec![0b101, 0, 0b111, 1 << 63]), Some(6));
    assert_eq!(count_active(&vec![]), Some(0));
}

#[test]
fn chariot_gathers_its_power_after_every_piece() {
    let plan = vec![Action::Inc, Action::Dec, Action::Maintain];
    // 11, 10, 10
    assert_eq!(race(&plan, &vec![Action::Maintain], 3), Some(31));
    // 11, 10, 9, 10, 9, 8
    let track = vec![Action::Inc, Action::Maintain, Action::Dec];
    assert_eq!(race(&vec![Action::Dec], &track, 2), Some(57));
    assert_eq!(race(&plan, &track, 0), Some(0));
    assert_eq!(race(&plan, &vec![], 5), Some(0));
    // The power does not drop below nothing.
    assert_eq!(race(&vec![Action::Dec], &vec![Action::Maintain], 12), Some(45));
}
