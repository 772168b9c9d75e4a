use state_search::puzzles::lists::{count_pairs, follow, Rule};

#[test]
fn place_is_held_at_the_ends_of_the_list() {
    assert_eq!(follow(Rule::Clamp, 4, &vec![3, -2, 3, -1]), 2);
    assert_eq!(follow(Rule::Clamp, 4, &vec![-9, 1]), 1);
    assert_eq!(follow(Rule::Clamp, 4, &vec![i32::MAX, i32::MAX, i32::MIN]), 0);
    assert_eq!(follow(Rule::Clamp, 4, &Vec::new()), 0);
}

#[test]
fn place_is_carried_round_the_ends_of_the_list() {
    assert_eq!(follow(Rule::Wrap, 4, &vec![3, -2, 3, -1]), 3);
    assert_eq!(follow(Rule::Wrap, 4, &vec![-1]), 3);
    assert_eq!(follow(Rule::Wrap, 4, &vec![-8]), 0);
    assert_eq!(follow(Rule::Wrap, 4, &vec![-9]), 3);
    assert_eq!(follow(Rule::Wrap, 1, &vec![5, -3]), 0);
    assert_eq!(follow(Rule::Wrap, 7, &vec![i32::MIN]), ((i32::MIN as i64).rem_euclid(7)) as usize);
}

#[test]
fn name_at_the_place_is_swapped_to_the_front() {
    assert_eq!(follow(Rule::Swap, 4, &vec![3, -2, 3, -3]), 1);
    assert_eq!(follow(Rule::Swap, 5, &vec![1, 2, -1, 7]), 1);
    assert_eq!(follow(Rule::Swap, 4, &Vec::new()), 0);
}

#[test]
fn novices_count_the_mentors_before_them() {
    let row = b"ABabACacBCbca".to_vec();
    assert_eq!(count_pairs(&row, b'A'), Some(5));
    assert_eq!(count_pairs(&row, b'B'), Some(3));
    assert_eq!(count_pairs(&row, b'C'), Some(3));
    assert_eq!(count_pairs(&b"aaAA".to_vec(), b'A'), Some(0));
    assert_eq!(count_pairs(&b"AAaa".to_vec(), b'A'), Some(4));
    assert_eq!(count_pairs(&Vec::new(), b'Z'), Some(0));
}
