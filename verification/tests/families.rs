use state_search::families::Families;
use state_search::puzzles::kin::{find_families, find_parents};

fn heads(families: &mut Families) -> Vec<usize> {
    (0..families.len()).map(|i| families.find(i)).collect()
}

fn sizes(families: &Families) -> Vec<usize> {
    (0..families.len()).map(|i| families.size(i)).collect()
}

fn dnas(texts: &[&str]) -> Vec<Vec<u8>> {
    texts.iter().map(|t| t.as_bytes().to_vec()).collect()
}

#[test]
fn every_member_begins_as_its_own_head() {
    let mut families = Families::new(4);
    assert_eq!(families.len(), 4);
    assert_eq!(heads(&mut families), vec![0, 1, 2, 3]);
    assert_eq!(sizes(&families), vec![1, 1, 1, 1]);
    assert_eq!(Families::new(0).len(), 0);
}

#[test]
fn union_of_equal_sets_keeps_the_head_of_the_first() {
    let mut families = Families::new(3);
    families.union(2, 0);
    assert_eq!(heads(&mut families), vec![2, 1, 2]);
    assert_eq!(sizes(&families), vec![1, 1, 2]);
}

#[test]
fn union_hangs_the_smaller_set_below_the_larger() {
    let mut families = Families::new(6);
    families.union(0, 1);
    families.union(2, 3);
    families.union(3, 1);
    assert_eq!(heads(&mut families), vec![2, 2, 2, 2, 4, 5]);
    assert_eq!(sizes(&families), vec![2, 1, 4, 1, 1, 1]);
    families.union(4, 0);
    assert_eq!(heads(&mut families), vec![2, 2, 2, 2, 2, 5]);
    assert_eq!(sizes(&families), vec![2, 1, 5, 1, 1, 1]);
    families.union(5, 4);
    assert_eq!(heads(&mut families), vec![2, 2, 2, 2, 2, 2]);
    assert_eq!(sizes(&families), vec![2, 1, 6, 1, 1, 1]);
}

#[test]
fn union_within_one_set_changes_nothing() {
    let mut families = Families::new(3);
    families.union(0, 1);
    families.union(1, 0);
    families.union(1, 1);
    assert_eq!(heads(&mut families), vec![0, 0, 2]);
    assert_eq!(sizes(&families), vec![2, 1, 1]);
}

#[test]
fn find_keeps_the_sets_of_a_long_chain() {
    let mut families = Families::new(64);
    for i in 1..64 {
        families.union(i, i - 1);
    }
    assert_eq!(families.find(0), 1);
    assert_eq!(heads(&mut families), vec![1; 64]);
    assert_eq!(families.size(1), 64);
}

#[test]
fn child_of_the_first_two_members() {
    let members = dnas(&[
        "CAAGCGCTAAGTTCGCTGGATGTGTGCCCGCG",
        "CTTGAATTGGGCCGTTTACCTGGTTTAACCAT",
        "CTAGCGCTGAGCTGGCTGCCTGGTTGACCGCG",
    ]);
    assert_eq!(find_parents(&members, 2), Some((0, 1, 414)));
    assert_eq!(find_parents(&members, 0), None);
    assert_eq!(find_parents(&members, 1), None);
    let mut families = Families::new(3);
    assert_eq!(find_families(&members, &mut families), vec![0, 0, 414]);
    assert_eq!(heads(&mut families), vec![2, 2, 2]);
    assert_eq!(sizes(&families), vec![1, 1, 3]);
}

#[test]
fn two_families_among_seven_members() {
    let members = dnas(&[
        "GCAGGCGAGTATGATACCCGGCTAGCCACCCC",
        "TCTCGCGAGGATATTACTGGGCCAGACCCCCC",
        "GGTGGAACATTCGAAAGTTGCATAGGGTGGTG",
        "GCTCGCGAGTATATTACCGAACCAGCCCCTCA",
        "GCAGCTTAGTATGACCGCCAAATCGCGACTCA",
        "AGTGGAACCTTGGATAGTCTCATATAGCGGCA",
        "GGCGTAATAATCGGATGCTGCAGAGGCTGCTG",
    ]);
    let mut families = Families::new(7);
    let similarities = find_families(&members, &mut families);
    assert_eq!(similarities, vec![399, 0, 462, 384, 0, 0, 0]);
    assert_eq!(similarities.iter().sum::<u64>(), 1245);
    assert_eq!(heads(&mut families), vec![0, 0, 2, 0, 0, 2, 2]);
    assert_eq!(sizes(&families), vec![4, 1, 3, 1, 1, 1, 1]);
}

#[test]
fn first_pair_in_the_order_of_the_list_is_taken() {
    let members = dnas(&["AAAA", "AATT", "TTTT", "CCCC", "CCAA", "AACC", "GGGG"]);
    assert_eq!(find_parents(&members, 0), Some((1, 4, 4)));
    assert_eq!(find_parents(&members, 1), Some((0, 2, 4)));
    assert_eq!(find_parents(&members, 2), None);
    assert_eq!(find_parents(&members, 6), None);
    let mut families = Families::new(7);
    assert_eq!(find_families(&members, &mut families), vec![4, 4, 0, 4, 4, 4, 0]);
    assert_eq!(heads(&mut families), vec![0, 0, 0, 0, 0, 0, 6]);
    assert_eq!(sizes(&families), vec![6, 1, 1, 1, 1, 1, 1]);
}

#[test]
fn member_equal_to_another_descends_of_it_and_any_third() {
    let members = dnas(&["AC", "AC", "GT"]);
    assert_eq!(find_parents(&members, 0), Some((1, 2, 0)));
    assert_eq!(find_parents(&members, 1), Some((0, 2, 0)));
    assert_eq!(find_parents(&members, 2), None);
}
