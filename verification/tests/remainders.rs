use state_search::puzzles::remainders::{eni, eni_part1, eni_part2, eni_part3};

fn remainders(n: u64, e: u64, m: u64) -> Vec<u64> {
    let mut p: u128 = 1;
    let mut out = Vec::new();
    for _ in 0..e {
        p = (p * n as u128) % m as u128;
        out.push(p as u64);
    }
    out
}

#[test]
fn remainders_are_written_newest_first() {
    assert_eq!(eni_part1(2, 4, 5), Some(1342));
    assert_eq!(eni_part1(3, 5, 16), Some(311193));
    assert_eq!(eni_part1(10, 3, 7), Some(623));
}

#[test]
fn remainder_zero_writes_its_digit() {
    assert_eq!(eni_part1(10, 5, 1000), Some(10010));
    assert_eq!(eni_part1(5, 3, 5), Some(0));
    assert_eq!(eni_part1(7, 0, 3), Some(0));
    assert_eq!(eni_part1(0, 40, 9), Some(0));
}

#[test]
fn number_that_does_not_fit_is_refused() {
    assert_eq!(eni_part1(3, 9, 100), Some(8361872943812793));
    assert_eq!(eni_part1(3, 20, 100), None);
    assert_eq!(eni_part1(10, 25, 100), Some(10));
    assert_eq!(eni_part1(1, 21, 2), None);
    assert_eq!(eni_part1(1, 20, 2), Some(11111111111111111111));
}

#[test]
fn last_five_remainders_are_written() {
    assert_eq!(eni_part2(2, 7, 5), Some(34213));
    assert_eq!(eni_part2(3, 8, 16), Some(111931));
    assert_eq!(eni_part2(4, 3000, 110), Some(56148610426));
    assert_eq!(eni_part2(2, 5, 5), eni_part1(2, 5, 5));
    assert_eq!(eni_part2(3, 1000000000000, 1000000000), {
        let tail = remainders_by_power(3, 1000000000000 - 5, 1000000000);
        written(&tail)
    });
}

fn remainders_by_power(n: u64, from: u64, m: u64) -> Vec<u64> {
    let mut p: u128 = 1;
    let mut base: u128 = n as u128 % m as u128;
    let mut left = from;
    while left > 0 {
        if left & 1 == 1 {
            p = p * base % m as u128;
        }
        base = base * base % m as u128;
        left >>= 1;
    }
    let mut out = Vec::new();
    for _ in 0..5 {
        p = p * n as u128 % m as u128;
        out.push(p as u64);
    }
    out
}

fn written(remainders: &[u64]) -> Option<u64> {
    let text: String = remainders.iter().rev().map(|r| r.to_string()).collect();
    text.parse::<u64>().ok()
}

#[test]
fn remainders_are_summed() {
    assert_eq!(eni_part3(2, 7, 5), Some(19));
    assert_eq!(eni_part3(3, 8, 16), Some(48));
    assert_eq!(eni_part3(4, 3000, 110), Some(132000));
    assert_eq!(eni_part3(6, 15000, 110), Some(825000));
    assert_eq!(eni_part3(1, 2, 2), Some(2));
    assert_eq!(eni_part3(9, 0, 4), Some(0));
}

#[test]
fn sum_agrees_with_adding_one_by_one() {
    for n in 0..12 {
        for m in 1..14 {
            for e in 0..40 {
                let expected: u64 = remainders(n, e, m).iter().sum();
                assert_eq!(eni_part3(n, e, m), Some(expected), "n={n} e={e} m={m}");
            }
        }
    }
}

#[test]
fn written_number_agrees_with_writing_the_digits() {
    for n in 0..12 {
        for m in 1..14 {
            for e in 0..12 {
                let all = remainders(n, e, m);
                let expected = if e == 0 { Some(0) } else { written(&all) };
                assert_eq!(eni_part1(n, e, m), expected, "n={n} e={e} m={m}");
                if e >= 5 {
                    assert_eq!(eni_part2(n, e, m), written(&all[all.len() - 5..]));
                }
            }
        }
    }
}

#[test]
fn whole_rounds_of_a_cycle_are_added_at_once() {
    assert_eq!(eni_part3(4, 1000000000000000, 110), Some(44000000000000000));
    assert_eq!(eni_part3(1, u64::MAX, 2), Some(u64::MAX));
    assert_eq!(eni_part3(2, 10000000000000000000, 9223372036854775808), Some(9223372036854775806));
}

#[test]
fn sum_that_does_not_fit_is_refused() {
    assert_eq!(eni_part3(8, 1000000000000000000, 1000), None);
    assert_eq!(eni_part3(3, u64::MAX, 7), None);
    assert_eq!(eni_part3(1, u64::MAX, 3), Some(u64::MAX));
}

#[test]
fn eni_takes_the_part_of_the_puzzle() {
    assert_eq!(eni(2, 4, 5, 1), Some(1342));
    assert_eq!(eni(2, 7, 5, 2), Some(34213));
    assert_eq!(eni(2, 7, 5, 3), Some(19));
    assert_eq!(eni(3, 8, 16, 1), eni_part1(3, 8, 16));
    assert_eq!(eni(3, 8, 16, 3), Some(48));
}
