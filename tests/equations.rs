use advent::equations::Solution;
use std::collections::HashSet;

fn example() -> Solution {
    let rows: Vec<(u64, Vec<u64>)> = vec![
        (190, vec![10, 19]),
        (3267, vec![81, 40, 27]),
        (83, vec![17, 5]),
        (156, vec![15, 6]),
        (7290, vec![6, 8, 6, 15]),
        (161011, vec![16, 10, 13]),
        (192, vec![17, 8, 14]),
        (21037, vec![9, 7, 18, 13]),
        (292, vec![11, 6, 16, 20]),
    ];
    Solution { dataset: rows, answer_part_one: 0, answer_part_two: 0 }
}

#[test]
fn example_add_and_mul() {
    let mut s = example();
    assert!(s.part_a());
    assert_eq!(s.answer_part_one, 3749);
}

#[test]
fn example_with_concatenation() {
    let mut s = example();
    assert!(s.part_b());
    assert_eq!(s.answer_part_two, 11387);
}

#[test]
fn values_made_left_to_right() {
    let s = example();
    let mut set = HashSet::new();
    assert!(s.strict_add_or_mul_from_left_to_right(&[1, 2, 3], 1, 1, &mut set));
    let want: HashSet<u64> = [6, 9, 5].into_iter().collect();
    assert_eq!(set, want);
    let mut set = HashSet::new();
    assert!(s.strict_add_or_mul_or_concat_from_left_to_right(&[15, 6], 15, 1, &mut set));
    assert!(set.contains(&156));
    let mut set = HashSet::new();
    assert!(s.strict_add_or_mul_or_concat_from_left_to_right(&[0, 5], 0, 1, &mut set));
    let want: HashSet<u64> = [5, 0].into_iter().collect();
    assert_eq!(set, want);
}

#[test]
fn overflow_is_reported() {
    let mut s = Solution { dataset: vec![(1, vec![u64::MAX, 2])], answer_part_one: 0, answer_part_two: 0 };
    assert!(!s.part_a());
    assert_eq!(s.answer_part_one, 0);
}

#[test]
fn every_bracketing() {
    let s = example();
    let want: HashSet<u64> = [5, 6, 7, 9].into_iter().collect();
    assert_eq!(s.naive_get_all_possible_answer(&[1, 2, 3]), Some(want));
    let one: HashSet<u64> = [4].into_iter().collect();
    assert_eq!(s.naive_get_all_possible_answer(&[4]), Some(one));
    assert_eq!(s.naive_get_all_possible_answer(&[]), Some(HashSet::new()));
    assert_eq!(s.naive_get_all_possible_answer(&[u64::MAX, 2]), None);
}

#[test]
fn read_equations_from_text() {
    let mut s = Solution::load_data(b"190: 10 19\n3267: 81 40 27\n83: 17 5\n").unwrap();
    assert_eq!(s.dataset[1], (3267, vec![81, 40, 27]));
    assert!(s.part_a());
    assert_eq!(s.answer_part_one, 190 + 3267);
    assert!(Solution::load_data(b"190:\n").is_none());
    assert!(Solution::load_data(b"190: 1x\n").is_none());
}
