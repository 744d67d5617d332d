use advent::print_queue::{Dataset, Type};
use std::collections::HashMap;

fn example() -> Dataset {
    let rules = [
        (47, 53), (97, 13), (97, 61), (97, 47), (75, 29), (61, 13), (75, 53), (29, 13), (97, 29), (53, 29),
        (61, 53), (97, 53), (61, 29), (47, 13), (75, 47), (97, 75), (47, 61), (75, 61), (47, 29), (75, 13),
        (53, 13),
    ];
    let mut dict: HashMap<u32, Vec<u32>> = HashMap::new();
    for (a, b) in rules {
        dict.entry(a).or_default().push(b);
    }
    Dataset {
        dict,
        updates: vec![
            vec![75, 47, 61, 53, 29],
            vec![97, 61, 53, 29, 13],
            vec![75, 29, 13],
            vec![75, 97, 47, 61, 53],
            vec![61, 13, 29],
            vec![97, 13, 75, 29, 47],
        ],
        correct_updates: vec![],
        incorrect_updates: vec![],
        correct_mid_sum_up: 0,
        incorrect_mid_sum_up: 0,
    }
}

#[test]
fn example_middle_sums() {
    let mut d = example();
    d.filter_correct_updates();
    assert_eq!(d.correct_updates.len(), 3);
    assert_eq!(d.incorrect_updates.len(), 3);
    assert_eq!(d.cal_mid_sum_up(Type::Correct), Some(143));
    assert_eq!(d.cal_mid_sum_up(Type::Incorrect), Some(123));
    assert_eq!(d.correct_mid_sum_up, 143);
    assert_eq!(d.incorrect_mid_sum_up, 123);
}

#[test]
fn middle_sum_overflow() {
    let mut d = example();
    d.correct_updates = vec![vec![u32::MAX], vec![1]];
    assert_eq!(d.cal_mid_sum_up(Type::Correct), None);
    assert_eq!(d.correct_mid_sum_up, 0);
}

#[test]
fn read_rules_and_updates() {
    let text = b"47|53\n97|13\n97|61\n97|47\n75|29\n61|13\n75|53\n29|13\n97|29\n53|29\n61|53\n97|53\n61|29\n47|13\n75|47\n97|75\n47|61\n75|61\n47|29\n75|13\n53|13\n\n75,47,61,53,29\n97,61,53,29,13\n75,29,13\n75,97,47,61,53\n61,13,29\n97,13,75,29,47\n";
    let mut d = Dataset::load_dataset(text).unwrap();
    assert_eq!(d.updates.len(), 6);
    assert_eq!(d.dict.get(&97).map(|v| v.len()), Some(6));
    d.filter_correct_updates();
    assert_eq!(d.cal_mid_sum_up(Type::Correct), Some(143));
    assert_eq!(d.cal_mid_sum_up(Type::Incorrect), Some(123));
    assert!(Dataset::load_dataset(b"1|2|3\n").is_none());
    assert!(Dataset::load_dataset(b"1,x\n").is_none());
}
