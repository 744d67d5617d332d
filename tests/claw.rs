use advent::claw::{Dataset, Machine};

fn machine(lines: [&str; 3]) -> Machine {
    let lines: Vec<String> = lines.iter().map(|l| l.to_string()).collect();
    Machine::parse_machine(&lines).unwrap()
}

fn example() -> Dataset {
    Dataset(vec![
        machine(["Button A: X+94, Y+34", "Button B: X+22, Y+67", "Prize: X=8400, Y=5400"]),
        machine(["Button A: X+26, Y+66", "Button B: X+67, Y+21", "Prize: X=12748, Y=12176"]),
        machine(["Button A: X+17, Y+86", "Button B: X+84, Y+37", "Prize: X=7870, Y=6450"]),
        machine(["Button A: X+69, Y+23", "Button B: X+27, Y+71", "Prize: X=18641, Y=10279"]),
    ])
}

#[test]
fn test_split() {
    let s = "Price: X+8400, Y+5400";
    println!("{:?}", Machine::parse_from_line(s));
    assert_eq!(Machine::parse_from_line(s), Some((8400, 5400)));
}

#[test]
fn parse_lines_of_a_machine() {
    assert_eq!(Machine::parse_from_line("Button A: X+94, Y+34"), Some((94, 34)));
    assert_eq!(Machine::parse_from_line("Prize: X=18641, Y=10279"), Some((18641, 10279)));
    assert_eq!(Machine::parse_from_line("Prize: X=12"), None);
    assert_eq!(Machine::parse_from_line("Prize: X=1q, Y=2"), None);
    assert_eq!(Machine::parse_from_line("Prize: X=99999999999999999999, Y=2"), None);
    let m = machine(["Button A: X+94, Y+34", "Button B: X+22, Y+67", "Prize: X=8400, Y=5400"]);
    assert_eq!(m.button_a, (94, 34));
    assert_eq!(m.button_b, (22, 67));
    assert_eq!(m.prize, (8400, 5400));
    assert!(Machine::parse_machine(&vec!["Button A: X+94, Y+34".to_string()]).is_none());
}

#[test]
fn solve_by_cramer() {
    assert_eq!(Dataset::solve_equation((94, 34), (22, 67), (8400, 5400)), Some((80, 40)));
    assert_eq!(Dataset::solve_equation((26, 66), (67, 21), (12748, 12176)), None);
    assert_eq!(Dataset::solve_equation((1, 1), (2, 2), (3, 3)), None);
    assert_eq!(Dataset::solve_equation((1, 0), (0, 1), (0, 0)), Some((0, 0)));
}

#[test]
fn example_cost() {
    assert_eq!(example().cal_cost(), Some(480));
}

#[test]
fn adjusted_prizes_cost() {
    let mut d = example();
    d.adjust_prize();
    assert_eq!(d.0[0].prize, (10000000008400, 10000000005400));
    assert_eq!(d.0[0].button_a, (94, 34));
    assert_eq!(d.cal_cost(), Some(875318608908));
}

#[test]
fn large_coordinates_with_small_products() {
    assert_eq!(Dataset::solve_equation((u64::MAX, 0), (0, 1), (0, 0)), Some((0, 0)));
    assert_eq!(Dataset::solve_equation((1, 0), (0, 1), (1 << 62, 5)), Some((1 << 62, 5)));
    assert_eq!(Dataset::solve_equation((1, 1), (1, 2), (1, 0)), None);
}
