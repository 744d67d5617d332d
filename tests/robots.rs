use advent::robots::{Puzzle, Robot};

const LINES: [&str; 12] = [
    "p=0,4 v=3,-3",
    "p=6,3 v=-1,-3",
    "p=10,3 v=-1,2",
    "p=2,0 v=2,-1",
    "p=0,0 v=1,3",
    "p=3,0 v=-2,-2",
    "p=7,6 v=-1,-3",
    "p=3,0 v=-1,-2",
    "p=9,3 v=2,3",
    "p=7,3 v=-1,2",
    "p=2,4 v=2,-3",
    "p=9,5 v=-3,-3",
];

fn example() -> Puzzle {
    let robots: Vec<Robot> = LINES.iter().map(|l| Robot::parse_line(l).unwrap()).collect();
    Puzzle::from_robots(robots, 7, 11).unwrap()
}

#[test]
fn parse_robot_lines() {
    let r = Robot::parse_line("p=2,4 v=2,-3").unwrap();
    assert_eq!(r.position, (4, 2));
    assert_eq!(r.velocity, (-3, 2));
    assert!(Robot::parse_line("p=2,4 v=2").is_none());
    assert!(Robot::parse_line("p=2,4 v=2,x").is_none());
    assert!(Robot::parse_line("p=2,4 v=2,99999999999").is_none());
    assert_eq!(Robot::parse_line("p=1,2 v=+3,-2147483648").unwrap().velocity, (-2147483648, 3));
}

#[test]
fn robot_wraps_around() {
    let r = Robot::parse_line("p=2,4 v=2,-3").unwrap();
    assert_eq!(r.action(7, 11, 1), (1, 4));
    assert_eq!(r.action(7, 11, 5), (3, 1));
    let mut s = r;
    s.action_per_scecond(7, 11);
    assert_eq!(s.position, (1, 4));
    s.action_per_scecond(7, 11);
    assert_eq!(s.position, (5, 6));
    assert_eq!(s.velocity, (-3, 2));
}

#[test]
fn example_safety_factor() {
    let mut p = example();
    p.robot_move(100);
    assert_eq!(p.map[0][6], 2);
    assert_eq!(p.cal_safety_factor(), Some(12));
}

#[test]
fn initial_map_marks_robots() {
    let mut p = example();
    p.init_map();
    assert_eq!(p.map[4][0], 1);
    assert_eq!(p.map[0][3], 1);
    assert_eq!(p.map[1][1], 0);
    assert!(Puzzle::from_robots(vec![Robot::parse_line("p=11,0 v=0,0").unwrap()], 7, 11).is_none());
}

#[test]
fn robots_standing_together() {
    let line = |r: i32, c: i32| Robot::parse_line(&format!("p={c},{r} v=0,0")).unwrap();
    let mut robots = Vec::new();
    for r in 0..20 {
        for c in 0..13 {
            robots.push(line(r, c));
        }
    }
    let p = Puzzle::from_robots(robots, 103, 101).unwrap();
    // every robot but the very first stands next to an earlier one
    assert!(p.is_majority_robots_next_to_each_other());
    let spread: Vec<Robot> = (0..300).map(|i| line((i / 30) * 3, (i % 30) * 3)).collect();
    let q = Puzzle::from_robots(spread, 103, 101).unwrap();
    assert!(!q.is_majority_robots_next_to_each_other());
    assert!(!example().is_majority_robots_next_to_each_other());
}

#[test]
fn robots_after_some_seconds() {
    let p = example();
    let moved = p.robots_after(5);
    let r = Robot::parse_line("p=2,4 v=2,-3").unwrap();
    assert_eq!(moved[10].position, r.action(7, 11, 5));
    assert_eq!(moved[10].position, (3, 1));
    assert_eq!(moved[10].velocity, (-3, 2));
}

#[test]
fn very_tall_room_and_long_durations() {
    let still = Robot::parse_line("p=3,5 v=0,0").unwrap();
    assert_eq!(still.action((1 << 30) + 1, 11, u32::MAX), (5, 3));
    let r = Robot::parse_line("p=0,0 v=1,-1").unwrap();
    assert_eq!(r.action(i32::MAX, 7, u32::MAX), ((-(u32::MAX as i64)).rem_euclid(i32::MAX as i64) as i32, (u32::MAX % 7) as i32));
    let mut m = still;
    m.action_per_scecond(i32::MAX, i32::MAX);
    assert_eq!(m.position, (5, 3));
}

#[test]
fn first_round_with_robots_together() {
    let line = |r: i32, c: i32, vr: i32, vc: i32| Robot::parse_line(&format!("p={c},{r} v={vc},{vr}")).unwrap();
    let mut robots = Vec::new();
    for r in 0..20 {
        for c in 0..13 {
            // robots that never move, two cells apart
            robots.push(line(r * 2, c * 2, 0, 0));
        }
    }
    let apart = Puzzle::from_robots(robots, 103, 101).unwrap();
    assert_eq!(apart.first_cluster_round(5), None);
    let mut together = Vec::new();
    for r in 0..20 {
        for c in 0..13 {
            together.push(line(r, c, 0, 0));
        }
    }
    let p = Puzzle::from_robots(together, 103, 101).unwrap();
    assert_eq!(p.first_cluster_round(5), Some(1));
}
