use advent::guard::{Direction, LabMap};

const ROWS: [&str; 10] = [
    "....#.....",
    ".........#",
    "..........",
    "..#.......",
    ".......#..",
    "..........",
    ".#..^.....",
    "........#.",
    "#.........",
    "......#...",
];

fn example() -> LabMap {
    LabMap::from_rows(ROWS.iter().map(|r| r.chars().collect()).collect()).unwrap()
}

#[test]
fn example_guard_start() {
    let lab = example();
    assert_eq!(lab.start_point, (6, 4));
    assert_eq!(lab.direction, Direction::Up);
    assert!(LabMap::from_rows(vec!["..".chars().collect(), ".".chars().collect()]).is_none());
}

#[test]
fn example_unique_positions() {
    let mut lab = example();
    assert!(!lab.is_loop());
    // the guard leaves the map at the bottom, facing down
    assert_eq!(lab.direction, Direction::Down);
    lab.direction = Direction::Up;
    assert_eq!(lab.count_unique_position(), 41);
    assert_eq!(lab.direction, Direction::Down);
    assert_eq!(lab.visited.len(), 41);
}

#[test]
fn example_loop_obstacles() {
    let mut lab = example();
    assert_eq!(lab.count_possilbe_to_make_loop(), 6);
    let again: Vec<Vec<char>> = ROWS.iter().map(|r| r.chars().collect()).collect();
    assert_eq!(lab.map, again);
}

#[test]
fn boxed_in_guard_is_a_loop() {
    let rows = [".#.", "#^#", ".#."];
    let mut lab = LabMap::from_rows(rows.iter().map(|r| r.chars().collect()).collect()).unwrap();
    assert!(lab.is_loop());
    let mut lab2 = example();
    lab2.map[7][6] = '#';
    assert!(lab2.is_loop());
}

#[test]
fn heading_where_the_walk_stopped() {
    let rows = ["#.", "^."];
    let mut lab = LabMap::from_rows(rows.iter().map(|r| r.chars().collect()).collect()).unwrap();
    assert!(!lab.is_loop());
    assert_eq!(lab.direction, Direction::Right);
}

#[test]
fn visited_cells_are_added_to() {
    let mut lab = example();
    lab.visited.insert(0);
    lab.visited.insert(6 * 10 + 4);
    assert_eq!(lab.count_unique_position(), 40);
    assert_eq!(lab.visited.len(), 42);
    assert!(lab.visited.contains(&0));
    lab.direction = Direction::Up;
    assert_eq!(lab.count_unique_position(), 0);
}
