use advent::warehouse::{Direction, Problem};

fn grid(rows: &[&str]) -> Vec<Vec<char>> {
    rows.iter().map(|r| r.chars().collect()).collect()
}

fn small() -> Problem {
    let map = grid(&["########", "#..O.O.#", "##@.O..#", "#...O..#", "#.#.O..#", "#...O..#", "#......#", "########"]);
    let moves: Vec<Direction> = "<^^>>>vv<v>>v<<".chars().map(|c| Direction::from_char(c).unwrap()).collect();
    Problem::from_parts(map, moves).unwrap()
}

#[test]
fn small_example_coordinates() {
    let mut p = small();
    assert_eq!(p.position, (2, 2));
    p.moving();
    let want = grid(&["########", "#....OO#", "##.....#", "#.....O#", "#.#O@..#", "#...O..#", "#...O..#", "########"]);
    assert_eq!(p.map, want);
    assert_eq!(p.cal_coordinates(), Some(2028));
}

#[test]
fn push_a_row_of_boxes() {
    let mut map = grid(&["#@OO.#"]);
    assert!(Problem::can_move(&map, 0, 1, Direction::Right));
    assert!(!Problem::can_move(&map, 0, 1, Direction::Left));
    map[0][1] = '.';
    Problem::change_map(&mut map, 0, 2, Direction::Right);
    assert_eq!(map, grid(&["#.@OO#"]));
    assert!(!Problem::can_move(&map, 0, 2, Direction::Right));
}

#[test]
fn arrows_and_coordinates() {
    assert_eq!(Direction::from_char('^'), Some(Direction::Up));
    assert_eq!(Direction::from_char('x'), None);
    let p = Problem::from_parts(grid(&["#O", "O."]), vec![]).unwrap();
    assert_eq!(p.cal_coordinates(), Some(1 + 100));
    assert!(Problem::from_parts(vec![], vec![]).is_none());
}
