use advent::trails::{Direction, RoadMap};
use std::collections::HashSet;

#[test]
fn example_distinct_trails() {
    let rows = ["89010123", "78121874", "87430965", "96549874", "45678903", "32019012", "01329801", "10456732"];
    let heights: Vec<Vec<i32>> = rows.iter().map(|r| r.bytes().map(|b| (b - b'0') as i32).collect()).collect();
    let map = RoadMap::from_heights(heights).unwrap();
    assert_eq!(map.trail_heads.len(), 9);
    assert_eq!(map.cal_distinct_score(), Some(81));
    assert_eq!(map.dfs_distinct(0, 2, -1, Direction::Nil), 20);
}

#[test]
fn example_scores() {
    let rows = ["89010123", "78121874", "87430965", "96549874", "45678903", "32019012", "01329801", "10456732"];
    let heights: Vec<Vec<i32>> = rows.iter().map(|r| r.bytes().map(|b| (b - b'0') as i32).collect()).collect();
    let map = RoadMap::from_heights(heights).unwrap();
    assert_eq!(map.cal_score(), Some(36));
    let mut seen = HashSet::new();
    assert_eq!(map.dfs(0, 2, -1, Direction::Nil, &mut seen), 5);
    assert_eq!(seen.len(), 5);
    assert_eq!(map.dfs(0, 2, -1, Direction::Nil, &mut seen), 0);
}

#[test]
fn ragged_height_map() {
    assert!(RoadMap::from_heights(vec![vec![0, 1], vec![2]]).is_none());
}
