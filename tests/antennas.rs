use advent::antennas::SignalMap;
use std::collections::HashSet;

const ROWS: [&str; 12] = [
    "............",
    "........0...",
    ".....0......",
    ".......0....",
    "....0.......",
    "......A.....",
    "............",
    "............",
    "........A...",
    ".........A..",
    "............",
    "............",
];

fn example() -> SignalMap {
    let rows: Vec<Vec<u8>> = ROWS.iter().map(|r| r.as_bytes().to_vec()).collect();
    SignalMap::from_rows(&rows).unwrap()
}

#[test]
fn antennas_grouped_by_frequency() {
    let m = example();
    assert_eq!(m.signal_point.len(), 2);
    assert_eq!(m.signal_point[0], (b'0', vec![(1, 8), (2, 5), (3, 7), (4, 4)]));
    assert_eq!(m.signal_point[1], (b'A', vec![(5, 6), (8, 8), (9, 9)]));
    assert_eq!((m.map_height, m.map_width), (12, 12));
    assert!(SignalMap::from_rows(&vec![b"..".to_vec(), b".".to_vec()]).is_none());
}

#[test]
fn example_antinodes() {
    let mut m = example();
    m.detect_antinodes();
    assert_eq!(m.antinodes.len(), 14);
}

#[test]
fn example_antinodes_in_line() {
    let mut m = example();
    m.detect_antinodes_without_distance_limit();
    assert_eq!(m.antinodes_without_limit.len(), 34);
}

#[test]
fn one_pair() {
    let rows: Vec<Vec<u8>> = vec![b"..........".to_vec(); 10];
    let mut m = SignalMap::from_rows(&rows).unwrap();
    m.detect_antinodes_for_one_frequency(&[(3, 4), (5, 5)]);
    let want: HashSet<u64> = [1 * 10 + 3, 7 * 10 + 6].into_iter().collect();
    assert_eq!(m.antinodes, want);
    m.detect_antinodes_without_distance_limit_for_one_requency(&[(0, 0), (1, 3)]);
    let line: HashSet<u64> = [0, 13, 26, 39].into_iter().collect();
    assert_eq!(m.antinodes_without_limit, line);
}
