use advent::word_search::DataSet;

fn example() -> DataSet {
    let rows = [
        "MMMSXXMASM", "MSAMXMSMSA", "AMXSXMAAMM", "MSAMASMSMX", "XMASAMXAMM", "XXAMMXXAMA", "SMSMSASXSS",
        "SAXAMASAAA", "MAMMMXMMMM", "MXMXAXMASX",
    ];
    DataSet::from_rows(rows.iter().map(|r| r.chars().collect()).collect()).unwrap()
}

#[test]
fn example_xmas_count() {
    assert_eq!(example().bruteforce_count_XMAS(), 18);
}

#[test]
fn example_cross_mas_count() {
    assert_eq!(example().bruteforce_count_cross_MAS(), 9);
}

#[test]
fn single_directions() {
    let g = DataSet::from_rows(vec!["XMAS".chars().collect(), "MMAA".chars().collect(), "AAAA".chars().collect(), "SSSS".chars().collect()]).unwrap();
    assert!(g.right_check(0, 0));
    assert!(g.down_check(0, 0));
    assert!(!g.left_check(0, 0));
    assert!(!g.up_check(0, 0));
    assert_eq!(g.diagonal_check(0, 0), 1);
    let s = DataSet::from_rows(vec!["SAMX".chars().collect()]).unwrap();
    assert!(s.left_check(0, 3));
    let m = DataSet::from_rows(vec!["M.S".chars().collect(), ".A.".chars().collect(), "M.S".chars().collect()]).unwrap();
    assert!(m.check_M_on_left(1, 1));
    assert!(!m.check_M_on_right(1, 1));
    assert!(!m.check_M_on_top_left_right(1, 1));
    assert!(!m.check_M_on_bottom_left_right(1, 1));
    assert!(DataSet::from_rows(vec!["AB".chars().collect(), "C".chars().collect()]).is_none());
}
