use advent::reports::DataSet;

fn example() -> DataSet {
    DataSet::from_reports(vec![
        vec![7, 6, 4, 2, 1],
        vec![1, 2, 7, 8, 9],
        vec![9, 7, 6, 2, 1],
        vec![1, 3, 2, 4, 5],
        vec![8, 6, 4, 4, 1],
        vec![1, 3, 6, 7, 9],
    ])
}

#[test]
fn example_safe_reports() {
    assert_eq!(example().num_of_safe, 2);
    assert!(DataSet::is_safe(&vec![7, 6, 4, 2, 1]));
    assert!(!DataSet::is_safe(&vec![1, 2, 7, 8, 9]));
    assert!(DataSet::is_safe(&vec![]));
    assert!(DataSet::is_safe(&vec![5]));
    assert!(!DataSet::is_safe(&vec![i32::MIN, i32::MAX]));
}

#[test]
fn example_tolerated_reports() {
    assert_eq!(example().tolerate_a_single_bad_level(), 4);
}

#[test]
fn read_reports_from_text() {
    let d = DataSet::init(b"7 6 4 2 1\n1 2 7 8 9\r\n\n9 7 6 2 1\n1 3 2 4 5\n8 6 4 4 1\n1 3 6 7 9\n").unwrap();
    assert_eq!(d.data_frame.len(), 6);
    assert_eq!(d.data_frame[1], vec![1, 2, 7, 8, 9]);
    assert_eq!(d.num_of_safe, 2);
    assert!(DataSet::init(b"1 2 a\n").is_none());
    assert_eq!(DataSet::init(b"-1 -2\n").unwrap().data_frame[0], vec![-1, -2]);
}
