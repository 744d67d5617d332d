use advent::lists::List;

#[test]
fn example_distance_and_similarity() {
    let mut list = List { left: vec![3, 4, 2, 1, 3, 3], right: vec![4, 3, 5, 3, 9, 3] };
    list.sort();
    assert_eq!(list.left, vec![1, 2, 3, 3, 3, 4]);
    assert_eq!(list.right, vec![3, 3, 3, 4, 5, 9]);
    assert_eq!(list.cal_distance(), Some(11));
    assert_eq!(list.cal_similarity(), Some(31));
}

#[test]
fn sums_that_overflow() {
    let list = List { left: vec![0, u32::MAX], right: vec![u32::MAX, 0] };
    assert_eq!(list.cal_distance(), None);
    let list = List { left: vec![u32::MAX, 1], right: vec![u32::MAX, 1] };
    assert_eq!(list.cal_similarity(), None);
}

#[test]
fn read_list_from_text() {
    let list = List::init(b"3   4\n4   3\n2   5\n1   3\n3   9\n3   3\n").unwrap();
    assert_eq!(list.left, vec![3, 4, 2, 1, 3, 3]);
    assert_eq!(list.right, vec![4, 3, 5, 3, 9, 3]);
    assert!(List::init(b"1 2 3\n").is_none());
    assert!(List::init(b"1 x\n").is_none());
    assert!(List::init(b"1 4294967296\n").is_none());
    let empty = List::init(b"").unwrap();
    assert!(empty.left.is_empty());
}
