use advent::regions::AreaMap;

fn map(rows: &[&str]) -> AreaMap {
    AreaMap::from_rows(rows.iter().map(|r| r.as_bytes().to_vec()).collect()).unwrap()
}

#[test]
fn small_example_prices() {
    let m = map(&["AAAA", "BBCD", "BBCC", "EEEC"]);
    assert_eq!(m.areas.len(), 5);
    assert_eq!(m.cal_price(), Some(140));
    assert_eq!(m.cal_price_alter(), Some(80));
}

#[test]
fn enclosed_regions_prices() {
    let m = map(&["OOOOO", "OXOXO", "OOOOO", "OXOXO", "OOOOO"]);
    assert_eq!(m.areas.len(), 5);
    assert_eq!(m.cal_price(), Some(772));
    assert_eq!(m.cal_price_alter(), Some(436));
}

#[test]
fn larger_example_prices() {
    let m = map(&[
        "RRRRIICCFF", "RRRRIICCCF", "VVRRRCCFFF", "VVRCCCJFFF", "VVVVCJJCFE", "VVIVCCJJEE", "VVIIICJJEE",
        "MIIIIIJJEE", "MIIISIJEEE", "MMMISSJEEE",
    ]);
    assert_eq!(m.areas.len(), 11);
    assert_eq!(m.cal_price(), Some(1930));
    assert_eq!(m.cal_price_alter(), Some(1206));
}

#[test]
fn cell_rules() {
    let m = map(&["AAAA", "BBCD", "BBCC", "EEEC"]);
    assert_eq!(m.cal_perimeter_of_each_group(&vec![(0, 0), (0, 1), (0, 2), (0, 3)]), 10);
    assert_eq!(m.cal_perimeter_of_each_group(&vec![(1, 3)]), 4);
    assert_eq!(m.is_external_corner(&(1, 3), b'D'), 4);
    assert_eq!(m.is_external_corner(&(0, 1), b'A'), 0);
    assert_eq!(m.is_internal_corner(&(2, 3), b'C'), 1);
    assert_eq!(m.cal_corners_of_each_group(&vec![(1, 2), (2, 2), (2, 3), (3, 3)]), 8);
    assert!(AreaMap::from_rows(vec![b"AB".to_vec(), b"A".to_vec()]).is_none());
}
