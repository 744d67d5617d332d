use advent::stones::{seperate_number, StoneVec};

#[test]
fn example_blinks() {
    let stones = StoneVec { origin: vec![125, 17] };
    assert_eq!(stones.blink(6), Some(22));
    assert_eq!(stones.blink(25), Some(55312));
    assert_eq!(stones.blink_alter(6), Some(22));
    assert_eq!(stones.blink_alter(25), Some(55312));
}

#[test]
fn one_stone_listed() {
    let mut out = Vec::new();
    assert!(StoneVec::dfs(125, 0, 1, &mut out));
    assert_eq!(out, vec![253000]);
    let mut out = Vec::new();
    assert!(StoneVec::dfs(125, 0, 2, &mut out));
    assert_eq!(out, vec![253, 0]);
    let mut out = Vec::new();
    assert!(StoneVec::dfs(0, 0, 1, &mut out));
    assert_eq!(out, vec![1]);
}

#[test]
fn halves_of_digits() {
    assert_eq!(seperate_number(1000), (10, 0));
    assert_eq!(seperate_number(253000), (253, 0));
    assert_eq!(seperate_number(1234), (12, 34));
    assert_eq!(seperate_number(99), (9, 9));
}

#[test]
fn stone_too_large() {
    let stones = StoneVec { origin: vec![10000000000000000] };
    assert_eq!(stones.blink(0), Some(1));
    let big = StoneVec { origin: vec![10000000000000000] };
    assert_eq!(big.blink(1), None);
    assert_eq!(big.blink_alter(1), None);
    let mut memory = vec![std::collections::HashMap::new(), std::collections::HashMap::new()];
    assert_eq!(StoneVec::dfs_with_memory(17, 0, 1, &mut memory), Some(2));
}

#[test]
fn read_stones_from_text() {
    let s = StoneVec::load_file(b"125 17\n").unwrap();
    assert_eq!(s.origin, vec![125, 17]);
    assert!(StoneVec::load_file(b"12 a").is_none());
    assert_eq!(StoneVec::load_file(b"").unwrap().origin, Vec::<u64>::new());
}
