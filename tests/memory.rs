use advent::memory::Solution;

#[test]
fn instructions_are_recognised() {
    let dump = b"xmul(2,4)&don't()_do()mul[3,7]";
    assert!(Solution::check_mul(dump, 1));
    assert!(!Solution::check_mul(dump, 0));
    assert!(!Solution::check_mul(dump, 22));
    assert!(Solution::check_dont(dump, 10));
    assert!(!Solution::check_do(dump, 10));
    assert!(Solution::check_do(dump, 18));
    assert!(!Solution::check_mul(dump, 30));
    assert!(!Solution::check_mul(dump, 100));
}

#[test]
fn numbers_are_read() {
    let dump = b"mul(123,4)";
    let mut idx = 4usize;
    assert_eq!(Solution::get_number(dump, &mut idx), Some(123));
    assert_eq!(idx, 7);
    let mut idx = 7usize;
    assert_eq!(Solution::get_number(dump, &mut idx), Some(0));
    assert_eq!(idx, 7);
    let big = b"99999999999999999999)";
    let mut idx = 0usize;
    assert_eq!(Solution::get_number(big, &mut idx), None);
    assert_eq!(idx, 20);
}

#[test]
fn example_products() {
    let dump = b"xmul(2,4)%&mul[3,7]!@^do_not_mul(5,5)+mul(32,64]then(mul(11,8)mul(8,5))";
    assert_eq!(Solution::get_answer(dump), Some(161));
}

#[test]
fn example_products_with_switches() {
    let dump = b"xmul(2,4)&mul[3,7]!^don't()_mul(5,5)+mul(32,64](mul(11,8)undo()?mul(8,5))";
    assert_eq!(Solution::get_answer_with_ops(dump), Some(48));
    assert_eq!(Solution::get_answer(dump), Some(161));
}

#[test]
fn products_edge_cases() {
    assert_eq!(Solution::get_answer(b""), Some(0));
    assert_eq!(Solution::get_answer(b"mul(3,4"), Some(0));
    assert_eq!(Solution::get_answer(b"mul(99999999999,99999999999)"), None);
    assert_eq!(Solution::get_answer(b"mul(99999999999999999999,1)"), None);
    assert_eq!(Solution::get_answer_with_ops(b"don't()mul(2,3)do()mul(4,5)"), Some(20));
}
