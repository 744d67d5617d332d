use advent::disk::{compaction_checksums, layout_checksum, Block, LayoutError, Solution};

fn render(layout: &[Block]) -> String {
    layout
        .iter()
        .map(|b| match b {
            Block::Free => ".".to_string(),
            Block::File(id) => id.to_string(),
        })
        .collect()
}

fn prepared(text: &str) -> Solution {
    let mut s = Solution::from_digits(&text.as_bytes().to_vec()).unwrap();
    s.convert();
    s
}

#[test]
fn example_expands_to_blocks() {
    let s = prepared("2333133121414131402");
    assert_eq!(render(&s.converted), "00...111...2...333.44.5555.6666.777.888899");
}

#[test]
fn example_single_block_compaction() {
    let mut s = prepared("2333133121414131402");
    s.compact();
    assert_eq!(render(&s.compacted), "0099811188827773336446555566..............");
    assert_eq!(s.cal_check_sum(), Ok(1928));
    assert_eq!(s.check_sum, 1928);
}

#[test]
fn example_whole_extent_relocation() {
    let mut s = prepared("2333133121414131402");
    s.scanner_for_file_and_empty_slot();
    s.compacted_at_once();
    assert_eq!(render(&s.compacted_at_once), "00992111777.44.333....5555.6666.....8888..");
    assert_eq!(s.cal_check_sum_at_once(), Ok(2858));
    assert_eq!(s.check_sum_at_once, 2858);
    // file 9 moves next to file 0 and file 7 after file 1; file 8 finds no room
    // before it and stays
    assert_eq!(&s.compacted_at_once[2..4], &[Block::File(9), Block::File(9)]);
    assert_eq!(&s.compacted_at_once[36..40], &[Block::File(8); 4]);
    assert_eq!(&s.compacted_at_once[8..11], &[Block::File(7); 3]);
    // the pass used up the file queue; the free queue keeps what is left
    assert_eq!(s.file_and_empty_slot.empty_queue, vec![(14, 1), (18, 1), (21, 1), (26, 1), (31, 1), (35, 1)]);
    assert!(s.file_and_empty_slot.file_queue.is_empty());
    for &(start, len) in &s.file_and_empty_slot.empty_queue {
        assert!(s.compacted_at_once[start..start + len].iter().all(|b| *b == Block::Free));
    }
}

#[test]
fn relocation_stops_when_free_space_runs_out() {
    let mut s = prepared("111");
    s.scanner_for_file_and_empty_slot();
    assert_eq!(s.file_and_empty_slot.empty_queue, vec![(1, 1)]);
    assert_eq!(s.file_and_empty_slot.file_queue, vec![(1, 1, 2), (0, 1, 0)]);
    s.compacted_at_once();
    assert_eq!(render(&s.compacted_at_once), "01.");
    assert!(s.file_and_empty_slot.empty_queue.is_empty());
    assert_eq!(s.file_and_empty_slot.file_queue, vec![(0, 1, 0)]);
}

#[test]
fn example_checksums_end_to_end() {
    let text = "2333133121414131402".as_bytes().to_vec();
    assert_eq!(compaction_checksums(&text), Ok((1928, 2858)));
}

#[test]
fn single_file_without_free_space() {
    let mut s = prepared("9");
    let before = s.converted.clone();
    s.compact();
    s.scanner_for_file_and_empty_slot();
    s.compacted_at_once();
    assert_eq!(s.compacted, before);
    assert_eq!(s.compacted_at_once, before);
    assert_eq!(s.cal_check_sum(), Ok(0));
    assert_eq!(s.cal_check_sum_at_once(), Ok(0));
    assert_eq!(compaction_checksums(&b"9".to_vec()), Ok((0, 0)));
}

#[test]
fn compaction_keeps_every_block() {
    let mut s = prepared("2333133121414131402");
    s.compact();
    let count = |v: &[Block], b: Block| v.iter().filter(|x| **x == b).count();
    assert_eq!(s.compacted.len(), s.converted.len());
    for id in 0..10u64 {
        assert_eq!(count(&s.compacted, Block::File(id)), count(&s.converted, Block::File(id)));
    }
    assert_eq!(count(&s.compacted, Block::Free), count(&s.converted, Block::Free));
}

#[test]
fn compaction_leaves_no_gap() {
    let mut s = prepared("12345");
    s.compact();
    assert_eq!(render(&s.compacted), "022111222......");
    let first_free = s.compacted.iter().position(|b| *b == Block::Free).unwrap();
    assert!(s.compacted[first_free..].iter().all(|b| *b == Block::Free));
}

#[test]
fn relocation_never_splits_a_file() {
    let mut s = prepared("2333133121414131402");
    s.scanner_for_file_and_empty_slot();
    s.compacted_at_once();
    for id in 0..10u64 {
        let at: Vec<usize> = s
            .compacted_at_once
            .iter()
            .enumerate()
            .filter(|(_, b)| **b == Block::File(id))
            .map(|(i, _)| i)
            .collect();
        let before = s.converted.iter().filter(|b| **b == Block::File(id)).count();
        assert_eq!(at.len(), before);
        assert_eq!(at[at.len() - 1] - at[0] + 1, at.len());
    }
}

#[test]
fn scanner_regroups_the_decoded_extents() {
    let mut s = prepared("2333133121414131402");
    s.scanner_for_file_and_empty_slot();
    assert_eq!(
        s.file_and_empty_slot.empty_queue,
        vec![(2, 3), (8, 3), (12, 3), (18, 1), (21, 1), (26, 1), (31, 1), (35, 1)]
    );
    assert_eq!(s.file_and_empty_slot.file_queue.len(), 10);
    assert_eq!(s.file_and_empty_slot.file_queue[0], (9, 2, 40));
    assert_eq!(s.file_and_empty_slot.file_queue[9], (0, 2, 0));
    assert_eq!(s.file_and_empty_slot.file_queue[4], (5, 4, 22));
}

#[test]
fn relocation_is_repeatable() {
    let mut a = prepared("2333133121414131402");
    let mut b = prepared("2333133121414131402");
    for s in [&mut a, &mut b] {
        s.scanner_for_file_and_empty_slot();
        s.compacted_at_once();
    }
    assert_eq!(a.compacted_at_once, b.compacted_at_once);
    assert_eq!(a.cal_check_sum_at_once(), b.cal_check_sum_at_once());
}

#[test]
fn malformed_digit_streams_are_refused() {
    assert_eq!(Solution::from_digits(&Vec::new()).err(), Some(LayoutError::MalformedInput));
    assert_eq!(Solution::from_digits(&b"12a3".to_vec()).err(), Some(LayoutError::MalformedInput));
    assert_eq!(compaction_checksums(&b"12\n".to_vec()), Err(LayoutError::MalformedInput));
}

#[test]
fn digit_values_are_read() {
    let s = Solution::from_digits(&b"90210".to_vec()).unwrap();
    assert_eq!(s.origin, vec![9, 0, 2, 1, 0]);
    assert_eq!(advent::disk::char_to_num(b'7'), 7);
}

#[test]
fn checksum_overflow_is_reported() {
    let mut s = prepared("1");
    s.compacted = vec![Block::Free, Block::Free, Block::File(u64::MAX)];
    assert_eq!(s.cal_check_sum(), Err(LayoutError::ChecksumOverflow));
    assert_eq!(layout_checksum(&vec![Block::Free, Block::File(3), Block::File(4)]), Some(11));
    assert_eq!(layout_checksum(&vec![Block::Free, Block::File(u64::MAX)]), Some(u64::MAX));
}
