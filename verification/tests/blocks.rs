use phasius::blocks::Blocks;
use phasius::extract::{blocks_or_sentinel, construct_blocks, merge_runs};

fn spans(blocks: &[Blocks]) -> Vec<(i64, i64)> {
    blocks.iter().map(|b| (b.start, b.end)).collect()
}

#[test]
fn test_construct_blocks() {
    let phased_records = vec![(1, 2, 1), (3, 4, 1), (5, 6, 2), (7, 8, 2)];
    let blocks = construct_blocks(phased_records, "test".to_string()).unwrap();
    assert_eq!(blocks.len(), 2);
    assert_eq!(blocks[0].start, 1);
    assert_eq!(blocks[0].end, 4);
    assert_eq!(blocks[1].start, 5);
    assert_eq!(blocks[1].end, 8);
}

#[test]
fn blocks_carry_the_source_name_and_are_not_empty() {
    let blocks = construct_blocks(vec![(1, 2, 1), (5, 6, 2)], "sample".to_string()).unwrap();
    assert_eq!(
        blocks,
        vec![
            Blocks { start: 1, end: 2, name: "sample".to_string(), empty: false },
            Blocks { start: 5, end: 6, name: "sample".to_string(), empty: false },
        ]
    );
}

#[test]
fn single_record_gives_single_block() {
    let blocks = construct_blocks(vec![(10, 20, 5)], "test".to_string()).unwrap();
    assert_eq!(spans(&blocks), vec![(10, 20)]);
}

#[test]
fn no_record_gives_no_list() {
    assert_eq!(construct_blocks(vec![], "test".to_string()), None);
    assert_eq!(merge_runs(&vec![], "test".to_string()), None);
}

#[test]
fn no_record_is_wrapped_into_the_sentinel() {
    let blocks = blocks_or_sentinel(vec![], "test".to_string());
    assert_eq!(blocks, vec![Blocks { start: 0, end: 0, name: "test".to_string(), empty: true }]);
}

#[test]
fn records_are_wrapped_as_they_are_built() {
    let blocks = blocks_or_sentinel(vec![(3, 4, 1), (1, 2, 1)], "test".to_string());
    assert_eq!(blocks, vec![Blocks { start: 1, end: 4, name: "test".to_string(), empty: false }]);
}

#[test]
fn records_out_of_order_are_sorted_first() {
    let records = vec![(5, 6, 2), (1, 2, 1), (7, 8, 2), (3, 4, 1)];
    let blocks = construct_blocks(records, "test".to_string()).unwrap();
    assert_eq!(spans(&blocks), vec![(1, 4), (5, 8)]);
}

#[test]
fn merging_alone_does_not_sort() {
    let records = vec![(5, 6, 2), (1, 2, 1), (7, 8, 2), (3, 4, 1)];
    let blocks = merge_runs(&records, "test".to_string()).unwrap();
    assert_eq!(spans(&blocks), vec![(5, 6), (1, 2), (7, 8), (3, 4)]);
}

#[test]
fn interleaved_tags_give_one_block_per_tag() {
    let records = vec![(1, 2, 7), (3, 4, 3), (5, 6, 7), (7, 8, 3), (9, 10, 7)];
    let blocks = construct_blocks(records, "test".to_string()).unwrap();
    // ascending by tag, not by position
    assert_eq!(spans(&blocks), vec![(3, 8), (1, 10)]);
}

#[test]
fn block_count_is_the_number_of_runs_after_sorting() {
    let records = vec![(1, 2, 4), (1, 2, 0), (1, 2, 4), (1, 2, 9), (1, 2, 0), (1, 2, 9)];
    let mut sorted = records.clone();
    sorted.sort_by_key(|&(start, _, tag)| (tag, start));
    let mut runs = 0;
    for i in 0..sorted.len() {
        if i == 0 || sorted[i - 1].2 != sorted[i].2 {
            runs += 1;
        }
    }
    let blocks = construct_blocks(records, "test".to_string()).unwrap();
    assert_eq!(runs, 3);
    assert_eq!(blocks.len(), runs);
}

#[test]
fn sorting_again_changes_nothing() {
    let records = vec![(9, 12, 2), (1, 5, 1), (4, 6, 2), (1, 3, 1), (2, 8, 1)];
    let first = construct_blocks(records.clone(), "test".to_string()).unwrap();
    let mut sorted = records;
    sorted.sort_by_key(|&(start, _, tag)| (tag, start));
    let second = construct_blocks(sorted.clone(), "test".to_string()).unwrap();
    let merged = merge_runs(&sorted, "test".to_string()).unwrap();
    assert_eq!(first, second);
    assert_eq!(first, merged);
}

#[test]
fn ties_end_at_the_furthest_end() {
    // both records of tag 1 start at 1: whichever comes first, the block spans both
    let blocks = construct_blocks(vec![(1, 9, 1), (1, 3, 1)], "test".to_string()).unwrap();
    assert_eq!(spans(&blocks), vec![(1, 9)]);
    let blocks = construct_blocks(vec![(1, 3, 1), (1, 9, 1)], "test".to_string()).unwrap();
    assert_eq!(spans(&blocks), vec![(1, 9)]);
}

#[test]
fn a_record_within_another_does_not_shrink_the_block() {
    let blocks = construct_blocks(vec![(1, 10, 1), (2, 5, 1)], "s".to_string()).unwrap();
    assert_eq!(spans(&blocks), vec![(1, 10)]);
    let blocks = construct_blocks(vec![(1, 100, 1), (5, 10, 1)], "test".to_string()).unwrap();
    assert_eq!(spans(&blocks), vec![(1, 100)]);
    let blocks = merge_runs(&vec![(1, 10, 1), (2, 5, 1), (3, 4, 2)], "s".to_string()).unwrap();
    assert_eq!(spans(&blocks), vec![(1, 10), (3, 4)]);
}

#[test]
fn a_block_is_the_hull_of_the_records_of_its_tag() {
    let records = vec![(7, 9, 2), (4, 30, 1), (2, 8, 2), (1, 5, 1), (3, 40, 2), (6, 7, 1)];
    let blocks = construct_blocks(records.clone(), "test".to_string()).unwrap();
    let hull = |tag: u32| {
        let of_tag = records.iter().filter(|r| r.2 == tag);
        (of_tag.clone().map(|r| r.0).min().unwrap(), of_tag.map(|r| r.1).max().unwrap())
    };
    assert_eq!(spans(&blocks), vec![hull(1), hull(2)]);
    assert_eq!(spans(&blocks), vec![(1, 30), (2, 40)]);
}

#[test]
fn the_order_of_the_records_does_not_matter() {
    let records = vec![(1, 9, 1), (1, 3, 1), (5, 6, 2), (2, 4, 1), (5, 8, 2)];
    let expected = construct_blocks(records.clone(), "test".to_string()).unwrap();
    assert_eq!(spans(&expected), vec![(1, 9), (5, 8)]);
    // every order of the five records
    let mut order: Vec<usize> = (0..records.len()).collect();
    let mut count = 0;
    loop {
        let shuffled: Vec<(i64, i64, u32)> = order.iter().map(|&i| records[i]).collect();
        assert_eq!(construct_blocks(shuffled, "test".to_string()).unwrap(), expected);
        count += 1;
        let mut i = order.len() - 1;
        while i > 0 && order[i - 1] >= order[i] {
            i -= 1;
        }
        if i == 0 {
            break;
        }
        let mut j = order.len() - 1;
        while order[j] <= order[i - 1] {
            j -= 1;
        }
        order.swap(i - 1, j);
        order[i..].reverse();
    }
    assert_eq!(count, 120);
    // a record that occurs twice changes nothing either
    let mut twice = records.clone();
    twice.push((1, 3, 1));
    assert_eq!(construct_blocks(twice, "test".to_string()).unwrap(), expected);
}

fn covered_by_blocks(blocks: &[Blocks]) -> Vec<i64> {
    let mut out = vec![];
    for b in blocks {
        for p in b.start..=b.end {
            out.push(p);
        }
    }
    out.sort();
    out.dedup();
    out
}

fn covered_by_records(records: &[(i64, i64, u32)], tag: u32) -> Vec<i64> {
    let mut out = vec![];
    for r in records {
        if r.2 == tag {
            for p in r.0..=r.1 {
                out.push(p);
            }
        }
    }
    out.sort();
    out.dedup();
    out
}

#[test]
fn blocks_cover_what_tiled_records_cover() {
    let records = vec![(10, 14, 2), (1, 4, 1), (15, 20, 2), (3, 9, 1), (5, 9, 1)];
    let blocks = construct_blocks(records.clone(), "test".to_string()).unwrap();
    assert_eq!(spans(&blocks), vec![(1, 9), (10, 20)]);
    assert_eq!(covered_by_blocks(&blocks[0..1]), covered_by_records(&records, 1));
    assert_eq!(covered_by_blocks(&blocks[1..2]), covered_by_records(&records, 2));
}

#[test]
fn blocks_cover_what_nested_records_cover() {
    let records = vec![(1, 100, 1), (5, 10, 1), (101, 101, 1)];
    let blocks = construct_blocks(records.clone(), "test".to_string()).unwrap();
    assert_eq!(spans(&blocks), vec![(1, 101)]);
    assert_eq!(covered_by_blocks(&blocks), covered_by_records(&records, 1));
}

#[test]
fn blocks_cover_more_than_records_with_a_gap() {
    let records = vec![(1, 2, 1), (5, 6, 1)];
    let blocks = construct_blocks(records.clone(), "test".to_string()).unwrap();
    assert_eq!(spans(&blocks), vec![(1, 6)]);
    assert_eq!(covered_by_records(&records, 1), vec![1, 2, 5, 6]);
    assert_eq!(covered_by_blocks(&blocks), vec![1, 2, 3, 4, 5, 6]);
}

#[test]
fn extreme_coordinates_are_kept() {
    let records = vec![(i64::MIN, i64::MAX, u32::MAX), (i64::MIN, 0, 0)];
    let blocks = construct_blocks(records, "test".to_string()).unwrap();
    assert_eq!(spans(&blocks), vec![(i64::MIN, 0), (i64::MIN, i64::MAX)]);
}

#[test]
fn a_clone_is_equal() {
    let block = Blocks { start: 1, end: 2, name: "a".to_string(), empty: false };
    assert_eq!(block.clone(), block);
}
