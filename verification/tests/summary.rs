use phasius::blocks::Blocks;
use phasius::summary::summarize;

fn block(start: i64, end: i64, name: &str) -> Blocks {
    Blocks { start, end, name: name.to_string(), empty: false }
}

fn sentinel(name: &str) -> Blocks {
    Blocks { start: 0, end: 0, name: name.to_string(), empty: true }
}

#[test]
fn header_alone() {
    assert_eq!(summarize(&[]), "sample_name\tnum_blocks\tblock_coordinates\n");
}

#[test]
fn one_source_with_two_blocks() {
    let out = summarize(&[vec![block(1000, 2000, "sample1"), block(5000, 7000, "sample1")]]);
    assert_eq!(
        out,
        "sample_name\tnum_blocks\tblock_coordinates\nsample1\t2\t1000-2000;5000-7000\n"
    );
}

#[test]
fn source_without_phased_records() {
    let out = summarize(&[vec![sentinel("sample2")]]);
    assert_eq!(out, "sample_name\tnum_blocks\tblock_coordinates\nsample2\t0\t0\n");
}

#[test]
fn summary_with_empty_blocks() {
    let out = summarize(&[
        vec![block(1000, 2000, "sample1"), block(5000, 7000, "sample1")],
        vec![sentinel("test-data/empty-test.bam")],
        vec![block(-5, 12, "s3")],
    ]);
    let lines: Vec<&str> = out.lines().collect();
    assert_eq!(
        lines,
        vec![
            "sample_name\tnum_blocks\tblock_coordinates",
            "sample1\t2\t1000-2000;5000-7000",
            "test-data/empty-test.bam\t0\t0",
            "s3\t1\t-5-12",
        ]
    );
    assert!(out.ends_with('\n'));
}

#[test]
fn many_blocks_and_extreme_numbers() {
    let mut blocks = vec![];
    for i in 0..12 {
        blocks.push(block(i * 10, i * 10 + 5, "s"));
    }
    blocks.push(block(i64::MIN, i64::MAX, "s"));
    let expected_list: Vec<String> =
        blocks.iter().map(|b| format!("{}-{}", b.start, b.end)).collect();
    let expected = format!(
        "sample_name\tnum_blocks\tblock_coordinates\n{}\t{}\t{}\n",
        "s",
        blocks.len(),
        expected_list.join(";")
    );
    assert_eq!(summarize(&[blocks]), expected);
}

#[test]
fn the_first_block_names_the_source() {
    let out = summarize(&[vec![block(1, 2, "first"), block(3, 4, "second")]]);
    assert_eq!(out, "sample_name\tnum_blocks\tblock_coordinates\nfirst\t2\t1-2;3-4\n");
}
