use phasius::utils::{process_region, RegionError};

fn bounds(reg: &str) -> Result<(String, u32, u32), RegionError> {
    process_region(reg).map(|r| (r.chrom, r.start, r.end))
}

#[test]
fn plain_region() {
    assert_eq!(
        bounds("chr7:152743763-156779243"),
        Ok(("chr7".to_string(), 152743763, 156779243))
    );
}

#[test]
fn commas_are_dropped() {
    assert_eq!(
        bounds("chr7:152,743,763-156,779,243"),
        Ok(("chr7".to_string(), 152743763, 156779243))
    );
    assert_eq!(bounds("c,hr1:1-2,"), Ok(("chr1".to_string(), 1, 2)));
}

#[test]
fn end_must_lie_behind_start() {
    assert_eq!(bounds("chr1:100-100"), Err(RegionError::EmptyInterval));
    assert_eq!(bounds("chr1:200-100"), Err(RegionError::EmptyInterval));
    assert_eq!(bounds("chr1:0-1"), Ok(("chr1".to_string(), 0, 1)));
    assert_eq!(bounds("chr1:4294967294-4294967295"), Ok(("chr1".to_string(), 4294967294, u32::MAX)));
}

#[test]
fn missing_separators() {
    assert_eq!(bounds("chr1"), Err(RegionError::MissingSeparator));
    assert_eq!(bounds(""), Err(RegionError::MissingSeparator));
    assert_eq!(bounds("chr1:100"), Err(RegionError::MissingSeparator));
    assert_eq!(bounds("100-200"), Err(RegionError::MissingSeparator));
}

#[test]
fn bounds_that_are_no_numbers() {
    assert_eq!(bounds("chr1:a-200"), Err(RegionError::NonNumericBound));
    assert_eq!(bounds("chr1:100-b"), Err(RegionError::NonNumericBound));
    assert_eq!(bounds("chr1:-200"), Err(RegionError::NonNumericBound));
    assert_eq!(bounds("chr1:100-"), Err(RegionError::NonNumericBound));
    assert_eq!(bounds("chr1:"), Err(RegionError::NonNumericBound));
    assert_eq!(bounds("chr1:abc"), Err(RegionError::NonNumericBound));
    assert_eq!(bounds("chr1: 1-2"), Err(RegionError::NonNumericBound));
    assert_eq!(bounds("chr1:1-4294967296"), Err(RegionError::NonNumericBound));
    assert_eq!(bounds("chr1:1.5-3"), Err(RegionError::NonNumericBound));
}

#[test]
fn the_first_fault_is_reported() {
    // the start is read before the second bound is looked for
    assert_eq!(bounds("chr1:x"), Err(RegionError::NonNumericBound));
    assert_eq!(bounds("chr1:5"), Err(RegionError::MissingSeparator));
    assert_eq!(bounds("chr1:x-1"), Err(RegionError::NonNumericBound));
}

#[test]
fn what_follows_the_bounds_is_not_read() {
    assert_eq!(bounds("chr1:100-200-300"), Ok(("chr1".to_string(), 100, 200)));
    assert_eq!(bounds("chr1:100-200:rest"), Ok(("chr1".to_string(), 100, 200)));
    assert_eq!(bounds(":1-2"), Ok(("".to_string(), 1, 2)));
    assert_eq!(bounds("chr1:+1-+2"), Ok(("chr1".to_string(), 1, 2)));
    assert_eq!(bounds("chr1:007-010"), Ok(("chr1".to_string(), 7, 10)));
}

#[test]
fn chromosome_names_may_hold_any_character() {
    assert_eq!(bounds("HLA-A*01:1-2"), Ok(("HLA-A*01".to_string(), 1, 2)));
    assert_eq!(bounds("染色体:1-2"), Ok(("染色体".to_string(), 1, 2)));
}
