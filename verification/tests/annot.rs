use phasius::annot::{parse_bed, parse_bed_line, Annot, AnnotTrace, BedError};

#[test]
fn a_line_with_a_name() {
    assert_eq!(
        parse_bed_line("chr7\t100\t200\tgeneA\t0\t+"),
        Ok(Annot { begin: 100, end: 200, name: Some("geneA".to_string()) })
    );
}

#[test]
fn a_line_without_a_name() {
    assert_eq!(parse_bed_line("chr7\t100\t200"), Ok(Annot { begin: 100, end: 200, name: None }));
    assert_eq!(
        parse_bed_line("chr7\t-5\t+7\t"),
        Ok(Annot { begin: -5, end: 7, name: Some("".to_string()) })
    );
}

#[test]
fn faulty_lines() {
    assert_eq!(parse_bed_line(""), Err(BedError::MissingField));
    assert_eq!(parse_bed_line("chr7"), Err(BedError::MissingField));
    assert_eq!(parse_bed_line("chr7\t100"), Err(BedError::MissingField));
    assert_eq!(parse_bed_line("chr7\tx"), Err(BedError::InvalidBegin));
    assert_eq!(parse_bed_line("chr7\tx\t200"), Err(BedError::InvalidBegin));
    assert_eq!(parse_bed_line("chr7\t100\ty"), Err(BedError::InvalidEnd));
    assert_eq!(parse_bed_line("chr7\t100\t"), Err(BedError::InvalidEnd));
    assert_eq!(parse_bed_line("chr7\t100 \t200"), Err(BedError::InvalidBegin));
    assert_eq!(parse_bed_line("chr7\t9223372036854775808\t1"), Err(BedError::InvalidBegin));
    assert_eq!(parse_bed_line("chr7 100 200"), Err(BedError::MissingField));
}

#[test]
fn all_lines_or_the_first_fault() {
    let lines = vec!["c\t1\t2\ta".to_string(), "c\t3\t4".to_string()];
    assert_eq!(
        parse_bed(&lines),
        Ok(vec![
            Annot { begin: 1, end: 2, name: Some("a".to_string()) },
            Annot { begin: 3, end: 4, name: None },
        ])
    );
    let lines = vec!["c\t1\t2".to_string(), "c\t3\tx".to_string(), "c\ty\t4".to_string()];
    assert_eq!(parse_bed(&lines), Err(BedError::InvalidEnd));
    assert_eq!(parse_bed(&vec![]), Ok(vec![]));
}

#[test]
fn an_annotation_is_a_grey_line_below_the_sources() {
    let named = Annot { begin: 100, end: 200, name: Some("geneA".to_string()) };
    assert_eq!(
        named.plot(),
        AnnotTrace {
            begin: 100,
            end: 200,
            height: -2,
            name: Some("geneA".to_string()),
            show_legend: false,
            color: (128, 128, 128),
            width: 3,
        }
    );
    let bare = Annot { begin: -1, end: 5, name: None };
    assert_eq!(
        bare.plot(),
        AnnotTrace {
            begin: -1,
            end: 5,
            height: -2,
            name: None,
            show_legend: false,
            color: (128, 128, 128),
            width: 3,
        }
    );
}
