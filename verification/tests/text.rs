use phasius::text::{
    chars_of, has_suffix, push_decimal, push_digits, read_i64, read_u32, remove_all, same_chars,
    split_at, string_of,
};

fn chars(s: &str) -> Vec<char> {
    s.chars().collect()
}

fn decimal(n: i64) -> String {
    let mut out = String::new();
    push_decimal(&mut out, n);
    out
}

#[test]
fn characters_of_a_string() {
    assert_eq!(chars_of("a\tß染"), vec!['a', '\t', 'ß', '染']);
    assert_eq!(chars_of(""), Vec::<char>::new());
}

#[test]
fn strings_of_characters() {
    let c = chars("hello");
    assert_eq!(string_of(&c, 0, 5), "hello");
    assert_eq!(string_of(&c, 1, 3), "el");
    assert_eq!(string_of(&c, 2, 2), "");
}

#[test]
fn suffixes() {
    assert!(has_suffix(&chars("a.vcf.gz"), &chars("vcf.gz")));
    assert!(has_suffix(&chars("vcf"), &chars("vcf")));
    assert!(has_suffix(&chars("x"), &chars("")));
    assert!(!has_suffix(&chars("cf"), &chars("vcf")));
    assert!(!has_suffix(&chars("a.vcf.gz"), &chars("vcf")));
    assert!(same_chars(&chars("bam"), &chars("bam")));
    assert!(!same_chars(&chars("abam"), &chars("bam")));
    assert!(!same_chars(&chars("bam"), &chars("abam")));
}

#[test]
fn decimal_as_std_writes_it() {
    for n in [0, 1, 9, 10, 11, 99, 100, 1000, 152743763, -1, -9, -10, -1234, i64::MAX, i64::MIN, i64::MIN + 1] {
        assert_eq!(decimal(n), format!("{}", n));
    }
    assert_eq!(decimal(-120), "-120");
    assert_eq!(decimal(7000), "7000");
}

#[test]
fn digits_are_appended() {
    let mut out = "n=".to_string();
    push_digits(&mut out, 0);
    push_digits(&mut out, u64::MAX);
    assert_eq!(out, format!("n=0{}", u64::MAX));
}

#[test]
fn u32_as_std_reads_it() {
    for s in [
        "0", "1", "42", "007", "+5", "+", "-", "", "-0", "-5", "+-5", "++5", "5+", " 5", "5 ", "1_000",
        "4294967295", "4294967296", "04294967295", "99999999999999999999999999", "12a", "a12", "٣",
        "0000000000000000000000000000001", "1e3", "0x10",
    ] {
        assert_eq!(read_u32(&chars(s)), s.parse::<u32>().ok(), "{:?}", s);
    }
    assert_eq!(read_u32(&chars("42")), Some(42));
    assert_eq!(read_u32(&chars("-1")), None);
}

#[test]
fn i64_as_std_reads_it() {
    for s in [
        "0", "-0", "+0", "1", "-1", "+1", "42", "-007", "+", "-", "", "--5", "+-5", "-+5", "5-", " 5",
        "9223372036854775807", "9223372036854775808", "-9223372036854775808", "-9223372036854775809",
        "+9223372036854775807", "99999999999999999999999999", "-99999999999999999999999999", "12a",
        "-a", "٣", "-000000000000000000000000000009223372036854775808", "1.0",
    ] {
        assert_eq!(read_i64(&chars(s)), s.parse::<i64>().ok(), "{:?}", s);
    }
    assert_eq!(read_i64(&chars("-9223372036854775808")), Some(i64::MIN));
    assert_eq!(read_i64(&chars("-12")), Some(-12));
}

#[test]
fn pieces_as_std_splits_them() {
    for s in ["", "a", "a:b", ":", "::", "a:", ":a", "a:b:c", "chr1:1-2", "a::b"] {
        let expected: Vec<Vec<char>> = s.split(':').map(|p| p.chars().collect()).collect();
        assert_eq!(split_at(&chars(s), ':'), expected, "{:?}", s);
    }
    assert_eq!(split_at(&chars("a\tb"), '\t'), vec![vec!['a'], vec!['b']]);
}

#[test]
fn removal_as_std_replaces() {
    for s in ["", ",", "1,000,000", "abc", ",,a,,"] {
        assert_eq!(remove_all(&chars(s), ','), chars(&s.replace(',', "")), "{:?}", s);
    }
}
