use phasius::blocks::{Blocks, Trace};
use phasius::figure::{default_color, plot_blocks};
use phasius::utils::Reg;

fn block(start: i64, end: i64, name: &str) -> Blocks {
    Blocks { start, end, name: name.to_string(), empty: false }
}

fn sentinel(name: &str) -> Blocks {
    Blocks { start: 0, end: 0, name: name.to_string(), empty: true }
}

fn line(start: i64, end: i64, height: usize, name: &str, color: &str, show_legend: bool) -> Trace {
    Trace::Line {
        start,
        end,
        height,
        name: name.to_string(),
        color: color.to_string(),
        show_legend,
        width: None,
    }
}

fn target() -> Reg {
    Reg { chrom: "chr7".to_string(), start: 100, end: 200 }
}

#[test]
fn a_block_is_a_level_line() {
    let t = block(10, 20, "s").plot(3, "#1f77b4".to_string(), true, Some(4), None);
    assert_eq!(
        t,
        Trace::Line {
            start: 10,
            end: 20,
            height: 3,
            name: "s".to_string(),
            color: "#1f77b4".to_string(),
            show_legend: true,
            width: Some(4),
        }
    );
}

#[test]
fn the_sentinel_is_not_drawn() {
    assert_eq!(sentinel("s").plot(0, "red".to_string(), true, None, None), Trace::Blank);
}

#[test]
fn lines_are_kept_within_the_limits() {
    let limits = Some((100, 200));
    let at = |start, end| match block(start, end, "s").plot(0, "c".to_string(), false, None, limits) {
        Trace::Line { start, end, .. } => (start, end),
        Trace::Blank => panic!("no line"),
    };
    assert_eq!(at(50, 250), (100, 200));
    assert_eq!(at(120, 180), (120, 180));
    assert_eq!(at(50, 150), (100, 150));
    assert_eq!(at(150, 250), (150, 200));
    assert_eq!(at(-5, 100), (100, 100));
    // a block outside the limits keeps the nearer limit at each end
    assert_eq!(at(300, 400), (300, 200));
    assert_eq!(at(i64::MIN, i64::MAX), (100, 200));
}

#[test]
fn colours_come_in_turn() {
    let palette = [
        "#1f77b4", "#ff7f0e", "#2ca02c", "#d62728", "#9467bd", "#8c564b", "#e377c2", "#7f7f7f",
        "#bcbd22", "#17becf",
    ];
    for j in 0..25 {
        assert_eq!(default_color(j), palette[j % 10]);
    }
    assert_eq!(default_color(usize::MAX), palette[usize::MAX % 10]);
}

#[test]
fn sources_without_phased_records_take_no_row() {
    let sources = vec![
        vec![block(1, 2, "a"), block(3, 4, "a")],
        vec![sentinel("b")],
        vec![block(5, 6, "c")],
    ];
    let traces = plot_blocks(&sources, None, false, &target());
    assert_eq!(
        traces,
        vec![
            line(1, 2, 0, "a", "#1f77b4", true),
            line(3, 4, 0, "a", "#ff7f0e", false),
            line(5, 6, 1, "c", "#1f77b4", true),
        ]
    );
}

#[test]
fn strict_keeps_lines_within_the_region() {
    let sources = vec![vec![block(50, 150, "a"), block(180, 400, "a")]];
    let traces = plot_blocks(&sources, Some(2), true, &target());
    assert_eq!(
        traces,
        vec![
            Trace::Line {
                start: 100,
                end: 150,
                height: 0,
                name: "a".to_string(),
                color: "#1f77b4".to_string(),
                show_legend: true,
                width: Some(2),
            },
            Trace::Line {
                start: 180,
                end: 200,
                height: 0,
                name: "a".to_string(),
                color: "#ff7f0e".to_string(),
                show_legend: false,
                width: Some(2),
            },
        ]
    );
}

#[test]
fn the_eleventh_block_has_the_first_colour_again() {
    let blocks: Vec<Blocks> = (0..11).map(|i| block(i, i + 1, "a")).collect();
    let traces = plot_blocks(&[blocks], None, false, &target());
    assert_eq!(traces.len(), 11);
    assert_eq!(traces[10], line(10, 11, 0, "a", "#1f77b4", false));
    assert_eq!(traces[9], line(9, 10, 0, "a", "#17becf", false));
}

#[test]
fn nothing_to_draw() {
    assert_eq!(plot_blocks(&[], None, true, &target()), vec![]);
    assert_eq!(plot_blocks(&[vec![sentinel("a")]], None, true, &target()), vec![]);
}
