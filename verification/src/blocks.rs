use vstd::prelude::*;

verus! {

/// One phase block of a source: a run of records with one phase tag, from the
/// position of its first record to the end of its last. `empty` marks the
/// block that stands for a source without phased records.
#[derive(Debug, PartialEq, Eq)]
pub struct Blocks {
    pub start: i64,
    pub end: i64,
    pub name: String,
    pub empty: bool,
}

/// A block as a mathematical value.
pub struct BlockView {
    pub start: int,
    pub end: int,
    pub name: Seq<char>,
    pub empty: bool,
}

impl View for Blocks {
    type V = BlockView;

    open spec fn view(&self) -> BlockView {
        BlockView { start: self.start as int, end: self.end as int, name: self.name@, empty: self.empty }
    }
}

impl Clone for Blocks {
    fn clone(&self) -> (out: Self)
        ensures
            out@ == self@,
    {
        Blocks { start: self.start, end: self.end, name: self.name.clone(), empty: self.empty }
    }
}

/// The views of a list of blocks.
pub open spec fn block_views(blocks: Seq<Blocks>) -> Seq<BlockView> {
    Seq::new(blocks.len(), |k: int| blocks[k]@)
}

/// The block that stands for a source without phased records.
pub open spec fn sentinel(name: Seq<char>) -> BlockView {
    BlockView { start: 0, end: 0, name, empty: true }
}

/// What is drawn for one block: nothing, or a level line from `start` to
/// `end` at `height`, named and grouped in the legend by `name`.
#[derive(Debug, PartialEq, Eq)]
pub enum Trace {
    Blank,
    Line {
        start: i64,
        end: i64,
        height: usize,
        name: String,
        color: String,
        show_legend: bool,
        width: Option<usize>,
    },
}

/// A trace as a mathematical value.
pub enum TraceView {
    Blank,
    Line {
        start: int,
        end: int,
        height: int,
        name: Seq<char>,
        color: Seq<char>,
        show_legend: bool,
        width: Option<usize>,
    },
}

impl View for Trace {
    type V = TraceView;

    open spec fn view(&self) -> TraceView {
        match *self {
            Trace::Blank => TraceView::Blank,
            Trace::Line { start, end, height, name, color, show_legend, width } => TraceView::Line {
                start: start as int,
                end: end as int,
                height: height as int,
                name: name@,
                color: color@,
                show_legend,
                width,
            },
        }
    }
}

/// Where the line of a block starts: at its start, but not before the lower
/// limit.
pub open spec fn line_start(block: BlockView, limits: Option<(u32, u32)>) -> int {
    match limits {
        Some((lower, _)) => if block.start < lower {
            lower as int
        } else {
            block.start
        },
        None => block.start,
    }
}

/// Where the line of a block ends: at its end, but not behind the upper
/// limit.
pub open spec fn line_end(block: BlockView, limits: Option<(u32, u32)>) -> int {
    match limits {
        Some((_, upper)) => if block.end > upper {
            upper as int
        } else {
            block.end
        },
        None => block.end,
    }
}

/// The trace of a block: nothing for the block that marks a source without
/// phased records, else its line, kept within the limits.
pub open spec fn trace_of(
    block: BlockView,
    height: int,
    color: Seq<char>,
    show_legend: bool,
    width: Option<usize>,
    limits: Option<(u32, u32)>,
) -> TraceView {
    if block.empty {
        TraceView::Blank
    } else {
        TraceView::Line {
            start: line_start(block, limits),
            end: line_end(block, limits),
            height,
            name: block.name,
            color,
            show_legend,
            width,
        }
    }
}

impl Blocks {
    /// The trace that shows this block at `height`.
    pub fn plot(
        &self,
        height: usize,
        color: String,
        show_legend: bool,
        width: Option<usize>,
        limits: Option<(u32, u32)>,
    ) -> (out: Trace)
        ensures
            out@ == trace_of(self@, height as int, color@, show_legend, width, limits),
    {
        if self.empty {
            return Trace::Blank;
        }
        let (start, end) = match limits {
            Some((lower, upper)) => (
                if self.start < lower as i64 {
                    lower as i64
                } else {
                    self.start
                },
                if self.end > upper as i64 {
                    upper as i64
                } else {
                    self.end
                },
            ),
            None => (self.start, self.end),
        };
        Trace::Line { start, end, height, name: self.name.clone(), color, show_legend, width }
    }
}

} // verus!
