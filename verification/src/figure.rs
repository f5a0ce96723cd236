use vstd::prelude::*;
use vstd::string::StringExecFns;
use crate::blocks::{block_views, trace_of, BlockView, Blocks, Trace, TraceView};
use crate::summary::source_views;
use crate::utils::Reg;

verus! {

/// The colours of the blocks of a source, taken in turn.
pub open spec fn palette() -> Seq<Seq<char>> {
    seq![
        "#1f77b4"@,
        "#ff7f0e"@,
        "#2ca02c"@,
        "#d62728"@,
        "#9467bd"@,
        "#8c564b"@,
        "#e377c2"@,
        "#7f7f7f"@,
        "#bcbd22"@,
        "#17becf"@,
    ]
}

/// The colour of the block at index `j` of its source.
pub fn default_color(j: usize) -> (out: String)
    ensures
        out@ == palette()[(j % 10) as int],
{
    let k = j % 10;
    if k == 0 {
        String::from_str("#1f77b4")  // muted blue
    } else if k == 1 {
        String::from_str("#ff7f0e")  // safety orange
    } else if k == 2 {
        String::from_str("#2ca02c")  // cooked asparagus green
    } else if k == 3 {
        String::from_str("#d62728")  // brick red
    } else if k == 4 {
        String::from_str("#9467bd")  // muted purple
    } else if k == 5 {
        String::from_str("#8c564b")  // chestnut brown
    } else if k == 6 {
        String::from_str("#e377c2")  // raspberry yogurt pink
    } else if k == 7 {
        String::from_str("#7f7f7f")  // middle gray
    } else if k == 8 {
        String::from_str("#bcbd22")  // curry yellow-green
    } else {
        String::from_str("#17becf")  // blue-teal
    }
}

/// The limits within which lines are kept: the region's bounds when `strict`,
/// else none.
pub open spec fn limits_of(strict: bool, start: u32, end: u32) -> Option<(u32, u32)> {
    if strict {
        Some((start, end))
    } else {
        None
    }
}

/// The traces of one source at `height`: one per block, in the colours of the
/// palette in turn, the first of them with a legend entry.
pub open spec fn source_traces(
    blocks: Seq<BlockView>,
    height: int,
    width: Option<usize>,
    limits: Option<(u32, u32)>,
) -> Seq<TraceView> {
    Seq::new(
        blocks.len(),
        |j: int| trace_of(blocks[j], height, palette()[j % 10], j == 0, width, limits),
    )
}

/// The number of sources that are drawn: those whose first block does not
/// mark a source without phased records.
pub open spec fn rows(sources: Seq<Seq<BlockView>>) -> nat
    decreases sources.len(),
{
    if sources.len() == 0 {
        0
    } else if sources.last()[0].empty {
        rows(sources.drop_last())
    } else {
        rows(sources.drop_last()) + 1
    }
}

/// The traces of all sources: a source without phased records is left out
/// and takes no row, every other source is drawn on the next row, in the
/// order of the sources.
pub open spec fn traces_of(
    sources: Seq<Seq<BlockView>>,
    width: Option<usize>,
    limits: Option<(u32, u32)>,
) -> Seq<TraceView>
    decreases sources.len(),
{
    if sources.len() == 0 {
        Seq::empty()
    } else if sources.last()[0].empty {
        traces_of(sources.drop_last(), width, limits)
    } else {
        traces_of(sources.drop_last(), width, limits) + source_traces(
            sources.last(),
            rows(sources.drop_last()) as int,
            width,
            limits,
        )
    }
}

/// The views of a list of traces.
pub open spec fn trace_views(traces: Seq<Trace>) -> Seq<TraceView> {
    Seq::new(traces.len(), |k: int| traces[k]@)
}

/// The number of rows is at most the number of sources.
pub proof fn lemma_rows_bound(sources: Seq<Seq<BlockView>>)
    ensures
        rows(sources) <= sources.len(),
    decreases sources.len(),
{
    if sources.len() > 0 {
        lemma_rows_bound(sources.drop_last());
    }
}

/// Lays out the traces of the figure: one row per source that has phased
/// records, one line per block, kept within the region when `strict`.
pub fn plot_blocks(
    blocks_per_bam: &[Vec<Blocks>],
    width: Option<usize>,
    strict: bool,
    target: &Reg,
) -> (out: Vec<Trace>)
    requires
        forall|i: int| 0 <= i < blocks_per_bam@.len() ==> (#[trigger] blocks_per_bam@[i])@.len() > 0,
    ensures
        trace_views(out@) == traces_of(
            source_views(blocks_per_bam@),
            width,
            limits_of(strict, target.start, target.end),
        ),
{
    let limits = if strict {
        Some((target.start, target.end))
    } else {
        None
    };
    let mut out: Vec<Trace> = Vec::new();
    let n = blocks_per_bam.len();
    let ghost sources = source_views(blocks_per_bam@);
    let mut height: usize = 0;
    let mut i: usize = 0;
    proof {
        assert(sources.take(0) =~= Seq::<Seq<BlockView>>::empty());
        assert(trace_views(out@) =~= traces_of(sources.take(0), width, limits));
    }
    while i < n
        invariant
            0 <= i <= n,
            n == blocks_per_bam@.len(),
            sources == source_views(blocks_per_bam@),
            forall|i: int|
                0 <= i < blocks_per_bam@.len() ==> (#[trigger] blocks_per_bam@[i])@.len() > 0,
            height == rows(sources.take(i as int)),
            trace_views(out@) == traces_of(sources.take(i as int), width, limits),
        decreases n - i,
    {
        let blocks = &blocks_per_bam[i];
        let ghost views = block_views(blocks@);
        let ghost done = trace_views(out@);
        proof {
            let t = sources.take(i + 1);
            assert(t.drop_last() =~= sources.take(i as int));
            assert(t.last() == views);
            assert(blocks_per_bam@[i as int]@.len() > 0);
            assert(views[0] == blocks@[0]@);
            lemma_rows_bound(sources.take(i as int));
        }
        if !blocks[0].empty {
            let m = blocks.len();
            let mut j: usize = 0;
            let ghost row = source_traces(views, height as int, width, limits);
            assert(trace_views(out@) =~= done + row.take(0));
            while j < m
                invariant
                    0 <= j <= m,
                    m == blocks@.len(),
                    views == block_views(blocks@),
                    row == source_traces(views, height as int, width, limits),
                    trace_views(out@) == done + row.take(j as int),
                decreases m - j,
            {
                let ghost before = trace_views(out@);
                let trace = blocks[j].plot(height, default_color(j), j == 0, width, limits);
                out.push(trace);
                proof {
                    assert(views[j as int] == blocks@[j as int]@);
                    assert(row[j as int] == trace@);
                    assert(trace_views(out@) =~= before.push(trace@));
                    assert(row.take(j + 1) =~= row.take(j as int).push(row[j as int]));
                    assert(trace_views(out@) =~= done + row.take(j + 1));
                }
                j += 1;
            }
            assert(row.take(m as int) =~= row);
            height += 1;
        }
        i += 1;
    }
    assert(sources.take(n as int) =~= sources);
    out
}

} // verus!
