use vstd::prelude::*;
use vstd::string::StringExecFns;
use crate::blocks::{block_views, BlockView, Blocks};
use crate::text::{decimal, push_decimal, push_digits};

verus! {

/// The first line of every summary.
pub open spec fn header() -> Seq<char> {
    "sample_name\tnum_blocks\tblock_coordinates\n"@
}

/// A block's coordinates: `start-end`.
pub open spec fn coordinates(block: BlockView) -> Seq<char> {
    decimal(block.start) + seq!['-'] + decimal(block.end)
}

/// The coordinates of the blocks, with `;` between them.
pub open spec fn coordinate_list(blocks: Seq<BlockView>) -> Seq<char>
    decreases blocks.len(),
{
    if blocks.len() == 0 {
        Seq::empty()
    } else if blocks.len() == 1 {
        coordinates(blocks[0])
    } else {
        coordinate_list(blocks.drop_last()) + seq![';'] + coordinates(blocks.last())
    }
}

/// The line of one source: its name, the number of its blocks and their
/// coordinates, with tabs between them; `0` and `0` where the first block
/// marks a source without phased records.
pub open spec fn line(blocks: Seq<BlockView>) -> Seq<char> {
    if blocks[0].empty {
        blocks[0].name + seq!['\t', '0', '\t', '0', '\n']
    } else {
        blocks[0].name + seq!['\t'] + decimal(blocks.len() as int) + seq!['\t'] + coordinate_list(
            blocks,
        ) + seq!['\n']
    }
}

/// The block lists of the sources as mathematical values.
pub open spec fn source_views(sources: Seq<Vec<Blocks>>) -> Seq<Seq<BlockView>> {
    Seq::new(sources.len(), |i: int| block_views(sources[i]@))
}

/// The header, then the line of each source.
pub open spec fn summary_of(sources: Seq<Seq<BlockView>>) -> Seq<char>
    decreases sources.len(),
{
    if sources.len() == 0 {
        header()
    } else {
        summary_of(sources.drop_last()) + line(sources.last())
    }
}

fn push_coordinate_list(out: &mut String, blocks: &Vec<Blocks>)
    ensures
        final(out)@ == old(out)@ + coordinate_list(block_views(blocks@)),
{
    let n = blocks.len();
    let ghost views = block_views(blocks@);
    let mut i: usize = 0;
    assert(views.take(0) =~= Seq::<BlockView>::empty());
    assert(out@ =~= old(out)@ + coordinate_list(views.take(0)));
    while i < n
        invariant
            0 <= i <= n,
            n == blocks@.len(),
            views == block_views(blocks@),
            out@ == old(out)@ + coordinate_list(views.take(i as int)),
        decreases n - i,
    {
        let ghost before = out@;
        if i > 0 {
            out.push(';');
        }
        push_decimal(out, blocks[i].start);
        out.push('-');
        push_decimal(out, blocks[i].end);
        proof {
            let t = views.take(i + 1);
            assert(t.drop_last() =~= views.take(i as int));
            assert(t.last() == blocks@[i as int]@);
            if i > 0 {
                assert(out@ =~= before + (seq![';'] + coordinates(t.last())));
                assert(out@ =~= old(out)@ + coordinate_list(t));
            } else {
                assert(t[0] == t.last());
                assert(out@ =~= before + coordinates(t.last()));
                assert(coordinate_list(views.take(0)) =~= Seq::<char>::empty());
                assert(out@ =~= old(out)@ + coordinate_list(t));
            }
        }
        i += 1;
    }
    assert(views.take(n as int) =~= views);
}

/// Writes the summary of the sources: a header, then for each source one line
/// with its name, the number of its blocks and their coordinates.
pub fn summarize(blocks: &[Vec<Blocks>]) -> (summary: String)
    requires
        forall|i: int| 0 <= i < blocks@.len() ==> (#[trigger] blocks@[i])@.len() > 0,
    ensures
        summary@ == summary_of(source_views(blocks@)),
{
    let mut summary = String::new();
    summary.append("sample_name\tnum_blocks\tblock_coordinates\n");
    let n = blocks.len();
    let ghost sources = source_views(blocks@);
    let mut i: usize = 0;
    assert(sources.take(0) =~= Seq::<Seq<BlockView>>::empty());
    assert(summary@ =~= summary_of(sources.take(0)));
    while i < n
        invariant
            0 <= i <= n,
            n == blocks@.len(),
            sources == source_views(blocks@),
            forall|i: int| 0 <= i < blocks@.len() ==> (#[trigger] blocks@[i])@.len() > 0,
            summary@ == summary_of(sources.take(i as int)),
        decreases n - i,
    {
        let source = &blocks[i];
        let ghost before = summary@;
        let ghost views = block_views(source@);
        proof {
            let t = sources.take(i + 1);
            assert(t.drop_last() =~= sources.take(i as int));
            assert(t.last() == views);
            assert(blocks@[i as int]@.len() > 0);
            assert(views[0] == source@[0]@);
        }
        summary.append(source[0].name.as_str());
        if source[0].empty {
            summary.append("\t0\t0\n");
            proof {
                reveal_strlit("\t0\t0\n");
                assert("\t0\t0\n"@ =~= seq!['\t', '0', '\t', '0', '\n']);
                assert(summary@ =~= before + line(views));
            }
        } else {
            summary.push('\t');
            push_digits(&mut summary, source.len() as u64);
            summary.push('\t');
            push_coordinate_list(&mut summary, source);
            summary.push('\n');
            proof {
                assert(summary@ =~= before + line(views));
            }
        }
        i += 1;
    }
    assert(sources.take(n as int) =~= sources);
    summary
}

} // verus!
