use vstd::prelude::*;
use crate::blocks::{block_views, sentinel, BlockView, Blocks};
use crate::order::{
    canonical_order, is_ordered, keyed, lemma_canonical_order_idempotent,
    lemma_canonical_order_of_ordered, lemma_canonical_order_sorts, lemma_stable_sort_is_canonical,
    lemma_stable_sort_members, precedes, Record,
};
use crate::hull::{are_hulls_of, lemma_phase_runs_are_hulls};
use crate::runs::{
    furthest_end, lemma_furthest_end_take, lemma_run_begin_take, lemma_runs_len,
    lemma_runs_partition, run_begin, run_count, runs, Run,
};
use crate::text::{chars_of, ends_with, has_suffix, same_chars, string_of, strip_suffix};

verus! {

/// The block that a run gives, under the name of its source.
pub open spec fn block_of(run: Run, name: Seq<char>) -> BlockView {
    BlockView { start: run.start, end: run.end, name, empty: false }
}

/// The blocks that a list of runs gives, in their order.
pub open spec fn blocks_of(runs: Seq<Run>, name: Seq<char>) -> Seq<BlockView> {
    Seq::new(runs.len(), |k: int| block_of(runs[k], name))
}

/// The runs of the records in canonical order: one per phase tag, by
/// ascending tag.
pub open spec fn phase_runs(records: Seq<Record>) -> Seq<Run> {
    runs(canonical_order(records))
}

/// Every record ends at or after its position.
pub open spec fn all_intervals(records: Seq<Record>) -> bool {
    forall|i: int| 0 <= i < records.len() ==> (#[trigger] records[i]).0 <= records[i].1
}

/// `<[T]>::sort_by_key` of std, with the phase tag and then the position as
/// the key. std documents that it sorts in ascending order of the key and
/// keeps the order of elements with equal keys; this is stated here as: the
/// result is ascending, and for each key it holds the records that the slice
/// held under that key, in their former order.
#[verifier::external_body]
fn sort_by_tag_then_position(records: &mut Vec<Record>)
    ensures
        is_ordered(final(records)@),
        forall|tag: u32, position: i64| #[trigger]
            keyed(final(records)@, tag, position) == keyed(old(records)@, tag, position),
{
    records.sort_by_key(|r| (r.2, r.0));
}

/// Merges each maximal run of neighbouring records with one phase tag into a
/// block named `name`, in the order of the records: from the position of the
/// run's first record to the furthest end among its records. `None` when
/// there is no record.
pub fn merge_runs(records: &Vec<Record>, name: String) -> (out: Option<Vec<Blocks>>)
    ensures
        out is None <==> records@.len() == 0,
        out matches Some(blocks) ==> {
            &&& block_views(blocks@) == blocks_of(runs(records@), name@)
            &&& blocks@.len() == run_count(records@)
        },
{
    let n = records.len();
    if n == 0 {
        return None;
    }
    let mut phaseblocks: Vec<Blocks> = Vec::new();
    let (mut start1, mut block_end, mut phaseset1) = records[0];
    let ghost mut begin: int = 0;
    let mut i: usize = 1;
    proof {
        reveal(furthest_end);
        assert(records@.take(0) =~= Seq::<Record>::empty());
        assert(block_views(phaseblocks@) =~= blocks_of(runs(records@.take(0)), name@));
    }
    while i < n
        invariant
            1 <= i <= n,
            n == records@.len(),
            0 <= begin < i,
            begin == run_begin(records@, i - 1),
            start1 == records@[begin].0,
            block_end == furthest_end(records@, begin, i - 1),
            phaseset1 == records@[i - 1].2,
            block_views(phaseblocks@) == blocks_of(runs(records@.take(begin)), name@),
        decreases n - i,
    {
        let (start, end, phaseset) = records[i];
        if phaseset == phaseset1 {
            if end > block_end {
                block_end = end;
            }
            proof {
                reveal(furthest_end);
            }
        } else {
            let ghost before = phaseblocks@;
            phaseblocks.push(Blocks { start: start1, end: block_end, name: name.clone(), empty: false });
            proof {
                let s = records@;
                let t = s.take(i as int);
                lemma_run_begin_take(s, i as int, i - 1);
                lemma_furthest_end_take(s, i as int, begin, i - 1);
                assert(t.take(begin) =~= s.take(begin));
                assert(runs(t) == runs(s.take(begin)).push(
                    Run {
                        first: begin,
                        last: i - 1,
                        tag: s[i - 1].2 as int,
                        start: s[begin].0 as int,
                        end: furthest_end(s, begin, i - 1),
                    },
                ));
                lemma_blocks_push(before, phaseblocks@.last(), runs(s.take(begin)), runs(t).last(), name@);
                begin = i as int;
                reveal(furthest_end);
            }
            start1 = start;
            block_end = end;
            phaseset1 = phaseset;
        }
        i += 1;
    }
    let ghost before = phaseblocks@;
    phaseblocks.push(Blocks { start: start1, end: block_end, name, empty: false });
    proof {
        let s = records@;
        lemma_blocks_push(before, phaseblocks@.last(), runs(s.take(begin)), runs(s).last(), name@);
        lemma_runs_len(s);
        assert(block_views(phaseblocks@).len() == phaseblocks@.len());
        assert(blocks_of(runs(s), name@).len() == runs(s).len());
    }
    Some(phaseblocks)
}

/// Builds the phase blocks of one source: one block per phase tag, by
/// ascending tag, each from the least position to the greatest end position
/// among the records of its tag, and named `name`. `None` when there is no
/// record.
pub fn construct_blocks(phased_records: Vec<Record>, name: String) -> (out: Option<Vec<Blocks>>)
    ensures
        out is None <==> phased_records@.len() == 0,
        out matches Some(blocks) ==> {
            &&& block_views(blocks@) == blocks_of(phase_runs(phased_records@), name@)
            &&& are_hulls_of(phase_runs(phased_records@), phased_records@)
            &&& blocks@.len() == run_count(canonical_order(phased_records@))
            &&& blocks@.len() >= 1
            &&& forall|k: int| 0 <= k < blocks@.len() ==> !(#[trigger] blocks@[k]).empty
            &&& all_intervals(phased_records@) ==> forall|k: int|
                0 <= k < blocks@.len() ==> (#[trigger] blocks@[k]).start <= blocks@[k].end
        },
{
    let mut records = phased_records;
    sort_by_tag_then_position(&mut records);
    proof {
        lemma_stable_sort_is_canonical(records@, phased_records@);
        lemma_canonical_order_sorts(phased_records@);
    }
    let out = merge_runs(&records, name);
    proof {
        if out is Some {
            let blocks = out->0;
            let c = canonical_order(phased_records@);
            lemma_runs_len(c);
            lemma_runs_partition(c);
            lemma_phase_runs_are_hulls(phased_records@);
            lemma_block_fields(blocks@, phase_runs(phased_records@), name@);
            if all_intervals(phased_records@) {
                lemma_stable_sort_members(c, phased_records@);
                assert forall|k: int| 0 <= k < blocks@.len() implies (#[trigger] blocks@[k]).start
                    <= blocks@[k].end by {
                    let r = runs(c)[k];
                    assert(precedes(c[r.first], c[r.last]));
                    assert(c[r.last].2 == r.tag);
                    assert(phased_records@.contains(c[r.last]));
                }
            }
        }
    }
    out
}

proof fn lemma_blocks_push(blocks: Seq<Blocks>, b: Blocks, rs: Seq<Run>, r: Run, name: Seq<char>)
    requires
        block_views(blocks) == blocks_of(rs, name),
        b@ == block_of(r, name),
    ensures
        block_views(blocks.push(b)) == blocks_of(rs.push(r), name),
{
    let left = block_views(blocks.push(b));
    let right = blocks_of(rs.push(r), name);
    assert(block_views(blocks).len() == blocks.len());
    assert(blocks_of(rs, name).len() == rs.len());
    assert(left.len() == right.len());
    assert forall|k: int| 0 <= k < left.len() implies left[k] == right[k] by {
        if k < blocks.len() {
            assert(block_views(blocks)[k] == blocks_of(rs, name)[k]);
            assert(block_views(blocks)[k] == blocks[k]@);
            assert(blocks_of(rs, name)[k] == block_of(rs[k], name));
            assert(blocks.push(b)[k] == blocks[k]);
            assert(rs.push(r)[k] == rs[k]);
        }
    }
    assert(left =~= right);
}

/// Records that are already in canonical order give the blocks of their runs
/// as they stand, and sorting any records once more changes no block.
pub proof fn lemma_sorted_input_gives_same_blocks(records: Seq<Record>)
    ensures
        phase_runs(canonical_order(records)) == phase_runs(records),
        is_ordered(records) ==> phase_runs(records) == runs(records),
{
    lemma_canonical_order_idempotent(records);
    if is_ordered(records) {
        lemma_canonical_order_of_ordered(records);
    }
}

/// What the equality of views says of each block.
pub proof fn lemma_block_fields(blocks: Seq<Blocks>, rs: Seq<Run>, name: Seq<char>)
    requires
        block_views(blocks) == blocks_of(rs, name),
    ensures
        blocks.len() == rs.len(),
        forall|k: int|
            0 <= k < blocks.len() ==> {
                &&& (#[trigger] blocks[k]).start == rs[k].start
                &&& blocks[k].end == rs[k].end
                &&& blocks[k].name@ == name
                &&& !blocks[k].empty
            },
{
    assert(block_views(blocks).len() == blocks.len());
    assert(blocks_of(rs, name).len() == rs.len());
    assert forall|k: int| 0 <= k < blocks.len() implies {
        &&& (#[trigger] blocks[k]).start == rs[k].start
        &&& blocks[k].end == rs[k].end
        &&& blocks[k].name@ == name
        &&& !blocks[k].empty
    } by {
        assert(block_views(blocks)[k] == blocks_of(rs, name)[k]);
        assert(block_views(blocks)[k] == blocks[k]@);
        assert(blocks_of(rs, name)[k] == block_of(rs[k], name));
        assert(blocks[k]@.start == rs[k].start);
    }
}

/// The blocks of one source: those of its phased records, or the one block
/// that marks a source without any.
pub open spec fn source_blocks(records: Seq<Record>, name: Seq<char>) -> Seq<BlockView> {
    if records.len() == 0 {
        seq![sentinel(name)]
    } else {
        blocks_of(phase_runs(records), name)
    }
}

/// Builds the blocks of one source, and where it has no phased record the
/// one block that says so.
pub fn blocks_or_sentinel(records: Vec<Record>, name: String) -> (out: Vec<Blocks>)
    ensures
        block_views(out@) == source_blocks(records@, name@),
        out@.len() >= 1,
        out@[0].empty <==> records@.len() == 0,
{
    let label = name.clone();
    match construct_blocks(records, name) {
        Some(blocks) => blocks,
        None => {
            let mut out: Vec<Blocks> = Vec::new();
            out.push(Blocks { start: 0, end: 0, name: label, empty: true });
            assert(block_views(out@) =~= seq![sentinel(label@)]);
            out
        },
    }
}

/// An auxiliary field of an alignment record that holds an integer.
#[derive(Debug, Clone, Copy, PartialEq, Eq, Structural)]
pub enum Aux {
    U8(u8),
    U16(u16),
    U32(u32),
    I32(i32),
}

/// What the blocks need of one alignment record: its flags, its position, the
/// end of its alignment on the reference, and its phase set field if it has
/// one.
#[derive(Debug, Clone, Copy, PartialEq, Eq, Structural)]
pub struct Alignment {
    pub flags: u16,
    pub pos: i64,
    pub reference_end: i64,
    pub phase_set: Option<Aux>,
}

/// What the blocks need of one variant: its position, its end, and the first
/// value of its phase set field if it has one.
#[derive(Debug, Clone, Copy, PartialEq, Eq, Structural)]
pub struct Variant {
    pub pos: i64,
    pub end: i64,
    pub phase_set: Option<i32>,
}

/// The flag bit of a read that is not mapped.
pub const UNMAPPED: u16 = 0x4;

/// The flag bit of a secondary alignment.
pub const SECONDARY: u16 = 0x100;

/// The record is mapped and is no secondary alignment.
pub open spec fn is_primary_mapped(flags: u16) -> bool {
    flags & (UNMAPPED | SECONDARY) == 0
}

/// Whether a record with these flags counts: it is mapped and is no
/// secondary alignment.
pub fn counts(flags: u16) -> (out: bool)
    ensures
        out == is_primary_mapped(flags),
{
    flags & (UNMAPPED | SECONDARY) == 0
}

/// A signed 32-bit value read as an unsigned one, bit for bit.
pub open spec fn as_unsigned(v: int) -> int {
    if v >= 0 {
        v
    } else {
        v + 0x1_0000_0000
    }
}

fn to_unsigned(v: i32) -> (out: u32)
    ensures
        out == as_unsigned(v as int),
{
    if v >= 0 {
        v as u32
    } else {
        (v as i64 + 0x1_0000_0000) as u32
    }
}

/// The phase set that an auxiliary field holds.
pub open spec fn phase_set_of(aux: Option<Aux>) -> Option<u32> {
    match aux {
        Some(Aux::U8(v)) => Some(v as u32),
        Some(Aux::U16(v)) => Some(v as u32),
        Some(Aux::U32(v)) => Some(v),
        Some(Aux::I32(v)) => Some(as_unsigned(v as int) as u32),
        None => None,
    }
}

/// The phase set of an alignment record, if it has one.
pub fn get_phaseset(record: &Alignment) -> (out: Option<u32>)
    ensures
        out == phase_set_of(record.phase_set),
{
    match record.phase_set {
        Some(Aux::U8(v)) => Some(v as u32),
        Some(Aux::U16(v)) => Some(v as u32),
        Some(Aux::U32(v)) => Some(v),
        Some(Aux::I32(v)) => Some(to_unsigned(v)),
        None => None,
    }
}

/// The phased record that an alignment record gives: none if it is unmapped,
/// secondary or without a phase set.
pub open spec fn phased_read(read: Alignment) -> Option<Record> {
    if is_primary_mapped(read.flags) {
        match phase_set_of(read.phase_set) {
            Some(tag) => Some((read.pos, read.reference_end, tag)),
            None => None,
        }
    } else {
        None
    }
}

/// The phased records that the alignment records give, in their order.
pub open spec fn phased_reads(reads: Seq<Alignment>) -> Seq<Record>
    decreases reads.len(),
{
    if reads.len() == 0 {
        Seq::empty()
    } else {
        match phased_read(reads.last()) {
            Some(r) => phased_reads(reads.drop_last()).push(r),
            None => phased_reads(reads.drop_last()),
        }
    }
}

/// The phased record that a variant gives: none if it has no phase set.
pub open spec fn phased_variant(variant: Variant) -> Option<Record> {
    match variant.phase_set {
        Some(v) => Some((variant.pos, variant.end, as_unsigned(v as int) as u32)),
        None => None,
    }
}

/// The phased records that the variants give, in their order.
pub open spec fn phased_variants(variants: Seq<Variant>) -> Seq<Record>
    decreases variants.len(),
{
    if variants.len() == 0 {
        Seq::empty()
    } else {
        match phased_variant(variants.last()) {
            Some(r) => phased_variants(variants.drop_last()).push(r),
            None => phased_variants(variants.drop_last()),
        }
    }
}

/// A source file as its path says it: the whole path, and its file name and
/// extension where it has them.
#[derive(Debug, PartialEq, Eq)]
pub struct SourceFile {
    pub path: String,
    pub file_name: Option<String>,
    pub extension: Option<String>,
}

/// A source file as a mathematical value.
pub struct SourceFileView {
    pub path: Seq<char>,
    pub file_name: Option<Seq<char>>,
    pub extension: Option<Seq<char>>,
}

impl View for SourceFile {
    type V = SourceFileView;

    open spec fn view(&self) -> SourceFileView {
        SourceFileView {
            path: self.path@,
            file_name: match self.file_name {
                Some(n) => Some(n@),
                None => None,
            },
            extension: match self.extension {
                Some(e) => Some(e@),
                None => None,
            },
        }
    }
}

/// What a source file holds.
#[derive(Debug, Clone, Copy, PartialEq, Eq, Structural)]
pub enum InputKind {
    /// Aligned reads.
    Alignment,
    /// Variant calls.
    Variants,
}

/// Why a source file cannot be read.
#[derive(Debug, Clone, Copy, PartialEq, Eq, Structural)]
pub enum FormatError {
    /// The path has no extension.
    NoExtension,
    /// The path names neither an alignment file nor a variant file.
    Unsupported,
}

/// What the file holds, by its path: aligned reads where the extension is
/// `cram` or `bam`, else variants where the path ends with `vcf` or `vcf.gz`.
pub open spec fn kind_of(file: SourceFileView) -> Result<InputKind, FormatError> {
    match file.extension {
        None => Err(FormatError::NoExtension),
        Some(extension) => if extension == "cram"@ || extension == "bam"@ {
            Ok(InputKind::Alignment)
        } else if ends_with(file.path, "vcf"@) || ends_with(file.path, "vcf.gz"@) {
            Ok(InputKind::Variants)
        } else {
            Err(FormatError::Unsupported)
        },
    }
}

/// Tells from its path what a source file holds.
pub fn input_kind(file: &SourceFile) -> (out: Result<InputKind, FormatError>)
    ensures
        out == kind_of(file@),
{
    match &file.extension {
        None => Err(FormatError::NoExtension),
        Some(extension) => {
            let ext = chars_of(extension.as_str());
            if same_chars(&ext, &chars_of("cram")) || same_chars(&ext, &chars_of("bam")) {
                Ok(InputKind::Alignment)
            } else {
                let path = chars_of(file.path.as_str());
                if has_suffix(&path, &chars_of("vcf")) || has_suffix(&path, &chars_of("vcf.gz")) {
                    Ok(InputKind::Variants)
                } else {
                    Err(FormatError::Unsupported)
                }
            }
        },
    }
}

/// `name` without `first` at its end, else without `second` at its end, else
/// as it is.
pub open spec fn stem(name: Seq<char>, first: Seq<char>, second: Seq<char>) -> Seq<char> {
    match strip_suffix(name, first) {
        Some(s) => s,
        None => match strip_suffix(name, second) {
            Some(s) => s,
            None => name,
        },
    }
}

/// The name under which a source is shown: the stem of its file name, or the
/// whole path where it has no file name.
pub open spec fn source_name(file: SourceFileView, first: Seq<char>, second: Seq<char>) -> Seq<
    char,
> {
    match file.file_name {
        Some(name) => stem(name, first, second),
        None => file.path,
    }
}

fn name_of(file: &SourceFile, first: &str, second: &str) -> (out: String)
    ensures
        out@ == source_name(file@, first@, second@),
{
    match &file.file_name {
        Some(name) => {
            let chars = chars_of(name.as_str());
            let a = chars_of(first);
            let b = chars_of(second);
            if has_suffix(&chars, &a) {
                string_of(&chars, 0, chars.len() - a.len())
            } else if has_suffix(&chars, &b) {
                string_of(&chars, 0, chars.len() - b.len())
            } else {
                name.clone()
            }
        },
        None => file.path.clone(),
    }
}

/// The name of an alignment file as a source.
pub open spec fn alignment_name(file: SourceFileView) -> Seq<char> {
    source_name(file, ".cram"@, ".bam"@)
}

/// The name of a variant file as a source.
pub open spec fn variants_name(file: SourceFileView) -> Seq<char> {
    source_name(file, ".vcf"@, ".vcf.gz"@)
}

/// The blocks of an alignment file, from the records that were read from it:
/// those that are mapped, primary and carry a phase set are merged by phase
/// set.
pub fn blocks_from_bam(file: &SourceFile, reads: &Vec<Alignment>) -> (out: Vec<Blocks>)
    ensures
        block_views(out@) == source_blocks(phased_reads(reads@), alignment_name(file@)),
        out@.len() >= 1,
        out@[0].empty <==> phased_reads(reads@).len() == 0,
{
    let name = name_of(file, ".cram", ".bam");
    let mut phased: Vec<Record> = Vec::new();
    let n = reads.len();
    let mut i: usize = 0;
    assert(reads@.take(0) =~= Seq::<Alignment>::empty());
    while i < n
        invariant
            0 <= i <= n,
            n == reads@.len(),
            phased@ == phased_reads(reads@.take(i as int)),
        decreases n - i,
    {
        let read = reads[i];
        assert(reads@.take(i + 1).drop_last() =~= reads@.take(i as int));
        if counts(read.flags) {
            match get_phaseset(&read) {
                Some(tag) => {
                    phased.push((read.pos, read.reference_end, tag));
                },
                None => {},
            }
        }
        i += 1;
    }
    assert(reads@.take(n as int) =~= reads@);
    blocks_or_sentinel(phased, name)
}

/// The blocks of a variant file, from the variants that were read from it:
/// those that carry a phase set are merged by phase set.
pub fn blocks_from_vcf(file: &SourceFile, variants: &Vec<Variant>) -> (out: Vec<Blocks>)
    ensures
        block_views(out@) == source_blocks(phased_variants(variants@), variants_name(file@)),
        out@.len() >= 1,
        out@[0].empty <==> phased_variants(variants@).len() == 0,
{
    let name = name_of(file, ".vcf", ".vcf.gz");
    let mut phased: Vec<Record> = Vec::new();
    let n = variants.len();
    let mut i: usize = 0;
    assert(variants@.take(0) =~= Seq::<Variant>::empty());
    while i < n
        invariant
            0 <= i <= n,
            n == variants@.len(),
            phased@ == phased_variants(variants@.take(i as int)),
        decreases n - i,
    {
        let variant = variants[i];
        assert(variants@.take(i + 1).drop_last() =~= variants@.take(i as int));
        match variant.phase_set {
            Some(v) => {
                phased.push((variant.pos, variant.end, to_unsigned(v)));
            },
            None => {},
        }
        i += 1;
    }
    assert(variants@.take(n as int) =~= variants@);
    blocks_or_sentinel(phased, name)
}

/// What was read from a source file.
pub enum Records {
    Reads(Vec<Alignment>),
    Variants(Vec<Variant>),
}

/// The kind of file that the records were read from.
pub open spec fn kind_of_records(records: Records) -> InputKind {
    match records {
        Records::Reads(_) => InputKind::Alignment,
        Records::Variants(_) => InputKind::Variants,
    }
}

/// The blocks that a source file gives with what was read from it.
pub open spec fn blocks_of_source(file: SourceFileView, records: Records) -> Seq<BlockView> {
    match records {
        Records::Reads(reads) => source_blocks(phased_reads(reads@), alignment_name(file)),
        Records::Variants(variants) => source_blocks(phased_variants(variants@), variants_name(file)),
    }
}

/// The blocks of one source file, from what was read from it. The file is of
/// a kind that can be read, and the records are of that kind.
pub fn get_blocks(file: &SourceFile, records: &Records) -> (out: Vec<Blocks>)
    requires
        kind_of(file@) == Ok::<InputKind, FormatError>(kind_of_records(*records)),
    ensures
        block_views(out@) == blocks_of_source(file@, *records),
        out@.len() >= 1,
{
    match records {
        Records::Reads(reads) => blocks_from_bam(file, reads),
        Records::Variants(variants) => blocks_from_vcf(file, variants),
    }
}

} // verus!
