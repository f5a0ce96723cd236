use vstd::prelude::*;
use vstd::seq_lib::to_multiset_contains;
use crate::extract::{blocks_of, phase_runs};
use crate::order::{
    canonical_order, lemma_canonical_order_sorts, lemma_comes_from_input,
    lemma_stands_in_canonical_order, precedes, Record,
};
use crate::runs::{
    lemma_furthest_end, lemma_ordered_runs_ascend, lemma_run_holding, lemma_runs_partition, runs,
    Run,
};

verus! {

/// `p` is the least position among the records with phase tag `tag`.
pub open spec fn is_least_position(records: Seq<Record>, tag: int, p: int) -> bool {
    &&& exists|j: int|
        0 <= j < records.len() && (#[trigger] records[j]).2 == tag && records[j].0 == p
    &&& forall|j: int| 0 <= j < records.len() && (#[trigger] records[j]).2 == tag ==> p <= records[j].0
}

/// `e` is the greatest end position among the records with phase tag `tag`.
pub open spec fn is_greatest_end(records: Seq<Record>, tag: int, e: int) -> bool {
    &&& exists|j: int|
        0 <= j < records.len() && (#[trigger] records[j]).2 == tag && records[j].1 == e
    &&& forall|j: int| 0 <= j < records.len() && (#[trigger] records[j]).2 == tag ==> records[j].1 <= e
}

/// One of the runs has phase tag `tag`.
pub open spec fn has_tag(rs: Seq<Run>, tag: int) -> bool {
    exists|k: int| 0 <= k < rs.len() && (#[trigger] rs[k]).tag == tag
}

/// `rs` holds one run for each phase tag of `records`, by ascending tag, and
/// each run spans from the least position to the greatest end position among
/// the records of its tag.
pub open spec fn are_hulls_of(rs: Seq<Run>, records: Seq<Record>) -> bool {
    &&& forall|k: int, l: int| 0 <= k < l < rs.len() ==> (#[trigger] rs[k]).tag < (#[trigger] rs[l]).tag
    &&& forall|j: int| 0 <= j < records.len() ==> has_tag(rs, (#[trigger] records[j]).2 as int)
    &&& forall|k: int|
        0 <= k < rs.len() ==> {
            &&& is_least_position(records, (#[trigger] rs[k]).tag, rs[k].start)
            &&& is_greatest_end(records, rs[k].tag, rs[k].end)
        }
}

/// The two hold the same records, whatever their order and however often.
pub open spec fn same_members(a: Seq<Record>, b: Seq<Record>) -> bool {
    forall|r: Record| a.contains(r) <==> b.contains(r)
}

/// The runs of the canonical order are the hulls of the phase tags: no record
/// is left out, none is counted in two blocks, and every block spans all the
/// records of its tag.
pub proof fn lemma_phase_runs_are_hulls(records: Seq<Record>)
    ensures
        are_hulls_of(phase_runs(records), records),
{
    let c = canonical_order(records);
    let rs = runs(c);
    lemma_canonical_order_sorts(records);
    lemma_runs_partition(c);
    assert forall|k: int, l: int| 0 <= k < l < rs.len() implies (#[trigger] rs[k]).tag < (
    #[trigger] rs[l]).tag by {
        lemma_ordered_runs_ascend(c);
    }
    assert forall|j: int| 0 <= j < records.len() implies has_tag(
        rs,
        (#[trigger] records[j]).2 as int,
    ) by {
        let i = lemma_stands_in_canonical_order(records, j);
        let k = lemma_run_holding(c, i);
        assert(rs[k].tag == records[j].2);
    }
    assert forall|k: int| 0 <= k < rs.len() implies {
        &&& is_least_position(records, (#[trigger] rs[k]).tag, rs[k].start)
        &&& is_greatest_end(records, rs[k].tag, rs[k].end)
    } by {
        lemma_run_is_hull(records, k);
    }
}

proof fn lemma_run_is_hull(records: Seq<Record>, k: int)
    requires
        0 <= k < phase_runs(records).len(),
    ensures
        is_least_position(records, phase_runs(records)[k].tag, phase_runs(records)[k].start),
        is_greatest_end(records, phase_runs(records)[k].tag, phase_runs(records)[k].end),
{
    let c = canonical_order(records);
    let r = runs(c)[k];
    lemma_canonical_order_sorts(records);
    lemma_runs_partition(c);
    lemma_furthest_end(c, r.first, r.last);
    // the first record of the run and the one that ends furthest are records of the input
    let j0 = lemma_comes_from_input(records, r.first);
    assert(records[j0].2 == r.tag && records[j0].0 == r.start);
    let w = choose|i: int| r.first <= i <= r.last && (#[trigger] c[i]).1 == r.end;
    let j1 = lemma_comes_from_input(records, w);
    assert(c[w].2 == r.tag);
    assert(records[j1].2 == r.tag && records[j1].1 == r.end);
    // every record of the tag stands within the run
    assert forall|j: int| 0 <= j < records.len() && (#[trigger] records[j]).2 == r.tag implies r.start
        <= records[j].0 && records[j].1 <= r.end by {
        let i = lemma_stands_in_canonical_order(records, j);
        assert(r.first <= i <= r.last) by {
            lemma_ordered_runs_ascend(c);
            assert(c[i].2 == runs(c)[k].tag);
        }
        assert(precedes(c[r.first], c[i]));
        assert(c[i].1 <= r.end);
    }
}

proof fn lemma_same_tag_at(a: Seq<Run>, b: Seq<Run>, r1: Seq<Record>, r2: Seq<Record>, k: int)
    requires
        are_hulls_of(a, r1),
        are_hulls_of(b, r2),
        same_members(r1, r2),
        0 <= k < a.len(),
    ensures
        k < b.len(),
        a[k].tag == b[k].tag,
    decreases k,
{
    if k > 0 {
        lemma_same_tag_at(a, b, r1, r2, k - 1);
    }
    assert forall|i: int| 0 <= i < k implies i < b.len() && a[i].tag == b[i].tag by {
        lemma_same_tag_at(a, b, r1, r2, i);
    }
    // the tag of a[k] has a run in b, which cannot stand before k
    let m = lemma_tag_is_shared(a, b, r1, r2, k);
    if m < k {
        assert(a[m].tag < a[k].tag);
    }
    // and the tag of b[k] has a run in a, which cannot stand before k
    let n = lemma_tag_is_shared(b, a, r2, r1, k);
    if n < k {
        assert(b[n].tag < b[k].tag);
    }
    if k < m {
        assert(b[k].tag < b[m].tag);
    }
    if k < n {
        assert(a[k].tag < a[n].tag);
    }
}

proof fn lemma_tag_is_shared(a: Seq<Run>, b: Seq<Run>, r1: Seq<Record>, r2: Seq<Record>, k: int) -> (m:
    int)
    requires
        are_hulls_of(a, r1),
        are_hulls_of(b, r2),
        same_members(r1, r2),
        0 <= k < a.len(),
    ensures
        0 <= m < b.len(),
        b[m].tag == a[k].tag,
{
    assert(is_least_position(r1, a[k].tag, a[k].start));
    let j = choose|j: int|
        0 <= j < r1.len() && (#[trigger] r1[j]).2 == a[k].tag && r1[j].0 == a[k].start;
    assert(r1.contains(r1[j]));
    let i = choose|i: int| 0 <= i < r2.len() && r2[i] == r1[j];
    assert(has_tag(b, r2[i].2 as int));
    choose|m: int| 0 <= m < b.len() && (#[trigger] b[m]).tag == a[k].tag
}

proof fn lemma_same_bounds(r1: Seq<Record>, r2: Seq<Record>, tag: int, p: int, q: int, e: int, f: int)
    requires
        same_members(r1, r2),
        is_least_position(r1, tag, p),
        is_least_position(r2, tag, q),
        is_greatest_end(r1, tag, e),
        is_greatest_end(r2, tag, f),
    ensures
        p == q,
        e == f,
{
    let j = choose|j: int| 0 <= j < r1.len() && (#[trigger] r1[j]).2 == tag && r1[j].0 == p;
    assert(r1.contains(r1[j]));
    let i = choose|i: int| 0 <= i < r2.len() && r2[i] == r1[j];
    assert(q <= r2[i].0);
    let j = choose|j: int| 0 <= j < r2.len() && (#[trigger] r2[j]).2 == tag && r2[j].0 == q;
    assert(r2.contains(r2[j]));
    let i = choose|i: int| 0 <= i < r1.len() && r1[i] == r2[j];
    assert(p <= r1[i].0);
    let j = choose|j: int| 0 <= j < r1.len() && (#[trigger] r1[j]).2 == tag && r1[j].1 == e;
    assert(r1.contains(r1[j]));
    let i = choose|i: int| 0 <= i < r2.len() && r2[i] == r1[j];
    assert(r2[i].1 <= f);
    let j = choose|j: int| 0 <= j < r2.len() && (#[trigger] r2[j]).2 == tag && r2[j].1 == f;
    assert(r2.contains(r2[j]));
    let i = choose|i: int| 0 <= i < r1.len() && r1[i] == r2[j];
    assert(r1[i].1 <= e);
}

/// The hulls of the phase tags are fixed by the records: two lists of hulls
/// of the same records agree in length and, run for run, in tag, start and
/// end.
pub proof fn lemma_hulls_are_unique(a: Seq<Run>, b: Seq<Run>, r1: Seq<Record>, r2: Seq<Record>)
    requires
        are_hulls_of(a, r1),
        are_hulls_of(b, r2),
        same_members(r1, r2),
    ensures
        a.len() == b.len(),
        forall|k: int|
            0 <= k < a.len() ==> {
                &&& (#[trigger] a[k]).tag == b[k].tag
                &&& a[k].start == b[k].start
                &&& a[k].end == b[k].end
            },
{
    if a.len() > b.len() {
        lemma_same_tag_at(a, b, r1, r2, b.len() as int);
    }
    if b.len() > a.len() {
        lemma_same_tag_at(b, a, r2, r1, a.len() as int);
    }
    assert forall|k: int| 0 <= k < a.len() implies {
        &&& (#[trigger] a[k]).tag == b[k].tag
        &&& a[k].start == b[k].start
        &&& a[k].end == b[k].end
    } by {
        lemma_same_tag_at(a, b, r1, r2, k);
        lemma_same_bounds(r1, r2, a[k].tag, a[k].start, b[k].start, a[k].end, b[k].end);
    }
}

/// The blocks go by the records alone: records that are the same but for
/// their order, or for how often one occurs, give the same blocks.
pub proof fn lemma_blocks_ignore_order(r1: Seq<Record>, r2: Seq<Record>, name: Seq<char>)
    requires
        same_members(r1, r2),
    ensures
        blocks_of(phase_runs(r1), name) == blocks_of(phase_runs(r2), name),
{
    let a = phase_runs(r1);
    let b = phase_runs(r2);
    lemma_phase_runs_are_hulls(r1);
    lemma_phase_runs_are_hulls(r2);
    lemma_hulls_are_unique(a, b, r1, r2);
    assert(blocks_of(a, name).len() == a.len());
    assert(blocks_of(b, name).len() == b.len());
    assert forall|k: int| 0 <= k < a.len() implies blocks_of(a, name)[k] == blocks_of(b, name)[k] by {
        assert(a[k].tag == b[k].tag);
    }
    assert(blocks_of(a, name) =~= blocks_of(b, name));
}

/// Records in another order give the same blocks.
pub proof fn lemma_blocks_of_permutation(r1: Seq<Record>, r2: Seq<Record>, name: Seq<char>)
    requires
        r1.to_multiset() == r2.to_multiset(),
    ensures
        blocks_of(phase_runs(r1), name) == blocks_of(phase_runs(r2), name),
{
    assert forall|r: Record| r1.contains(r) <==> r2.contains(r) by {
        to_multiset_contains(r1, r);
        to_multiset_contains(r2, r);
    }
    lemma_blocks_ignore_order(r1, r2, name);
}

} // verus!
