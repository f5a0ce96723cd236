use vstd::prelude::*;
use crate::extract::{all_intervals, phase_runs};
use crate::order::{
    canonical_order, is_ordered, lemma_canonical_order_sorts, lemma_stable_sort_members, precedes,
    Record,
};
use crate::runs::{
    furthest_end, lemma_furthest_end, lemma_ordered_runs_ascend, lemma_run_holding,
    lemma_runs_partition, runs, starts_run,
};

verus! {

/// The positions from `start` to `end`, both included.
pub open spec fn covered(start: int, end: int) -> Set<int> {
    Set::new(|p: int| start <= p <= end)
}

/// Record `i` of `s` reaches over position `p`.
pub open spec fn covers(s: Seq<Record>, i: int, p: int) -> bool {
    0 <= i < s.len() && s[i].0 <= p <= s[i].1
}

/// The positions that the records with phase tag `tag` reach over.
pub open spec fn covered_by_tag(records: Seq<Record>, tag: int) -> Set<int> {
    Set::new(|p: int| exists|j: int| #[trigger] covers(records, j, p) && records[j].2 == tag)
}

/// A record that follows one of its own phase tag begins at most one position
/// behind the end of some earlier record of that tag.
pub open spec fn is_contiguous(s: Seq<Record>) -> bool {
    forall|i: int|
        0 < i < s.len() && s[i - 1].2 == (#[trigger] s[i]).2 ==> exists|j: int|
            0 <= j < i && (#[trigger] s[j]).2 == s[i].2 && s[i].0 <= s[j].1 + 1
}

/// One of the records `b` to `m` reaches over position `p`.
spec fn some_covers(s: Seq<Record>, b: int, m: int, p: int) -> bool {
    exists|i: int| b <= i <= m && #[trigger] covers(s, i, p)
}

proof fn lemma_before_run(s: Seq<Record>, b: int, j: int)
    requires
        is_ordered(s),
        starts_run(s, b),
        0 <= j < b,
    ensures
        s[j].2 < s[b].2,
{
    assert(precedes(s[j], s[b - 1]));
    assert(precedes(s[b - 1], s[b]));
}

proof fn lemma_run_tiles(s: Seq<Record>, b: int, m: int)
    requires
        0 <= b <= m < s.len(),
        is_ordered(s),
        all_intervals(s),
        is_contiguous(s),
        starts_run(s, b),
        forall|i: int| b <= i <= m ==> (#[trigger] s[i]).2 == s[b].2,
    ensures
        forall|p: int| #[trigger] some_covers(s, b, m, p) <==> s[b].0 <= p <= furthest_end(s, b, m),
    decreases m - b,
{
    reveal(furthest_end);
    lemma_furthest_end(s, b, m);
    if m == b {
        assert(s[b].1 == furthest_end(s, b, m));
        assert forall|p: int| #[trigger] some_covers(s, b, m, p) <==> s[b].0 <= p <= furthest_end(s, b, m) by {
            if s[b].0 <= p <= furthest_end(s, b, m) {
                assert(covers(s, b, p));
            }
        }
    } else {
        lemma_run_tiles(s, b, m - 1);
        lemma_furthest_end(s, b, m - 1);
        let low = furthest_end(s, b, m - 1);
        let top = furthest_end(s, b, m);
        // the record at `m` begins within one position of what was reached
        assert(s[m - 1].2 == s[m].2);
        let j = choose|j: int| 0 <= j < m && (#[trigger] s[j]).2 == s[m].2 && s[m].0 <= s[j].1 + 1;
        if j < b {
            lemma_before_run(s, b, j);
        }
        assert(s[j].1 <= low);
        assert(precedes(s[b], s[m]));
        assert forall|p: int| #[trigger] some_covers(s, b, m, p) <==> s[b].0 <= p <= top by {
            if some_covers(s, b, m, p) {
                let i = choose|i: int| b <= i <= m && #[trigger] covers(s, i, p);
                if i < m {
                    assert(b <= i <= m - 1 && covers(s, i, p));
                    assert(some_covers(s, b, m - 1, p));
                }
            }
            if s[b].0 <= p <= top {
                if p <= low {
                    assert(some_covers(s, b, m - 1, p));
                    let i = choose|i: int| b <= i <= m - 1 && #[trigger] covers(s, i, p);
                    assert(b <= i <= m && covers(s, i, p));
                } else {
                    assert(covers(s, m, p));
                }
            }
        }
    }
}

proof fn lemma_tiled_run_covers(s: Seq<Record>, k: int)
    requires
        is_ordered(s),
        all_intervals(s),
        is_contiguous(s),
        0 <= k < runs(s).len(),
    ensures
        covered(runs(s)[k].start, runs(s)[k].end) == covered_by_tag(s, runs(s)[k].tag),
{
    lemma_runs_partition(s);
    lemma_ordered_runs_ascend(s);
    let r = runs(s)[k];
    let b = r.first;
    let e = r.last;
    if b > 0 {
        let q = runs(s)[k - 1];
        assert(q.last + 1 == b);
        assert(s[q.last].2 == q.tag);
    }
    assert(starts_run(s, b));
    lemma_run_tiles(s, b, e);
    assert forall|p: int| covered(r.start, r.end).contains(p) <==> covered_by_tag(s, r.tag).contains(
        p,
    ) by {
        if covered(r.start, r.end).contains(p) {
            assert(some_covers(s, b, e, p));
            let i = choose|i: int| b <= i <= e && #[trigger] covers(s, i, p);
            assert(covers(s, i, p) && s[i].2 == r.tag);
        }
        if covered_by_tag(s, r.tag).contains(p) {
            let j = choose|j: int| #[trigger] covers(s, j, p) && s[j].2 == r.tag;
            assert(b <= j <= e) by {
                assert(s[j].2 == runs(s)[k].tag);
            }
            assert(b <= j <= e && covers(s, j, p));
            assert(some_covers(s, b, e, p));
        }
    }
    assert(covered(r.start, r.end) =~= covered_by_tag(s, r.tag));
}

proof fn lemma_covering_runs_are_contiguous(s: Seq<Record>)
    requires
        is_ordered(s),
        all_intervals(s),
        forall|k: int|
            0 <= k < runs(s).len() ==> covered((#[trigger] runs(s)[k]).start, runs(s)[k].end)
                == covered_by_tag(s, runs(s)[k].tag),
    ensures
        is_contiguous(s),
{
    lemma_runs_partition(s);
    lemma_ordered_runs_ascend(s);
    assert forall|i: int| 0 < i < s.len() && s[i - 1].2 == (#[trigger] s[i]).2 implies exists|j: int|
        0 <= j < i && (#[trigger] s[j]).2 == s[i].2 && s[i].0 <= s[j].1 + 1 by {
        if s[i].0 <= s[i - 1].1 + 1 {
            assert(s[i - 1].2 == s[i].2 && s[i].0 <= s[i - 1].1 + 1);
        } else {
            // the position just before record `i` lies in the block, yet no
            // record of the tag reaches over it
            let k = lemma_run_holding(s, i);
            let r = runs(s)[k];
            let p = s[i].0 - 1;
            assert(r.first <= i - 1) by {
                assert(s[i - 1].2 == runs(s)[k].tag);
            }
            assert(precedes(s[r.first], s[i - 1]));
            let q = s[i].1 as int;
            assert(covers(s, i, q) && s[i].2 == r.tag);
            assert(covered_by_tag(s, r.tag).contains(q));
            assert(covered(r.start, r.end).contains(q));
            assert(covered(r.start, r.end).contains(p));
            assert(covered_by_tag(s, r.tag).contains(p));
            let w = choose|w: int| #[trigger] covers(s, w, p) && s[w].2 == r.tag;
            if w < i {
                assert(0 <= w < i && s[w].2 == s[i].2 && s[i].0 <= s[w].1 + 1);
            } else {
                assert(precedes(s[i], s[w]));
            }
        }
    }
}

proof fn lemma_same_cover(records: Seq<Record>, tag: int)
    ensures
        covered_by_tag(canonical_order(records), tag) == covered_by_tag(records, tag),
{
    let c = canonical_order(records);
    lemma_canonical_order_sorts(records);
    lemma_stable_sort_members(c, records);
    assert forall|p: int| covered_by_tag(c, tag).contains(p) <==> covered_by_tag(records, tag).contains(
        p,
    ) by {
        if covered_by_tag(c, tag).contains(p) {
            let j = choose|j: int| #[trigger] covers(c, j, p) && c[j].2 == tag;
            assert(c.contains(c[j]));
            let i = choose|i: int| 0 <= i < records.len() && records[i] == c[j];
            assert(covers(records, i, p) && records[i].2 == tag);
        }
        if covered_by_tag(records, tag).contains(p) {
            let j = choose|j: int| #[trigger] covers(records, j, p) && records[j].2 == tag;
            assert(records.contains(records[j]));
            let i = choose|i: int| 0 <= i < c.len() && c[i] == records[j];
            assert(covers(c, i, p) && c[i].2 == tag);
        }
    }
    assert(covered_by_tag(c, tag) =~= covered_by_tag(records, tag));
}

/// Every block covers exactly the positions that the records of its phase tag
/// reach over.
pub open spec fn blocks_cover_records(records: Seq<Record>) -> bool {
    forall|k: int|
        0 <= k < phase_runs(records).len() ==> covered(
            (#[trigger] phase_runs(records)[k]).start,
            phase_runs(records)[k].end,
        ) == covered_by_tag(records, phase_runs(records)[k].tag)
}

/// Of records that each end at or after their position: every block covers
/// exactly the positions that the records of its phase tag reach over if and
/// only if, in canonical order, the records of each tag leave no position out
/// between them.
pub proof fn lemma_blocks_cover_their_records(records: Seq<Record>)
    requires
        all_intervals(records),
    ensures
        blocks_cover_records(records) <==> is_contiguous(canonical_order(records)),
{
    let c = canonical_order(records);
    lemma_canonical_order_sorts(records);
    lemma_stable_sort_members(c, records);
    assert(all_intervals(c)) by {
        assert forall|i: int| 0 <= i < c.len() implies (#[trigger] c[i]).0 <= c[i].1 by {
            assert(c.contains(c[i]));
            let j = choose|j: int| 0 <= j < records.len() && records[j] == c[i];
        }
    }
    if is_contiguous(c) {
        assert forall|k: int| 0 <= k < runs(c).len() implies covered(
            (#[trigger] runs(c)[k]).start,
            runs(c)[k].end,
        ) == covered_by_tag(records, runs(c)[k].tag) by {
            lemma_tiled_run_covers(c, k);
            lemma_same_cover(records, runs(c)[k].tag);
        }
    }
    if blocks_cover_records(records) {
        assert forall|k: int| 0 <= k < runs(c).len() implies covered(
            (#[trigger] runs(c)[k]).start,
            runs(c)[k].end,
        ) == covered_by_tag(c, runs(c)[k].tag) by {
            assert(phase_runs(records)[k] == runs(c)[k]);
            lemma_same_cover(records, runs(c)[k].tag);
        }
        lemma_covering_runs_are_contiguous(c);
    }
}

} // verus!
