use vstd::prelude::*;
use crate::order::{is_ordered, precedes, Record};

verus! {

/// A maximal run of neighbouring records with one phase tag: the indices of
/// its first and last record, the tag, the position of the first record and
/// the furthest end position among its records.
pub struct Run {
    pub first: int,
    pub last: int,
    pub tag: int,
    pub start: int,
    pub end: int,
}

/// A run begins at `i`: no record stands before it, or the one before it has
/// another phase tag.
pub open spec fn starts_run(s: Seq<Record>, i: int) -> bool {
    0 <= i < s.len() && (i == 0 || s[i - 1].2 != s[i].2)
}

/// The index at which the run that holds `i` begins.
pub open spec fn run_begin(s: Seq<Record>, i: int) -> int
    decreases i,
{
    if i <= 0 || s[i - 1].2 != s[i].2 {
        i
    } else {
        run_begin(s, i - 1)
    }
}

/// The furthest end position among the records `b` to `m`.
#[verifier::opaque]
pub open spec fn furthest_end(s: Seq<Record>, b: int, m: int) -> int
    decreases m - b,
{
    if m <= b {
        s[b].1 as int
    } else if furthest_end(s, b, m - 1) >= s[m].1 {
        furthest_end(s, b, m - 1)
    } else {
        s[m].1 as int
    }
}

/// The number of indices of `s` at which a run begins.
pub open spec fn run_count(s: Seq<Record>) -> nat
    decreases s.len(),
{
    if s.len() == 0 {
        0
    } else {
        run_count(s.drop_last()) + if starts_run(s, s.len() - 1) {
            1nat
        } else {
            0nat
        }
    }
}

/// The maximal runs of `s`, first to last: the final run reaches back from the
/// last record to where its tag began, and before it stand the runs of what
/// precedes it.
pub open spec fn runs(s: Seq<Record>) -> Seq<Run>
    decreases s.len(),
    via runs_decreases
{
    if s.len() == 0 {
        Seq::empty()
    } else {
        let b = run_begin(s, s.len() - 1);
        runs(s.take(b)).push(
            Run {
                first: b,
                last: s.len() - 1,
                tag: s.last().2 as int,
                start: s[b].0 as int,
                end: furthest_end(s, b, s.len() - 1),
            },
        )
    }
}

#[via_fn]
proof fn runs_decreases(s: Seq<Record>) {
    if s.len() != 0 {
        lemma_run_begin(s, s.len() - 1);
    }
}

/// The run that holds `i` begins at or before `i`, at an index where a run
/// begins, and every record from there to `i` has the phase tag of `s[i]`.
pub proof fn lemma_run_begin(s: Seq<Record>, i: int)
    requires
        0 <= i < s.len(),
    ensures
        0 <= run_begin(s, i) <= i,
        starts_run(s, run_begin(s, i)),
        forall|j: int| run_begin(s, i) <= j <= i ==> #[trigger] s[j].2 == s[i].2,
    decreases i,
{
    if i <= 0 || s[i - 1].2 != s[i].2 {
    } else {
        lemma_run_begin(s, i - 1);
    }
}

/// The furthest end is the end of one of the records, and none of them ends
/// behind it.
pub proof fn lemma_furthest_end(s: Seq<Record>, b: int, m: int)
    requires
        0 <= b <= m < s.len(),
    ensures
        forall|i: int| b <= i <= m ==> (#[trigger] s[i]).1 <= furthest_end(s, b, m),
        exists|i: int| b <= i <= m && (#[trigger] s[i]).1 == furthest_end(s, b, m),
    decreases m - b,
{
    reveal(furthest_end);
    if m > b {
        lemma_furthest_end(s, b, m - 1);
        let w = choose|i: int| b <= i <= m - 1 && (#[trigger] s[i]).1 == furthest_end(s, b, m - 1);
        if furthest_end(s, b, m - 1) >= s[m].1 {
            assert(b <= w <= m && s[w].1 == furthest_end(s, b, m));
        } else {
            assert(b <= m <= m && s[m].1 == furthest_end(s, b, m));
        }
    } else {
        assert(b <= b <= m && s[b].1 == furthest_end(s, b, m));
    }
}

/// The furthest end depends only on the records up to `m`.
pub proof fn lemma_furthest_end_take(s: Seq<Record>, n: int, b: int, m: int)
    requires
        0 <= b <= m < n <= s.len(),
    ensures
        furthest_end(s.take(n), b, m) == furthest_end(s, b, m),
    decreases m - b,
{
    reveal(furthest_end);
    if m > b {
        lemma_furthest_end_take(s, n, b, m - 1);
    }
}

/// Where a run begins depends only on the records up to the index.
pub proof fn lemma_run_begin_take(s: Seq<Record>, n: int, i: int)
    requires
        0 <= i < n <= s.len(),
    ensures
        run_begin(s.take(n), i) == run_begin(s, i),
    decreases i,
{
    if i <= 0 || s[i - 1].2 != s[i].2 {
    } else {
        lemma_run_begin_take(s, n, i - 1);
    }
}

proof fn lemma_run_count_within_run(s: Seq<Record>, b: int, n: int)
    requires
        0 <= b < n <= s.len(),
        starts_run(s, b),
        forall|j: int| b < j < n ==> !starts_run(s, j),
    ensures
        run_count(s.take(n)) == run_count(s.take(b)) + 1,
    decreases n - b,
{
    let t = s.take(n);
    assert(t.drop_last() =~= s.take(n - 1));
    assert(starts_run(t, n - 1) == starts_run(s, n - 1));
    if n == b + 1 {
    } else {
        lemma_run_count_within_run(s, b, n - 1);
    }
}

/// There are as many runs as indices at which a run begins.
pub proof fn lemma_runs_len(s: Seq<Record>)
    ensures
        runs(s).len() == run_count(s),
    decreases s.len(),
{
    if s.len() != 0 {
        let b = run_begin(s, s.len() - 1);
        lemma_run_begin(s, s.len() - 1);
        lemma_runs_len(s.take(b));
        assert(s.take(s.len() as int) =~= s);
        lemma_run_count_within_run(s, b, s.len() as int);
    }
}

/// `r` is a run of `s`: its records share its tag, it starts at the position
/// of its first record and ends at the furthest end among its records.
pub open spec fn is_run_of(r: Run, s: Seq<Record>) -> bool {
    &&& 0 <= r.first <= r.last < s.len()
    &&& r.tag == s[r.first].2
    &&& r.start == s[r.first].0
    &&& r.end == furthest_end(s, r.first, r.last)
    &&& forall|i: int| r.first <= i <= r.last ==> #[trigger] s[i].2 == r.tag
}

proof fn lemma_run_at(s: Seq<Record>, k: int)
    requires
        0 <= k < runs(s).len(),
    ensures
        is_run_of(runs(s)[k], s),
        k == 0 ==> runs(s)[k].first == 0,
        k == runs(s).len() - 1 ==> runs(s)[k].last == s.len() - 1,
    decreases s.len(),
{
    let n = s.len() as int;
    let b = run_begin(s, n - 1);
    lemma_run_begin(s, n - 1);
    let head = s.take(b);
    let r = runs(s)[k];
    if k == runs(head).len() {
        if b > 0 {
            lemma_head_has_runs(s);
        }
    } else {
        assert(r == runs(head)[k]);
        lemma_run_at(head, k);
        lemma_furthest_end_take(s, b, r.first, r.last);
        assert(head[r.first] == s[r.first]);
        assert forall|i: int| r.first <= i <= r.last implies #[trigger] s[i].2 == r.tag by {
            assert(head[i] == s[i]);
        }
    }
}

proof fn lemma_head_has_runs(s: Seq<Record>)
    requires
        s.len() > 0,
    ensures
        runs(s).len() > 0,
        run_begin(s, s.len() - 1) > 0 ==> runs(s.take(run_begin(s, s.len() - 1))).len() > 0,
{
    let b = run_begin(s, s.len() - 1);
    lemma_run_begin(s, s.len() - 1);
    if b > 0 {
        let head = s.take(b);
        assert(head.len() > 0);
        let hb = run_begin(head, head.len() - 1);
        lemma_run_begin(head, head.len() - 1);
    }
}

proof fn lemma_runs_adjacent(s: Seq<Record>, k: int)
    requires
        0 <= k < runs(s).len() - 1,
    ensures
        runs(s)[k].last + 1 == runs(s)[k + 1].first,
        runs(s)[k].tag != runs(s)[k + 1].tag,
    decreases s.len(),
{
    let n = s.len() as int;
    let b = run_begin(s, n - 1);
    lemma_run_begin(s, n - 1);
    let head = s.take(b);
    if k + 1 == runs(head).len() {
        assert(runs(s)[k] == runs(head)[k]);
        lemma_run_at(head, k);
        lemma_run_at(s, k + 1);
        assert(head[b - 1] == s[b - 1]);
    } else {
        assert(runs(s)[k] == runs(head)[k]);
        assert(runs(s)[k + 1] == runs(head)[k + 1]);
        lemma_runs_adjacent(head, k);
    }
}

/// The runs cut `s` into pieces: the first begins at 0, each begins where the
/// one before it ended, the last ends with `s`; the records of a run share its
/// tag, neighbouring runs differ in tag, and a run starts at the position of
/// its first record and ends at the furthest end among its records.
pub proof fn lemma_runs_partition(s: Seq<Record>)
    ensures
        s.len() == 0 <==> runs(s).len() == 0,
        s.len() > 0 ==> runs(s)[0].first == 0 && runs(s).last().last == s.len() - 1,
        forall|k: int|
            0 <= k < runs(s).len() ==> {
                let r = #[trigger] runs(s)[k];
                &&& 0 <= r.first <= r.last < s.len()
                &&& r.tag == s[r.first].2
                &&& r.start == s[r.first].0
                &&& r.end == furthest_end(s, r.first, r.last)
                &&& forall|i: int| r.first <= i <= r.last ==> #[trigger] s[i].2 == r.tag
            },
        forall|k: int|
            0 <= k < runs(s).len() - 1 ==> {
                &&& (#[trigger] runs(s)[k]).last + 1 == runs(s)[k + 1].first
                &&& runs(s)[k].tag != runs(s)[k + 1].tag
            },
{
    if s.len() > 0 {
        lemma_head_has_runs(s);
        lemma_run_at(s, 0);
        lemma_run_at(s, runs(s).len() - 1);
    }
    assert forall|k: int| 0 <= k < runs(s).len() implies {
        let r = #[trigger] runs(s)[k];
        &&& 0 <= r.first <= r.last < s.len()
        &&& r.tag == s[r.first].2
        &&& r.start == s[r.first].0
        &&& r.end == furthest_end(s, r.first, r.last)
        &&& forall|i: int| r.first <= i <= r.last ==> #[trigger] s[i].2 == r.tag
    } by {
        lemma_run_at(s, k);
    }
    assert forall|k: int| 0 <= k < runs(s).len() - 1 implies {
        &&& (#[trigger] runs(s)[k]).last + 1 == runs(s)[k + 1].first
        &&& runs(s)[k].tag != runs(s)[k + 1].tag
    } by {
        lemma_runs_adjacent(s, k);
    }
}

/// In ascending order the runs come with strictly ascending phase tags, so
/// each phase tag has one run, which holds all its records.
pub proof fn lemma_ordered_runs_ascend(s: Seq<Record>)
    requires
        is_ordered(s),
    ensures
        forall|k: int, l: int| 0 <= k < l < runs(s).len() ==> (#[trigger] runs(s)[k]).tag < (#[trigger] runs(s)[l]).tag,
        forall|i: int, k: int|
            #![trigger s[i], runs(s)[k]]
            0 <= i < s.len() && 0 <= k < runs(s).len() && s[i].2 == runs(s)[k].tag ==> runs(
                s,
            )[k].first <= i <= runs(s)[k].last,
{
    lemma_runs_partition(s);
    let rs = runs(s);
    assert forall|k: int, l: int| 0 <= k < l < rs.len() implies (#[trigger] rs[k]).tag < (#[trigger] rs[l]).tag by {
        lemma_firsts_ascend(s, k, l);
        assert(precedes(s[rs[k].first], s[rs[l].first]));
        lemma_firsts_ascend(s, k, k + 1);
        assert(precedes(s[rs[k].last], s[rs[k + 1].first]));
        assert(precedes(s[rs[k + 1].first], s[rs[l].first]));
        assert(s[rs[k].last].2 == rs[k].tag);
    }
    assert forall|i: int, k: int|
        #![trigger s[i], rs[k]]
        0 <= i < s.len() && 0 <= k < rs.len() && s[i].2 == rs[k].tag implies rs[k].first <= i
        <= rs[k].last by {
        let m = lemma_run_holding(s, i);
        if m < k {
            assert(rs[m].tag < rs[k].tag);
        } else if k < m {
            assert(rs[k].tag < rs[m].tag);
        }
    }
}

proof fn lemma_firsts_ascend(s: Seq<Record>, k: int, l: int)
    requires
        0 <= k <= l < runs(s).len(),
    ensures
        runs(s)[k].first <= runs(s)[l].first,
        k < l ==> runs(s)[k].last < runs(s)[l].first,
    decreases l - k,
{
    lemma_runs_partition(s);
    if k < l {
        lemma_firsts_ascend(s, k, l - 1);
        assert(runs(s)[l - 1].last + 1 == runs(s)[l].first);
    }
}

/// Every record lies in one of the runs.
pub proof fn lemma_run_holding(s: Seq<Record>, i: int) -> (k: int)
    requires
        0 <= i < s.len(),
    ensures
        0 <= k < runs(s).len(),
        runs(s)[k].first <= i <= runs(s)[k].last,
        runs(s)[k].tag == s[i].2,
    decreases s.len(),
{
    let n = s.len() as int;
    let b = run_begin(s, n - 1);
    lemma_run_begin(s, n - 1);
    lemma_runs_partition(s);
    if i >= b {
        runs(s).len() - 1
    } else {
        let k = lemma_run_holding(s.take(b), i);
        assert(runs(s)[k] == runs(s.take(b))[k]);
        assert(s.take(b)[i] == s[i]);
        k
    }
}

} // verus!
