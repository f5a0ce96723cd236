use vstd::prelude::*;

verus! {

/// One phased record: `(position, end position, phase tag)`.
pub type Record = (i64, i64, u32);

/// `a` may stand before `b`: its phase tag is smaller, or the tags agree and
/// its position is not larger.
pub open spec fn precedes(a: Record, b: Record) -> bool {
    a.2 < b.2 || (a.2 == b.2 && a.0 <= b.0)
}

/// Ascending by phase tag, and by position within one tag.
pub open spec fn is_ordered(s: Seq<Record>) -> bool {
    forall|i: int, j: int| 0 <= i <= j < s.len() ==> precedes(s[i], s[j])
}

/// Whether a record has the given phase tag and position.
pub open spec fn has_key(tag: u32, position: i64) -> spec_fn(Record) -> bool {
    |r: Record| r.2 == tag && r.0 == position
}

/// The records of `s` with the given phase tag and position, in the order in
/// which they stand in `s`.
pub open spec fn keyed(s: Seq<Record>, tag: u32, position: i64) -> Seq<Record> {
    s.filter(has_key(tag, position))
}

/// `t` holds the records of `s` in ascending order, and records that agree in
/// phase tag and position keep the order they had in `s`.
pub open spec fn is_stable_sort_of(t: Seq<Record>, s: Seq<Record>) -> bool {
    &&& is_ordered(t)
    &&& forall|tag: u32, position: i64| #[trigger] keyed(t, tag, position) == keyed(s, tag, position)
}

/// `t` with `r` placed behind the last record that may stand before it.
pub open spec fn place(t: Seq<Record>, r: Record) -> Seq<Record>
    decreases t.len(),
{
    if t.len() == 0 || precedes(t.last(), r) {
        t.push(r)
    } else {
        place(t.drop_last(), r).push(t.last())
    }
}

/// The canonical order of `s`: ascending by phase tag, then by position, ties
/// in the order of `s`.
pub open spec fn canonical_order(s: Seq<Record>) -> Seq<Record>
    decreases s.len(),
{
    if s.len() == 0 {
        s
    } else {
        place(canonical_order(s.drop_last()), s.last())
    }
}

proof fn lemma_keyed_push(s: Seq<Record>, r: Record, tag: u32, position: i64)
    ensures
        keyed(s.push(r), tag, position) == if r.2 == tag && r.0 == position {
            keyed(s, tag, position).push(r)
        } else {
            keyed(s, tag, position)
        },
{
    reveal(Seq::filter);
    assert(s.push(r).drop_last() =~= s);
}

proof fn lemma_place(t: Seq<Record>, r: Record)
    requires
        is_ordered(t),
    ensures
        is_ordered(place(t, r)),
        place(t, r).len() == t.len() + 1,
        forall|i: int| 0 <= i < place(t, r).len() ==> #[trigger] place(t, r)[i] == r || t.contains(
            place(t, r)[i],
        ),
        forall|tag: u32, position: i64| #[trigger]
            keyed(place(t, r), tag, position) == if r.2 == tag && r.0 == position {
                keyed(t, tag, position).push(r)
            } else {
                keyed(t, tag, position)
            },
    decreases t.len(),
{
    let out = place(t, r);
    if t.len() == 0 || precedes(t.last(), r) {
        assert forall|i: int, j: int| 0 <= i <= j < out.len() implies precedes(out[i], out[j]) by {
            if j == t.len() {
                if i < t.len() {
                    assert(precedes(t[i], t.last()));
                }
            }
        }
        assert forall|i: int| 0 <= i < out.len() implies #[trigger] out[i] == r || t.contains(
            out[i],
        ) by {
            if i < t.len() {
                assert(t[i] == out[i]);
            }
        }
        assert forall|tag: u32, position: i64| #[trigger]
            keyed(out, tag, position) == if r.2 == tag && r.0 == position {
                keyed(t, tag, position).push(r)
            } else {
                keyed(t, tag, position)
            } by {
            lemma_keyed_push(t, r, tag, position);
        }
    } else {
        let head = t.drop_last();
        let last = t.last();
        assert(is_ordered(head)) by {
            assert forall|i: int, j: int| 0 <= i <= j < head.len() implies precedes(
                head[i],
                head[j],
            ) by {
                assert(precedes(t[i], t[j]));
            }
        }
        lemma_place(head, r);
        let inner = place(head, r);
        assert(out == inner.push(last));
        assert forall|i: int, j: int| 0 <= i <= j < out.len() implies precedes(out[i], out[j]) by {
            if j == inner.len() {
                if i < inner.len() {
                    if inner[i] == r {
                    } else {
                        assert(head.contains(inner[i]));
                        let k = choose|k: int| 0 <= k < head.len() && head[k] == inner[i];
                        assert(precedes(t[k], t.last()));
                    }
                }
            } else {
                assert(precedes(inner[i], inner[j]));
            }
        }
        assert forall|i: int| 0 <= i < out.len() implies #[trigger] out[i] == r || t.contains(
            out[i],
        ) by {
            if i < inner.len() {
                if inner[i] != r {
                    let k = choose|k: int| 0 <= k < head.len() && head[k] == inner[i];
                    assert(t[k] == out[i]);
                }
            } else {
                assert(t[t.len() - 1] == out[i]);
            }
        }
        assert forall|tag: u32, position: i64| #[trigger]
            keyed(out, tag, position) == if r.2 == tag && r.0 == position {
                keyed(t, tag, position).push(r)
            } else {
                keyed(t, tag, position)
            } by {
            lemma_keyed_push(inner, last, tag, position);
            lemma_keyed_push(head, last, tag, position);
            assert(head.push(last) =~= t);
            if r.2 == tag && r.0 == position {
                assert(keyed(inner, tag, position) == keyed(head, tag, position).push(r));
            } else {
                assert(keyed(inner, tag, position) == keyed(head, tag, position));
            }
        }
    }
}

/// The canonical order is a stable sort: ascending, of the same length, and
/// for each phase tag and position it holds the records of the input in the
/// order of the input.
pub proof fn lemma_canonical_order_sorts(s: Seq<Record>)
    ensures
        is_stable_sort_of(canonical_order(s), s),
        canonical_order(s).len() == s.len(),
    decreases s.len(),
{
    if s.len() == 0 {
    } else {
        let head = s.drop_last();
        lemma_canonical_order_sorts(head);
        lemma_place(canonical_order(head), s.last());
        assert forall|tag: u32, position: i64| #[trigger]
            keyed(canonical_order(s), tag, position) == keyed(s, tag, position) by {
            lemma_keyed_push(head, s.last(), tag, position);
            assert(head.push(s.last()) =~= s);
            assert(keyed(canonical_order(head), tag, position) == keyed(head, tag, position));
        }
    }
}

proof fn lemma_keyed_holds(s: Seq<Record>, i: int)
    requires
        0 <= i < s.len(),
    ensures
        keyed(s, s[i].2, s[i].0).contains(s[i]),
{
    broadcast use Seq::lemma_filter_contains;
}

proof fn lemma_keyed_member(s: Seq<Record>, tag: u32, position: i64, r: Record)
    requires
        keyed(s, tag, position).contains(r),
    ensures
        s.contains(r),
        r.2 == tag,
        r.0 == position,
{
    let pred = has_key(tag, position);
    let i = choose|i: int| 0 <= i < s.filter(pred).len() && s.filter(pred)[i] == r;
    s.lemma_filter_pred(pred, i);
    s.lemma_filter_contains_rev(pred, r);
}

/// A stable sort holds exactly the records of its input.
pub proof fn lemma_stable_sort_members(t: Seq<Record>, s: Seq<Record>)
    requires
        is_stable_sort_of(t, s),
    ensures
        forall|r: Record| t.contains(r) <==> s.contains(r),
{
    assert forall|r: Record| t.contains(r) <==> s.contains(r) by {
        if t.contains(r) {
            let i = choose|i: int| 0 <= i < t.len() && t[i] == r;
            lemma_keyed_holds(t, i);
            assert(keyed(t, r.2, r.0) == keyed(s, r.2, r.0));
            lemma_keyed_member(s, r.2, r.0, r);
        }
        if s.contains(r) {
            let i = choose|i: int| 0 <= i < s.len() && s[i] == r;
            lemma_keyed_holds(s, i);
            assert(keyed(t, r.2, r.0) == keyed(s, r.2, r.0));
            lemma_keyed_member(t, r.2, r.0, r);
        }
    }
}

/// Every record of the input stands somewhere in its canonical order.
pub proof fn lemma_stands_in_canonical_order(s: Seq<Record>, j: int) -> (i: int)
    requires
        0 <= j < s.len(),
    ensures
        0 <= i < canonical_order(s).len(),
        canonical_order(s)[i] == s[j],
{
    let c = canonical_order(s);
    lemma_canonical_order_sorts(s);
    lemma_stable_sort_members(c, s);
    assert(s.contains(s[j]));
    choose|i: int| 0 <= i < c.len() && c[i] == s[j]
}

/// Every record of the canonical order stands somewhere in the input.
pub proof fn lemma_comes_from_input(s: Seq<Record>, i: int) -> (j: int)
    requires
        0 <= i < canonical_order(s).len(),
    ensures
        0 <= j < s.len(),
        canonical_order(s)[i] == s[j],
{
    let c = canonical_order(s);
    lemma_canonical_order_sorts(s);
    lemma_stable_sort_members(c, s);
    assert(c.contains(c[i]));
    choose|j: int| 0 <= j < s.len() && s[j] == c[i]
}

/// Two ascending sequences that hold, for each phase tag and position, the
/// same records in the same order are equal.
pub proof fn lemma_ordered_unique(a: Seq<Record>, b: Seq<Record>)
    requires
        is_ordered(a),
        is_ordered(b),
        forall|tag: u32, position: i64| #[trigger] keyed(a, tag, position) == keyed(b, tag, position),
    ensures
        a == b,
    decreases a.len() + b.len(),
{
    if a.len() == 0 && b.len() == 0 {
        assert(a =~= b);
    } else if a.len() == 0 || b.len() == 0 {
        // the last record of the longer one is among its keyed records,
        // which the empty one cannot hold
        let (long, short) = if a.len() == 0 { (b, a) } else { (a, b) };
        let r = long.last();
        lemma_keyed_holds(long, long.len() - 1);
        assert(keyed(long, r.2, r.0) == keyed(short, r.2, r.0));
        lemma_keyed_member(short, r.2, r.0, r);
    } else {
        let ra = a.last();
        let rb = b.last();
        // each last record occurs in the other sequence, so neither key is larger
        lemma_keyed_holds(a, a.len() - 1);
        assert(keyed(a, ra.2, ra.0) == keyed(b, ra.2, ra.0));
        lemma_keyed_member(b, ra.2, ra.0, ra);
        let ia = choose|i: int| 0 <= i < b.len() && b[i] == ra;
        assert(precedes(b[ia], b[b.len() - 1]));
        lemma_keyed_holds(b, b.len() - 1);
        assert(keyed(a, rb.2, rb.0) == keyed(b, rb.2, rb.0));
        lemma_keyed_member(a, rb.2, rb.0, rb);
        let ib = choose|i: int| 0 <= i < a.len() && a[i] == rb;
        assert(precedes(a[ib], a[a.len() - 1]));
        assert(ra.2 == rb.2 && ra.0 == rb.0);
        let a0 = a.drop_last();
        let b0 = b.drop_last();
        lemma_keyed_push(a0, ra, ra.2, ra.0);
        lemma_keyed_push(b0, rb, ra.2, ra.0);
        assert(a0.push(ra) =~= a);
        assert(b0.push(rb) =~= b);
        assert(keyed(a, ra.2, ra.0).last() == ra);
        assert(keyed(b, ra.2, ra.0).last() == rb);
        assert(ra == rb);
        assert(is_ordered(a0)) by {
            assert forall|i: int, j: int| 0 <= i <= j < a0.len() implies precedes(a0[i], a0[j]) by {
                assert(precedes(a[i], a[j]));
            }
        }
        assert(is_ordered(b0)) by {
            assert forall|i: int, j: int| 0 <= i <= j < b0.len() implies precedes(b0[i], b0[j]) by {
                assert(precedes(b[i], b[j]));
            }
        }
        assert forall|tag: u32, position: i64| #[trigger]
            keyed(a0, tag, position) == keyed(b0, tag, position) by {
            lemma_keyed_push(a0, ra, tag, position);
            lemma_keyed_push(b0, rb, tag, position);
            assert(keyed(a, tag, position) == keyed(b, tag, position));
            if ra.2 == tag && ra.0 == position {
                assert(keyed(a0, tag, position) =~= keyed(a, tag, position).drop_last());
                assert(keyed(b0, tag, position) =~= keyed(b, tag, position).drop_last());
            }
        }
        lemma_ordered_unique(a0, b0);
        assert(a =~= b);
    }
}

/// Every stable sort of `s` is its canonical order.
pub proof fn lemma_stable_sort_is_canonical(t: Seq<Record>, s: Seq<Record>)
    requires
        is_stable_sort_of(t, s),
    ensures
        t == canonical_order(s),
{
    lemma_canonical_order_sorts(s);
    let c = canonical_order(s);
    assert forall|tag: u32, position: i64| #[trigger] keyed(t, tag, position) == keyed(c, tag, position) by {
        assert(keyed(t, tag, position) == keyed(s, tag, position));
        assert(keyed(c, tag, position) == keyed(s, tag, position));
    }
    lemma_ordered_unique(t, c);
}

/// Sorting what is already in order changes nothing.
pub proof fn lemma_canonical_order_of_ordered(s: Seq<Record>)
    requires
        is_ordered(s),
    ensures
        canonical_order(s) == s,
{
    lemma_stable_sort_is_canonical(s, s);
}

/// Sorting twice gives what sorting once gives.
pub proof fn lemma_canonical_order_idempotent(s: Seq<Record>)
    ensures
        canonical_order(canonical_order(s)) == canonical_order(s),
{
    lemma_canonical_order_sorts(s);
    lemma_canonical_order_of_ordered(canonical_order(s));
}

} // verus!
