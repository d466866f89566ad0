//! Stable timestamp sorting for presentation: history snapshots are stored in
//! ring order and are re-sorted by timestamp at every read. Entries with
//! equal timestamps keep their snapshot order.

use crate::wire::{ts_le, Data, Timestamp};
use vstd::prelude::*;

verus! {

/// Inserts `e` into an already processed sequence: after every entry whose
/// timestamp is less than or equal, before the rest. Placing `e` after equal
/// timestamps is what makes the sort stable.
pub open spec fn stable_insert(s: Seq<Data<String>>, e: Data<String>) -> Seq<Data<String>>
    decreases s.len(),
{
    if s.len() == 0 {
        seq![e]
    } else if ts_le(s.last().timestamp, e.timestamp) {
        s.push(e)
    } else {
        stable_insert(s.drop_last(), e).push(s.last())
    }
}

/// Insertion sort by timestamp, processing entries in snapshot order.
pub open spec fn sort_by_ts(s: Seq<Data<String>>) -> Seq<Data<String>>
    decreases s.len(),
{
    if s.len() == 0 {
        s
    } else {
        stable_insert(sort_by_ts(s.drop_last()), s.last())
    }
}

/// Non-decreasing timestamps.
pub open spec fn sorted_by_ts(s: Seq<Data<String>>) -> bool {
    forall|i: int, j: int| 0 <= i < j < s.len() ==> ts_le(s[i].timestamp, s[j].timestamp)
}

/// Inserting into a sorted sequence keeps it sorted and adds exactly the new
/// entry to the contents.
pub proof fn lemma_stable_insert(s: Seq<Data<String>>, e: Data<String>)
    requires
        sorted_by_ts(s),
    ensures
        sorted_by_ts(stable_insert(s, e)),
        stable_insert(s, e).to_multiset() == s.to_multiset().insert(e),
        stable_insert(s, e).len() == s.len() + 1,
    decreases s.len(),
{
    broadcast use vstd::seq_lib::group_to_multiset_ensures;
    broadcast use vstd::multiset::group_multiset_axioms;

    let t = stable_insert(s, e);
    if s.len() == 0 {
        assert(Seq::<Data<String>>::empty().push(e) =~= seq![e]);
        assert(t.to_multiset() =~= s.to_multiset().insert(e));
    } else if ts_le(s.last().timestamp, e.timestamp) {
        assert forall|i: int, j: int| 0 <= i < j < t.len() implies ts_le(
            t[i].timestamp,
            t[j].timestamp,
        ) by {
            if j < s.len() {
            } else {
                if i < s.len() - 1 {
                    assert(ts_le(s[i].timestamp, s.last().timestamp));
                }
            }
        }
    } else {
        let pre = s.drop_last();
        assert(sorted_by_ts(pre)) by {
            assert forall|i: int, j: int| 0 <= i < j < pre.len() implies ts_le(
                pre[i].timestamp,
                pre[j].timestamp,
            ) by {
                assert(pre[i] == s[i] && pre[j] == s[j]);
            }
        }
        lemma_stable_insert(pre, e);
        let inner = stable_insert(pre, e);
        // every entry of `inner` is one of `pre` or `e`, and both come at or
        // below `s.last()` in timestamp order
        assert forall|i: int, j: int| 0 <= i < j < t.len() implies ts_le(
            t[i].timestamp,
            t[j].timestamp,
        ) by {
            if j == t.len() - 1 {
                assert(t[j] == s.last());
                assert(t[i] == inner[i]);
                assert(inner.to_multiset().count(inner[i]) > 0);
                assert(pre.to_multiset().insert(e).count(inner[i]) > 0);
                if inner[i] == e {
                    assert(ts_le(e.timestamp, s.last().timestamp));
                } else {
                    assert(pre.to_multiset().count(inner[i]) > 0);
                    assert(pre.contains(inner[i]));
                    let w = choose|w: int| 0 <= w < pre.len() && pre[w] == inner[i];
                    assert(ts_le(s[w].timestamp, s.last().timestamp));
                }
            } else {
                assert(t[i] == inner[i] && t[j] == inner[j]);
            }
        }
        assert(s =~= pre.push(s.last()));
        assert(s.to_multiset() == pre.to_multiset().insert(s.last()));
        assert(t.to_multiset() =~= s.to_multiset().insert(e));
    }
}

/// The sort's law: the result is sorted by timestamp and holds exactly the
/// snapshot's entries.
pub proof fn lemma_sort_by_ts(s: Seq<Data<String>>)
    ensures
        sorted_by_ts(sort_by_ts(s)),
        sort_by_ts(s).to_multiset() == s.to_multiset(),
        sort_by_ts(s).len() == s.len(),
    decreases s.len(),
{
    broadcast use vstd::seq_lib::group_to_multiset_ensures;
    broadcast use vstd::multiset::group_multiset_axioms;

    if s.len() > 0 {
        lemma_sort_by_ts(s.drop_last());
        lemma_stable_insert(sort_by_ts(s.drop_last()), s.last());
        assert(s =~= s.drop_last().push(s.last()));
        assert(s.to_multiset() == s.drop_last().to_multiset().insert(s.last()));
    }
}

/// The entries carrying one fixed timestamp, as a predicate for `filter`.
pub open spec fn has_ts(t0: Timestamp) -> spec_fn(Data<String>) -> bool {
    |d: Data<String>| d.timestamp == t0
}

proof fn lemma_stable_insert_filter(q: Seq<Data<String>>, e: Data<String>, t0: Timestamp)
    ensures
        stable_insert(q, e).filter(has_ts(t0)) == if has_ts(t0)(e) {
            q.filter(has_ts(t0)).push(e)
        } else {
            q.filter(has_ts(t0))
        },
    decreases q.len(),
{
    reveal(Seq::filter);
    let p = has_ts(t0);
    let t = stable_insert(q, e);
    if q.len() == 0 {
        assert(t =~= seq![e]);
        assert(t.drop_last() =~= Seq::<Data<String>>::empty());
        assert(q.filter(p) =~= Seq::<Data<String>>::empty());
    } else if ts_le(q.last().timestamp, e.timestamp) {
        assert(t == q.push(e));
        assert(t.drop_last() =~= q);
        assert(t.last() == e);
    } else {
        let inner = stable_insert(q.drop_last(), e);
        lemma_stable_insert_filter(q.drop_last(), e, t0);
        assert(t == inner.push(q.last()));
        assert(t.drop_last() =~= inner);
        assert(t.last() == q.last());
        // e and q.last() cannot both carry t0: equal timestamps would have
        // ordered them the other way
        if p(e) && p(q.last()) {
            assert(ts_le(q.last().timestamp, e.timestamp));
        }
        if p(q.last()) {
            assert(t.filter(p) == inner.filter(p).push(q.last()));
            assert(q.filter(p) == q.drop_last().filter(p).push(q.last()));
            assert(t.filter(p) == q.filter(p));
        } else {
            assert(t.filter(p) == inner.filter(p));
            assert(q.filter(p) == q.drop_last().filter(p));
        }
    }
}

/// Stability: for every fixed timestamp, sorting keeps the relative order of
/// the entries carrying it — their subsequence is exactly as in the snapshot.
pub proof fn lemma_sort_stable(s: Seq<Data<String>>, t0: Timestamp)
    ensures
        sort_by_ts(s).filter(has_ts(t0)) == s.filter(has_ts(t0)),
    decreases s.len(),
{
    reveal(Seq::filter);
    if s.len() > 0 {
        lemma_sort_stable(s.drop_last(), t0);
        lemma_stable_insert_filter(sort_by_ts(s.drop_last()), s.last(), t0);
    }
}

/// Sorts a snapshot by timestamp with a stable insertion sort.
pub fn sort_entries(v: Vec<Data<String>>) -> (r: Vec<Data<String>>)
    ensures
        r@ == sort_by_ts(v@),
{
    let mut input = v;
    let mut out: Vec<Data<String>> = Vec::new();
    let ghost orig = input@;
    let mut i: usize = 0;
    while i < input.len()
        invariant
            i <= input@.len(),
            input@ == orig,
            out@ == sort_by_ts(orig.subrange(0, i as int)),
        decreases input@.len() - i,
    {
        let e = input[i].clone();
        proof {
            assert(cloned::<Data<String>>(orig[i as int], e));
            assert(e == orig[i as int]);
        }
        let ghost base = out@;
        proof {
            assert(base.subrange(0, base.len() as int) =~= base);
            assert(stable_insert(base, e) + base.subrange(base.len() as int, base.len() as int)
                =~= stable_insert(base, e));
        }
        let mut j: usize = out.len();
        while j > 0 && !out[j - 1].timestamp.le(&e.timestamp)
            invariant
                0 <= j <= base.len(),
                out@ == base,
                stable_insert(base, e) =~= stable_insert(base.subrange(0, j as int), e)
                    + base.subrange(j as int, base.len() as int),
            decreases j,
        {
            j = j - 1;
            proof {
                let pre = base.subrange(0, j + 1);
                assert(pre.last() == base[j as int]);
                assert(pre.drop_last() =~= base.subrange(0, j as int));
                assert(stable_insert(pre, e) =~= stable_insert(base.subrange(0, j as int), e).push(
                    base[j as int],
                ));
                assert(stable_insert(base.subrange(0, j as int), e).push(base[j as int])
                    + base.subrange(j + 1, base.len() as int) =~= stable_insert(
                    base.subrange(0, j as int),
                    e,
                ) + base.subrange(j as int, base.len() as int));
            }
        }
        proof {
            let pre = base.subrange(0, j as int);
            if j > 0 {
                assert(pre.last() == base[j - 1]);
                assert(ts_le(pre.last().timestamp, e.timestamp));
                assert(stable_insert(pre, e) =~= pre.push(e));
            } else {
                assert(pre =~= Seq::<Data<String>>::empty());
                assert(stable_insert(pre, e) =~= pre.push(e));
            }
        }
        out.insert(j, e);
        i = i + 1;
        proof {
            assert(out@ =~= base.subrange(0, j as int).push(e) + base.subrange(
                j as int,
                base.len() as int,
            ));
            assert(out@ == stable_insert(base, e));
            let now = orig.subrange(0, i as int);
            assert(now.drop_last() =~= orig.subrange(0, i - 1));
            assert(now.last() == orig[i - 1]);
            assert(out@ == sort_by_ts(now));
        }
    }
    proof {
        assert(orig.subrange(0, orig.len() as int) =~= orig);
    }
    out
}

} // verus!
