//! Greedy maximal-coverage selection of non-overlapping cache entries.
//!
//! Given the pooled cache entries from all sources, the reconciler keeps the
//! entries relevant to the query's time window, sorts them by start time,
//! repeatedly selects the entry with the largest window overlap (the earliest
//! start on ties), and drops every entry overlapping the selected one before
//! recursing on what remains. The selection is a greedy approximation, not an
//! optimal interval cover: it can leave coverage gaps that a discarded,
//! overlapping entry would have filled, and that behavior is deliberate.

use vstd::prelude::*;
use vstd::seq_lib::lemma_multiset_commutative;
use vstd::multiset::Multiset;
use crate::model::{CacheQueryRequest, CachedQueryResponse, EntryView, ReqView};

verus! {

/// The views of a sequence of cache entries.
pub open spec fn entry_views(s: Seq<CachedQueryResponse>) -> Seq<EntryView> {
    s.map_values(|e: CachedQueryResponse| e@)
}

/// Whether an entry's claimed range touches the query window.
pub open spec fn in_window(e: EntryView, req: ReqView) -> bool {
    e.start <= req.q_end_time && e.end >= req.q_start_time
}

/// The predicate of `in_window`, shared by specification and proofs.
pub open spec fn window_pred(req: ReqView) -> spec_fn(EntryView) -> bool {
    |e: EntryView| in_window(e, req)
}

/// How much of the query window `[q_start_time, q_end_time]` the entry's
/// claimed range covers.
pub open spec fn overlap_len(e: EntryView, req: ReqView) -> int {
    (if e.end < req.q_end_time {
        e.end
    } else {
        req.q_end_time
    }) - (if e.start > req.q_start_time {
        e.start
    } else {
        req.q_start_time
    })
}

/// Whether the claimed ranges of two entries do not overlap.
pub open spec fn ranges_disjoint(a: EntryView, b: EntryView) -> bool {
    a.end <= b.start || b.end <= a.start
}

/// The predicate keeping the entries disjoint from a selected one.
pub open spec fn disjoint_pred(chosen: EntryView) -> spec_fn(EntryView) -> bool {
    |e: EntryView| ranges_disjoint(e, chosen)
}

/// An entry inserted into a start-sorted sequence, after any entries with the
/// same start time.
pub open spec fn insert_by_start(e: EntryView, s: Seq<EntryView>) -> Seq<EntryView>
    decreases s.len(),
{
    if s.len() == 0 {
        seq![e]
    } else if e.start < s[0].start {
        seq![e] + s
    } else {
        seq![s[0]] + insert_by_start(e, s.drop_first())
    }
}

/// The entries ordered by start time, ascending; the sort is stable.
pub open spec fn sort_by_start(s: Seq<EntryView>) -> Seq<EntryView>
    decreases s.len(),
{
    if s.len() == 0 {
        Seq::empty()
    } else {
        insert_by_start(s.last(), sort_by_start(s.drop_last()))
    }
}

/// Whether a sequence of entries is ordered by start time, ascending.
pub open spec fn sorted_by_start(s: Seq<EntryView>) -> bool {
    forall|i: int, j: int| 0 <= i < j < s.len() ==> s[i].start <= s[j].start
}

/// The index of the entry with the largest window overlap among the first
/// `n`, the earliest such index on ties.
pub open spec fn argmax_overlap_upto(s: Seq<EntryView>, req: ReqView, n: int) -> int
    decreases n,
{
    if n <= 1 {
        0
    } else {
        let b = argmax_overlap_upto(s, req, n - 1);
        if overlap_len(s[n - 1], req) > overlap_len(s[b], req) {
            n - 1
        } else {
            b
        }
    }
}

pub proof fn lemma_insert_by_start(e: EntryView, s: Seq<EntryView>)
    ensures
        insert_by_start(e, s).len() == s.len() + 1,
        insert_by_start(e, s).to_multiset() =~= s.to_multiset().insert(e),
        sorted_by_start(s) ==> sorted_by_start(insert_by_start(e, s)),
    decreases s.len(),
{
    broadcast use vstd::seq_lib::group_to_multiset_ensures;

    let r = insert_by_start(e, s);
    if s.len() == 0 {
        assert(r =~= Seq::empty().push(e));
        assert(Seq::empty().push(e).to_multiset() =~= Seq::<EntryView>::empty().to_multiset().insert(e));
    } else if e.start < s[0].start {
        lemma_multiset_commutative(seq![e], s);
        assert(seq![e].to_multiset() =~= Multiset::empty().insert(e)) by {
            assert(seq![e] =~= Seq::empty().push(e));
        }
        assert(r.to_multiset() =~= s.to_multiset().insert(e));
        assert(sorted_by_start(s) ==> sorted_by_start(r)) by {
            if sorted_by_start(s) {
                assert forall|i: int, j: int| 0 <= i < j < r.len() implies r[i].start
                    <= r[j].start by {
                    if i > 0 {
                        assert(r[i] == s[i - 1] && r[j] == s[j - 1]);
                    }
                }
            }
        }
    } else {
        let tail = s.drop_first();
        lemma_insert_by_start(e, tail);
        let rt = insert_by_start(e, tail);
        lemma_multiset_commutative(seq![s[0]], rt);
        lemma_multiset_commutative(seq![s[0]], tail);
        assert(seq![s[0]] + tail =~= s);
        assert(seq![s[0]].to_multiset() =~= Multiset::empty().insert(s[0])) by {
            assert(seq![s[0]] =~= Seq::empty().push(s[0]));
        }
        assert(r.to_multiset() =~= s.to_multiset().insert(e)) by {
            assert(r.to_multiset() =~= seq![s[0]].to_multiset().add(rt.to_multiset()));
            assert(rt.to_multiset() =~= tail.to_multiset().insert(e));
            assert(s.to_multiset() =~= seq![s[0]].to_multiset().add(tail.to_multiset()));
        }
        if sorted_by_start(s) {
            assert(sorted_by_start(tail));
            // every element of rt is e or an element of tail, so s[0] stays first
            assert forall|j: int| 0 <= j < rt.len() implies s[0].start <= rt[j].start by {
                assert(rt.to_multiset().contains(rt[j]));
                if rt[j] != e {
                    assert(tail.to_multiset().contains(rt[j]));
                    let k = choose|k: int| 0 <= k < tail.len() && tail[k] == rt[j];
                    assert(s[k + 1] == tail[k]);
                }
            }
            assert forall|i: int, j: int| 0 <= i < j < r.len() implies r[i].start
                <= r[j].start by {
                if i > 0 {
                    assert(r[i] == rt[i - 1] && r[j] == rt[j - 1]);
                } else {
                    assert(r[j] == rt[j - 1]);
                }
            }
        }
    }
}

pub proof fn lemma_sort_by_start(s: Seq<EntryView>)
    ensures
        sort_by_start(s).len() == s.len(),
        sort_by_start(s).to_multiset() =~= s.to_multiset(),
        sorted_by_start(sort_by_start(s)),
    decreases s.len(),
{
    broadcast use vstd::seq_lib::group_to_multiset_ensures;

    if s.len() == 0 {
    } else {
        let prefix = s.drop_last();
        lemma_sort_by_start(prefix);
        lemma_insert_by_start(s.last(), sort_by_start(prefix));
        assert(s =~= prefix.push(s.last()));
        assert(prefix.push(s.last()).to_multiset() =~= prefix.to_multiset().insert(s.last()));
    }
}

/// The selected index is in range, carries the maximal overlap, and is the
/// first index with that overlap.
pub proof fn lemma_argmax_overlap_upto(s: Seq<EntryView>, req: ReqView, n: int)
    requires
        1 <= n <= s.len(),
    ensures
        0 <= argmax_overlap_upto(s, req, n) < n,
        forall|k: int| 0 <= k < n ==> #[trigger] overlap_len(s[k], req) <= overlap_len(
            s[argmax_overlap_upto(s, req, n)],
            req,
        ),
        forall|k: int| 0 <= k < argmax_overlap_upto(s, req, n) ==> #[trigger] overlap_len(s[k], req)
            < overlap_len(s[argmax_overlap_upto(s, req, n)], req),
    decreases n,
{
    if n > 1 {
        lemma_argmax_overlap_upto(s, req, n - 1);
    }
}

/// Inserting before the first entry with a strictly later start time is what
/// `insert_by_start` does.
pub proof fn lemma_insert_by_start_at(e: EntryView, s: Seq<EntryView>, pos: int)
    requires
        0 <= pos <= s.len(),
        forall|k: int| 0 <= k < pos ==> s[k].start <= e.start,
        pos == s.len() || s[pos].start > e.start,
    ensures
        insert_by_start(e, s) == s.insert(pos, e),
    decreases s.len(),
{
    if s.len() == 0 {
        assert(insert_by_start(e, s) =~= s.insert(0, e));
    } else if e.start < s[0].start {
        assert(pos == 0);
        assert(seq![e] + s =~= s.insert(0, e));
    } else {
        assert(pos >= 1) by {
            if pos == 0 {
                assert(s[0].start > e.start);
            }
        }
        let tail = s.drop_first();
        assert forall|k: int| 0 <= k < pos - 1 implies tail[k].start <= e.start by {
            assert(tail[k] == s[k + 1]);
        }
        lemma_insert_by_start_at(e, tail, pos - 1);
        assert(seq![s[0]] + tail.insert(pos - 1, e) =~= s.insert(pos, e));
    }
}

/// The reconciler's selection on the pooled entries: the entries touching the
/// query window, ordered by start time; then, repeatedly, the entry with the
/// largest window overlap (the earliest on ties), with every entry
/// overlapping it dropped before the recursion on the rest.
pub open spec fn reconcile(metas: Seq<EntryView>, req: ReqView) -> Seq<EntryView>
    decreases metas.len(),
    via reconcile_decreases
{
    if metas.len() == 0 {
        Seq::empty()
    } else {
        let sorted = sort_by_start(metas.filter(window_pred(req)));
        if sorted.len() == 0 {
            Seq::empty()
        } else {
            let sel = argmax_overlap_upto(sorted, req, sorted.len() as int);
            let chosen = sorted[sel];
            seq![chosen] + reconcile(sorted.remove(sel).filter(disjoint_pred(chosen)), req)
        }
    }
}

#[via_fn]
proof fn reconcile_decreases(metas: Seq<EntryView>, req: ReqView) {
    if metas.len() != 0 {
        let filtered = metas.filter(window_pred(req));
        metas.lemma_filter_len(window_pred(req));
        lemma_sort_by_start(filtered);
        let sorted = sort_by_start(filtered);
        if sorted.len() != 0 {
            lemma_argmax_overlap_upto(sorted, req, sorted.len() as int);
            let sel = argmax_overlap_upto(sorted, req, sorted.len() as int);
            let chosen = sorted[sel];
            assert(sorted.remove(sel).len() == sorted.len() - 1);
            sorted.remove(sel).lemma_filter_len(disjoint_pred(chosen));
        }
    }
}

/// Whether no two entries of a sequence overlap each other.
pub open spec fn pairwise_disjoint(s: Seq<EntryView>) -> bool {
    forall|i: int, j: int| 0 <= i < j < s.len() ==> ranges_disjoint(#[trigger] s[i], #[trigger] s[j])
}

/// Entries kept by a filter come from the sequence.
proof fn lemma_filter_subset(s: Seq<EntryView>, pred: spec_fn(EntryView) -> bool)
    ensures
        forall|i: int|
            0 <= i < s.filter(pred).len() ==> s.contains(#[trigger] s.filter(pred)[i]),
    decreases s.len(),
{
    reveal(Seq::filter);
    if s.len() != 0 {
        lemma_filter_subset(s.drop_last(), pred);
        let f = s.filter(pred);
        let fd = s.drop_last().filter(pred);
        assert forall|i: int| 0 <= i < f.len() implies s.contains(f[i]) by {
            if pred(s.last()) && i == f.len() - 1 {
                assert(f[i] == s.last());
                assert(s[s.len() - 1] == s.last());
            } else {
                assert(f[i] == fd[i]);
                assert(s.drop_last().contains(fd[i]));
                let k = choose|k: int|
                    0 <= k < s.drop_last().len() && s.drop_last()[k] == fd[i];
                assert(s[k] == fd[i]);
            }
        }
    }
}

/// A filter whose predicate every entry passes keeps the sequence as it is.
proof fn lemma_filter_all(s: Seq<EntryView>, pred: spec_fn(EntryView) -> bool)
    requires
        forall|i: int| 0 <= i < s.len() ==> pred(#[trigger] s[i]),
    ensures
        s.filter(pred) == s,
    decreases s.len(),
{
    reveal(Seq::filter);
    if s.len() != 0 {
        lemma_filter_all(s.drop_last(), pred);
        assert(pred(s[s.len() - 1]));
        assert(s.filter(pred) =~= s);
    }
}

/// `insert_by_start` places the entry at one position and moves nothing else.
proof fn lemma_insert_is_seq_insert(e: EntryView, s: Seq<EntryView>) -> (pos: int)
    ensures
        0 <= pos <= s.len(),
        insert_by_start(e, s) == s.insert(pos, e),
    decreases s.len(),
{
    if s.len() == 0 {
        assert(insert_by_start(e, s) =~= s.insert(0, e));
        0
    } else if e.start < s[0].start {
        assert(seq![e] + s =~= s.insert(0, e));
        0
    } else {
        let p = lemma_insert_is_seq_insert(e, s.drop_first());
        assert(seq![s[0]] + s.drop_first().insert(p, e) =~= s.insert(p + 1, e));
        p + 1
    }
}

proof fn lemma_insert_by_start_pairwise(e: EntryView, s: Seq<EntryView>)
    requires
        pairwise_disjoint(s),
        forall|k: int| 0 <= k < s.len() ==> ranges_disjoint(e, #[trigger] s[k]),
    ensures
        pairwise_disjoint(insert_by_start(e, s)),
{
    let pos = lemma_insert_is_seq_insert(e, s);
    let r = s.insert(pos, e);
    assert forall|i: int, j: int| 0 <= i < j < r.len() implies ranges_disjoint(
        r[i],
        r[j],
    ) by {
        assert(forall|k: int| 0 <= k < pos ==> r[k] == s[k]);
        assert(r[pos] == e);
        assert(forall|k: int| pos < k < r.len() ==> r[k] == s[k - 1]);
    }
}

proof fn lemma_sort_by_start_pairwise(s: Seq<EntryView>)
    requires
        pairwise_disjoint(s),
    ensures
        pairwise_disjoint(sort_by_start(s)),
    decreases s.len(),
{
    broadcast use vstd::seq_lib::group_to_multiset_ensures;

    if s.len() != 0 {
        let prefix = s.drop_last();
        assert(pairwise_disjoint(prefix)) by {
            assert(forall|i: int, j: int|
                0 <= i < j < prefix.len() ==> prefix[i] == s[i] && prefix[j] == s[j]);
        }
        lemma_sort_by_start_pairwise(prefix);
        lemma_sort_by_start(prefix);
        let sp = sort_by_start(prefix);
        assert forall|k: int| 0 <= k < sp.len() implies ranges_disjoint(
            s.last(),
            sp[k],
        ) by {
            assert(sp.to_multiset().contains(sp[k]));
            assert(prefix.contains(sp[k]));
            let m = choose|m: int| 0 <= m < prefix.len() && prefix[m] == sp[k];
            assert(prefix[m] == s[m]);
            assert(ranges_disjoint(s[m], s[s.len() - 1]));
        }
        lemma_insert_by_start_pairwise(s.last(), sp);
    }
}

/// Entries of a start-sorted sequence come from the unsorted one and keep its
/// window relevance.
proof fn lemma_sorted_value_origin(metas: Seq<EntryView>, req: ReqView, x: EntryView)
    requires
        sort_by_start(metas.filter(window_pred(req))).contains(x),
    ensures
        metas.contains(x),
        in_window(x, req),
{
    broadcast use vstd::seq_lib::group_to_multiset_ensures;

    let filtered = metas.filter(window_pred(req));
    lemma_sort_by_start(filtered);
    let sorted = sort_by_start(filtered);
    assert(sorted.to_multiset().count(x) > 0);
    assert(filtered.to_multiset().count(x) > 0);
    assert(filtered.contains(x));
    let k = choose|k: int| 0 <= k < filtered.len() && filtered[k] == x;
    filtered_props(metas, window_pred(req), k);
    lemma_filter_subset(metas, window_pred(req));
}

/// The predicate holds of every filtered entry.
proof fn filtered_props(s: Seq<EntryView>, pred: spec_fn(EntryView) -> bool, k: int)
    requires
        0 <= k < s.filter(pred).len(),
    ensures
        pred(s.filter(pred)[k]),
{
    broadcast use vstd::prelude::Seq::lemma_filter_pred;

}

/// Window relevance: every entry the reconciler returns comes from the
/// pooled input and touches the query window.
pub proof fn lemma_reconcile_window_relevance(metas: Seq<EntryView>, req: ReqView)
    ensures
        forall|i: int|
            0 <= i < reconcile(metas, req).len() ==> metas.contains(
                #[trigger] reconcile(metas, req)[i],
            ),
        forall|i: int|
            0 <= i < reconcile(metas, req).len() ==> in_window(
                #[trigger] reconcile(metas, req)[i],
                req,
            ),
    decreases metas.len(),
{
    broadcast use vstd::seq_lib::group_to_multiset_ensures;

    if metas.len() != 0 {
        let pred = window_pred(req);
        let filtered = metas.filter(pred);
        let sorted = sort_by_start(filtered);
        metas.lemma_filter_len(pred);
        lemma_sort_by_start(filtered);
        if sorted.len() != 0 {
            lemma_argmax_overlap_upto(sorted, req, sorted.len() as int);
            let sel = argmax_overlap_upto(sorted, req, sorted.len() as int);
            let chosen = sorted[sel];
            let removed = sorted.remove(sel);
            let rem = removed.filter(disjoint_pred(chosen));
            removed.lemma_filter_len(disjoint_pred(chosen));
            lemma_filter_subset(removed, disjoint_pred(chosen));
            lemma_reconcile_window_relevance(rem, req);
            let out = reconcile(metas, req);
            let rem_out = reconcile(rem, req);
            assert(out == seq![chosen] + rem_out);
            assert forall|i: int| 0 <= i < out.len() implies metas.contains(out[i])
                && in_window(out[i], req) by {
                if i == 0 {
                    assert(out[0] == chosen);
                    assert(sorted.contains(chosen));
                    lemma_sorted_value_origin(metas, req, chosen);
                } else {
                    assert(out[i] == rem_out[i - 1]);
                    assert(rem.contains(out[i]));
                    let k = choose|k: int| 0 <= k < rem.len() && rem[k] == out[i];
                    assert(removed.contains(rem[k]));
                    let k2 = choose|k2: int|
                        0 <= k2 < removed.len() && removed[k2] == out[i];
                    assert(removed[k2] == if k2 < sel {
                        sorted[k2]
                    } else {
                        sorted[k2 + 1]
                    });
                    assert(sorted.contains(out[i]));
                    lemma_sorted_value_origin(metas, req, out[i]);
                }
            }
        }
    }
}

/// No-overlap invariant: no two entries the reconciler returns overlap each
/// other.
pub proof fn lemma_reconcile_no_overlap(metas: Seq<EntryView>, req: ReqView)
    ensures
        forall|i: int, j: int|
            0 <= i < j < reconcile(metas, req).len() ==> ranges_disjoint(
                #[trigger] reconcile(metas, req)[i],
                #[trigger] reconcile(metas, req)[j],
            ),
    decreases metas.len(),
{
    broadcast use vstd::seq_lib::group_to_multiset_ensures;

    if metas.len() != 0 {
        let pred = window_pred(req);
        let filtered = metas.filter(pred);
        let sorted = sort_by_start(filtered);
        metas.lemma_filter_len(pred);
        lemma_sort_by_start(filtered);
        if sorted.len() != 0 {
            lemma_argmax_overlap_upto(sorted, req, sorted.len() as int);
            let sel = argmax_overlap_upto(sorted, req, sorted.len() as int);
            let chosen = sorted[sel];
            let removed = sorted.remove(sel);
            let rem = removed.filter(disjoint_pred(chosen));
            removed.lemma_filter_len(disjoint_pred(chosen));
            lemma_reconcile_no_overlap(rem, req);
            lemma_reconcile_window_relevance(rem, req);
            let out = reconcile(metas, req);
            let rem_out = reconcile(rem, req);
            assert(out == seq![chosen] + rem_out);
            assert forall|i: int, j: int| 0 <= i < j < out.len() implies ranges_disjoint(
                out[i],
                out[j],
            ) by {
                if i == 0 {
                    assert(out[j] == rem_out[j - 1]);
                    assert(rem.contains(out[j]));
                    let k = choose|k: int| 0 <= k < rem.len() && rem[k] == out[j];
                    filtered_props(removed, disjoint_pred(chosen), k);
                    assert(ranges_disjoint(out[j], chosen));
                } else {
                    assert(out[i] == rem_out[i - 1] && out[j] == rem_out[j - 1]);
                }
            }
        }
    }
}

/// Idempotence on disjoint input: when the pooled entries are already
/// pairwise non-overlapping and all touch the window, reconciliation keeps
/// exactly the input entries.
#[verifier::rlimit(100)]
pub proof fn lemma_reconcile_disjoint_input(metas: Seq<EntryView>, req: ReqView)
    requires
        pairwise_disjoint(metas),
        forall|i: int| 0 <= i < metas.len() ==> in_window(#[trigger] metas[i], req),
    ensures
        reconcile(metas, req).to_multiset() == metas.to_multiset(),
    decreases metas.len(),
{
    broadcast use vstd::seq_lib::group_to_multiset_ensures;

    if metas.len() == 0 {
        assert(reconcile(metas, req).to_multiset() =~= metas.to_multiset());
    } else {
        let pred = window_pred(req);
        lemma_filter_all(metas, pred);
        let sorted = sort_by_start(metas);
        lemma_sort_by_start(metas);
        lemma_sort_by_start_pairwise(metas);
        lemma_argmax_overlap_upto(sorted, req, sorted.len() as int);
        let sel = argmax_overlap_upto(sorted, req, sorted.len() as int);
        let chosen = sorted[sel];
        let removed = sorted.remove(sel);
        assert forall|k: int| 0 <= k < removed.len() implies disjoint_pred(chosen)(
            #[trigger] removed[k],
        ) by {
            if k < sel {
                assert(removed[k] == sorted[k]);
                assert(ranges_disjoint(sorted[k], sorted[sel]));
            } else {
                assert(removed[k] == sorted[k + 1]);
                assert(ranges_disjoint(sorted[sel], sorted[k + 1]));
            }
        }
        lemma_filter_all(removed, disjoint_pred(chosen));
        assert(pairwise_disjoint(removed)) by {
            assert forall|i: int, j: int| 0 <= i < j < removed.len() implies ranges_disjoint(
                #[trigger] removed[i],
                #[trigger] removed[j],
            ) by {
                let i2: int = if i < sel {
                    i
                } else {
                    i + 1
                };
                let j2: int = if j < sel {
                    j
                } else {
                    j + 1
                };
                assert(removed[i] == sorted[i2] && removed[j] == sorted[j2]);
                assert(ranges_disjoint(sorted[i2], sorted[j2]));
            }
        }
        assert forall|k: int| 0 <= k < removed.len() implies in_window(
            #[trigger] removed[k],
            req,
        ) by {
            assert(removed.to_multiset().contains(removed[k]));
            assert(sorted.to_multiset().count(removed[k])
                >= removed.to_multiset().count(removed[k])) by {
                assert(removed.to_multiset() =~= sorted.to_multiset().remove(chosen));
            }
            assert(sorted.contains(removed[k]));
            assert(metas.contains(removed[k]));
            let m = choose|m: int| 0 <= m < metas.len() && metas[m] == removed[k];
            assert(in_window(metas[m], req));
        }
        lemma_reconcile_disjoint_input(removed, req);
        let out = reconcile(metas, req);
        let rem_out = reconcile(removed, req);
        assert(out == seq![chosen] + rem_out);
        lemma_multiset_commutative(seq![chosen], rem_out);
        assert(seq![chosen].to_multiset() =~= Multiset::empty().insert(chosen)) by {
            assert(seq![chosen] =~= Seq::empty().push(chosen));
        }
        assert(removed.to_multiset() =~= sorted.to_multiset().remove(chosen));
        assert(out.to_multiset() =~= metas.to_multiset());
    }
}

/// Empty input gives empty output.
pub proof fn lemma_reconcile_empty(req: ReqView)
    ensures
        reconcile(Seq::empty(), req) == Seq::<EntryView>::empty(),
{
}

/// Greedy selection and tie-break determinism: when some pooled entry touches
/// the window, an entry is selected first; it carries the largest window
/// overlap among the relevant entries, and on equal overlap the earliest
/// start time.
pub proof fn lemma_reconcile_tie_break(metas: Seq<EntryView>, req: ReqView)
    requires
        exists|i: int| 0 <= i < metas.len() && in_window(#[trigger] metas[i], req),
    ensures
        reconcile(metas, req).len() > 0,
        forall|i: int|
            0 <= i < metas.len() && in_window(#[trigger] metas[i], req) ==> overlap_len(
                metas[i],
                req,
            ) <= overlap_len(reconcile(metas, req)[0], req),
        forall|i: int|
            0 <= i < metas.len() && in_window(#[trigger] metas[i], req) && overlap_len(
                metas[i],
                req,
            ) == overlap_len(reconcile(metas, req)[0], req) ==> reconcile(metas, req)[0].start
                <= metas[i].start,
{
    broadcast use vstd::seq_lib::group_to_multiset_ensures;
    broadcast use vstd::prelude::Seq::lemma_filter_contains;

    let pred = window_pred(req);
    let filtered = metas.filter(pred);
    let sorted = sort_by_start(filtered);
    lemma_sort_by_start(filtered);
    let w = choose|i: int| 0 <= i < metas.len() && in_window(metas[i], req);
    assert(pred(metas[w]));
    assert(filtered.contains(metas[w]));
    assert(sorted.len() > 0);
    lemma_argmax_overlap_upto(sorted, req, sorted.len() as int);
    let sel = argmax_overlap_upto(sorted, req, sorted.len() as int);
    let chosen = sorted[sel];
    let out = reconcile(metas, req);
    assert(out[0] == chosen);
    assert forall|i: int| 0 <= i < metas.len() && in_window(metas[i], req) implies overlap_len(
        metas[i],
        req,
    ) <= overlap_len(chosen, req) by {
        assert(pred(metas[i]));
        assert(filtered.contains(metas[i]));
        assert(filtered.to_multiset().count(metas[i]) > 0);
        assert(sorted.to_multiset().count(metas[i]) > 0);
        assert(sorted.contains(metas[i]));
        let k = choose|k: int| 0 <= k < sorted.len() && sorted[k] == metas[i];
        assert(overlap_len(sorted[k], req) <= overlap_len(chosen, req));
    }
    assert forall|i: int|
        0 <= i < metas.len() && in_window(metas[i], req) && overlap_len(metas[i], req)
            == overlap_len(chosen, req) implies chosen.start <= metas[i].start by {
        assert(pred(metas[i]));
        assert(filtered.contains(metas[i]));
        assert(filtered.to_multiset().count(metas[i]) > 0);
        assert(sorted.to_multiset().count(metas[i]) > 0);
        assert(sorted.contains(metas[i]));
        let k = choose|k: int| 0 <= k < sorted.len() && sorted[k] == metas[i];
        if k < sel {
            assert(overlap_len(sorted[k], req) < overlap_len(chosen, req));
        } else {
            assert(sorted_by_start(sorted));
            if sel < k {
                assert(sorted[sel].start <= sorted[k].start);
            }
        }
    }
}

/// The entries whose claimed range touches the query window, in order.
fn filter_in_window(metas: &Vec<CachedQueryResponse>, req: &CacheQueryRequest) -> (out: Vec<
    CachedQueryResponse,
>)
    ensures
        entry_views(out@) == entry_views(metas@).filter(window_pred(req@)),
{
    let mut out: Vec<CachedQueryResponse> = Vec::new();
    proof {
        reveal(Seq::filter);
    }
    let mut i: usize = 0;
    while i < metas.len()
        invariant
            i <= metas@.len(),
            entry_views(out@) == entry_views(metas@.subrange(0, i as int)).filter(
                window_pred(req@),
            ),
        decreases metas@.len() - i,
    {
        proof {
            let prev = entry_views(metas@.subrange(0, i as int));
            let cur = entry_views(metas@.subrange(0, i as int + 1));
            assert(cur.drop_last() =~= prev);
            assert(cur.last() == metas@[i as int]@);
        }
        let m = &metas[i];
        let ghost prev = entry_views(metas@.subrange(0, i as int));
        let ghost cur = entry_views(metas@.subrange(0, i as int + 1));
        if m.response_start_time <= req.q_end_time && m.response_end_time >= req.q_start_time {
            let ghost old_out = out@;
            out.push(m.clone());
            proof {
                reveal(Seq::filter);
                assert(entry_views(out@) =~= entry_views(old_out).push(metas@[i as int]@));
                assert(window_pred(req@)(cur.last()));
                assert(cur.filter(window_pred(req@)) == prev.filter(window_pred(req@)).push(
                    cur.last(),
                ));
            }
        } else {
            proof {
                reveal(Seq::filter);
                assert(!window_pred(req@)(cur.last()));
                assert(cur.filter(window_pred(req@)) == prev.filter(window_pred(req@)));
            }
        }
        i += 1;
    }
    proof {
        assert(metas@.subrange(0, metas@.len() as int) =~= metas@);
    }
    out
}

/// The entries ordered by start time, ascending; equal start times keep
/// their relative order.
fn sort_entries_by_start(entries: Vec<CachedQueryResponse>) -> (out: Vec<CachedQueryResponse>)
    ensures
        entry_views(out@) == sort_by_start(entry_views(entries@)),
{
    let ghost orig = entries@;
    let mut rest = entries;
    let mut out: Vec<CachedQueryResponse> = Vec::new();
    while rest.len() > 0
        invariant
            rest@.len() <= orig.len(),
            rest@ == orig.subrange(orig.len() - rest@.len(), orig.len() as int),
            entry_views(out@) == sort_by_start(
                entry_views(orig.subrange(0, orig.len() - rest@.len())),
            ),
        decreases rest@.len(),
    {
        let ghost done = orig.len() - rest@.len();
        let x = rest.remove(0);
        proof {
            assert(x == orig[done]);
            assert(rest@ =~= orig.subrange(orig.len() - rest@.len(), orig.len() as int));
        }
        let mut pos: usize = 0;
        while pos < out.len() && out[pos].response_start_time <= x.response_start_time
            invariant
                pos <= out@.len(),
                forall|k: int|
                    0 <= k < pos ==> (#[trigger] out@[k]).response_start_time
                        <= x.response_start_time,
            decreases out@.len() - pos,
        {
            pos += 1;
        }
        let ghost old_out = out@;
        out.insert(pos, x);
        proof {
            let sv = entry_views(old_out);
            assert forall|k: int| 0 <= k < pos implies sv[k].start <= x@.start by {
                assert(old_out[k].response_start_time <= x.response_start_time);
            }
            lemma_insert_by_start_at(x@, sv, pos as int);
            assert(entry_views(out@) =~= sv.insert(pos as int, x@));
            let prefix = entry_views(orig.subrange(0, done));
            let cur = entry_views(orig.subrange(0, done + 1));
            assert(cur.drop_last() =~= prefix);
            assert(cur.last() == orig[done]@);
            assert(entry_views(out@) == sort_by_start(cur));
        }
    }
    proof {
        assert(orig.subrange(0, orig.len() as int) =~= orig);
    }
    out
}

/// The amount of the query window the entry covers, as the selection compares
/// it; wide enough that no subtraction can wrap.
fn overlap_key(e: &CachedQueryResponse, req: &CacheQueryRequest) -> (r: i128)
    ensures
        r as int == overlap_len(e@, req@),
{
    let end_bound = if e.response_end_time < req.q_end_time {
        e.response_end_time
    } else {
        req.q_end_time
    };
    let start_bound = if e.response_start_time > req.q_start_time {
        e.response_start_time
    } else {
        req.q_start_time
    };
    (end_bound as i128) - (start_bound as i128)
}

/// The index of the entry with the largest window overlap, the earliest such
/// index on ties.
fn find_largest_overlap(entries: &Vec<CachedQueryResponse>, req: &CacheQueryRequest) -> (best:
    usize)
    requires
        entries@.len() > 0,
    ensures
        best < entries@.len(),
        best as int == argmax_overlap_upto(entry_views(entries@), req@, entries@.len() as int),
{
    let mut best: usize = 0;
    let mut k: usize = 1;
    while k < entries.len()
        invariant
            1 <= k <= entries@.len(),
            best < k,
            best as int == argmax_overlap_upto(entry_views(entries@), req@, k as int),
        decreases entries@.len() - k,
    {
        if overlap_key(&entries[k], req) > overlap_key(&entries[best], req) {
            best = k;
        }
        k += 1;
    }
    best
}

/// The entries whose claimed range does not overlap the selected one, in
/// order.
fn filter_disjoint(entries: Vec<CachedQueryResponse>, chosen: &CachedQueryResponse) -> (out: Vec<
    CachedQueryResponse,
>)
    ensures
        entry_views(out@) == entry_views(entries@).filter(disjoint_pred(chosen@)),
{
    let ghost orig = entries@;
    let mut rest = entries;
    let mut out: Vec<CachedQueryResponse> = Vec::new();
    proof {
        reveal(Seq::filter);
    }
    while rest.len() > 0
        invariant
            rest@.len() <= orig.len(),
            rest@ == orig.subrange(orig.len() - rest@.len(), orig.len() as int),
            entry_views(out@) == entry_views(orig.subrange(0, orig.len() - rest@.len())).filter(
                disjoint_pred(chosen@),
            ),
        decreases rest@.len(),
    {
        let ghost done = orig.len() - rest@.len();
        let m = rest.remove(0);
        proof {
            assert(m == orig[done]);
            assert(rest@ =~= orig.subrange(orig.len() - rest@.len(), orig.len() as int));
            let prev = entry_views(orig.subrange(0, done));
            let cur = entry_views(orig.subrange(0, done + 1));
            assert(cur.drop_last() =~= prev);
            assert(cur.last() == orig[done]@);
        }
        let ghost old_out = out@;
        let ghost prev = entry_views(orig.subrange(0, done));
        let ghost cur = entry_views(orig.subrange(0, done + 1));
        if m.response_end_time <= chosen.response_start_time || m.response_start_time
            >= chosen.response_end_time {
            out.push(m);
            proof {
                reveal(Seq::filter);
                assert(entry_views(out@) =~= entry_views(old_out).push(orig[done]@));
                assert(disjoint_pred(chosen@)(cur.last()));
                assert(cur.filter(disjoint_pred(chosen@)) == prev.filter(
                    disjoint_pred(chosen@),
                ).push(cur.last()));
            }
        } else {
            proof {
                reveal(Seq::filter);
                assert(!disjoint_pred(chosen@)(cur.last()));
                assert(cur.filter(disjoint_pred(chosen@)) == prev.filter(disjoint_pred(chosen@)));
            }
        }
    }
    proof {
        assert(orig.subrange(0, orig.len() as int) =~= orig);
    }
    out
}

/// Appends to `results` the reconciler's selection over `cache_metas`: a
/// maximal-coverage, pairwise non-overlapping subset of the entries relevant
/// to the query window, greedily chosen as `reconcile` states.
pub fn recursive_process_muliple_metas(
    cache_metas: &Vec<CachedQueryResponse>,
    cache_req: CacheQueryRequest,
    results: &mut Vec<CachedQueryResponse>,
)
    ensures
        entry_views(final(results)@) == entry_views(old(results)@) + reconcile(
            entry_views(cache_metas@),
            cache_req@,
        ),
    decreases cache_metas@.len(),
{
    let ghost metas_v = entry_views(cache_metas@);
    let ghost req_v = cache_req@;
    if cache_metas.len() == 0 {
        proof {
            assert(entry_views(results@) =~= entry_views(results@) + reconcile(metas_v, req_v));
        }
        return;
    }
    let relevant = filter_in_window(cache_metas, &cache_req);
    let sorted = sort_entries_by_start(relevant);
    let ghost sorted_v = entry_views(sorted@);
    proof {
        assert(sorted_v == sort_by_start(metas_v.filter(window_pred(req_v))));
    }
    if sorted.len() == 0 {
        proof {
            assert(reconcile(metas_v, req_v) =~= Seq::<EntryView>::empty());
            assert(entry_views(results@) =~= entry_views(results@) + reconcile(metas_v, req_v));
        }
        return;
    }
    let best = find_largest_overlap(&sorted, &cache_req);
    let mut sorted = sorted;
    let chosen = sorted.remove(best);
    proof {
        assert(entry_views(sorted@) =~= sorted_v.remove(best as int));
    }
    let ghost results_before = results@;
    results.push(chosen.clone());
    let remaining = filter_disjoint(sorted, &chosen);
    let ghost remaining_v = entry_views(remaining@);
    proof {
        // the working set shrinks: what remains lost the selected entry
        metas_v.lemma_filter_len(window_pred(req_v));
        lemma_sort_by_start(metas_v.filter(window_pred(req_v)));
        sorted_v.remove(best as int).lemma_filter_len(disjoint_pred(chosen@));
        assert(remaining_v.len() < metas_v.len());
        assert(remaining@.len() < cache_metas@.len());
    }
    recursive_process_muliple_metas(&remaining, cache_req, results);
    proof {
        assert(reconcile(metas_v, req_v) == seq![chosen@] + reconcile(remaining_v, req_v));
        assert(entry_views(results_before.push(chosen)) =~= entry_views(results_before).push(
            chosen@,
        ));
        assert(entry_views(results_before).push(chosen@) + reconcile(remaining_v, req_v)
            =~= entry_views(results_before) + reconcile(metas_v, req_v));
    }
}

} // verus!
