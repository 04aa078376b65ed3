//! Pooling of every source's entries and the aggregated answer.
//!
//! The coordinator launches one lookup per prepared remote node and one local
//! lookup. Each peer's outcome is independent: a successful peer contributes
//! its normalized entries, a failed peer contributes nothing and never fails
//! the aggregation. The local entries are appended after the remote pool, and
//! the reconciler's selection over the pool is the answer.

use vstd::prelude::*;
use crate::errors::SearchError;
use crate::model::{CacheQueryRequest, CachedQueryResponse, EntryView, RemoteCacheItem, ReqView};
use crate::normalize::{item_views, normalize_cache_items, normalized_items};
use crate::reconcile::{entry_views, reconcile, recursive_process_muliple_metas};

verus! {

/// What the remote peers contribute to the pool: each successful peer's
/// normalized entries, in peer order; a failed peer contributes nothing.
pub open spec fn pooled_remote_views(
    peers: Seq<Result<Vec<RemoteCacheItem>, SearchError>>,
    ts_column: Seq<char>,
) -> Seq<EntryView>
    decreases peers.len(),
{
    if peers.len() == 0 {
        Seq::empty()
    } else {
        pooled_remote_views(peers.drop_last(), ts_column) + match peers.last() {
            Ok(items) => normalized_items(item_views(items@), ts_column),
            Err(_) => Seq::empty(),
        }
    }
}

/// Partial failure isolation: a peer whose call failed contributes exactly
/// nothing, so the pooled entries — and with them the reconciled answer —
/// equal those computed with that peer left out of the node set entirely.
pub proof fn lemma_partial_failure_isolation(
    peers: Seq<Result<Vec<RemoteCacheItem>, SearchError>>,
    i: int,
    ts_column: Seq<char>,
    local: Seq<EntryView>,
    req: ReqView,
)
    requires
        0 <= i < peers.len(),
        peers[i] is Err,
    ensures
        pooled_remote_views(peers.remove(i), ts_column) == pooled_remote_views(peers, ts_column),
        reconcile(pooled_remote_views(peers.remove(i), ts_column) + local, req) == reconcile(
            pooled_remote_views(peers, ts_column) + local,
            req,
        ),
    decreases peers.len(),
{
    if i == peers.len() - 1 {
        assert(peers.remove(i) =~= peers.drop_last());
        assert(pooled_remote_views(peers, ts_column) =~= pooled_remote_views(
            peers.drop_last(),
            ts_column,
        ));
    } else {
        let shorter = peers.remove(i);
        assert(shorter.drop_last() =~= peers.drop_last().remove(i));
        assert(shorter.last() == peers.last());
        assert(peers.drop_last()[i] == peers[i]);
        lemma_partial_failure_isolation(peers.drop_last(), i, ts_column, local, req);
    }
}

/// The aggregated answer for one request: every successful peer's normalized
/// entries pooled in peer order, the local lookup's entries appended after
/// them, and the reconciler's selection over the pool returned. No failed
/// peer aborts the call.
pub fn collect_cached_results(
    peer_results: Vec<Result<Vec<RemoteCacheItem>, SearchError>>,
    local_results: Vec<CachedQueryResponse>,
    cache_req: CacheQueryRequest,
) -> (out: Vec<CachedQueryResponse>)
    ensures
        entry_views(out@) == reconcile(
            pooled_remote_views(peer_results@, cache_req.ts_column@) + entry_views(
                local_results@,
            ),
            cache_req@,
        ),
{
    let ghost orig = peer_results@;
    let ghost tsv = cache_req.ts_column@;
    let mut rest = peer_results;
    let mut all: Vec<CachedQueryResponse> = Vec::new();
    while rest.len() > 0
        invariant
            rest@.len() <= orig.len(),
            rest@ == orig.subrange(orig.len() - rest@.len(), orig.len() as int),
            entry_views(all@) == pooled_remote_views(
                orig.subrange(0, orig.len() - rest@.len()),
                tsv,
            ),
            tsv == cache_req.ts_column@,
        decreases rest@.len(),
    {
        let ghost done = orig.len() - rest@.len();
        let pr = rest.remove(0);
        proof {
            assert(pr == orig[done]);
            assert(rest@ =~= orig.subrange(orig.len() - rest@.len(), orig.len() as int));
            assert(orig.subrange(0, done + 1).drop_last() =~= orig.subrange(0, done));
            assert(orig.subrange(0, done + 1).last() == orig[done]);
        }
        let ghost old_all = all@;
        match pr {
            Ok(items) => {
                let ghost items_v = items@;
                let mut normalized = normalize_cache_items(items, &cache_req.ts_column);
                all.append(&mut normalized);
                proof {
                    assert(entry_views(all@) =~= entry_views(old_all) + normalized_items(
                        item_views(items_v),
                        tsv,
                    ));
                }
            },
            Err(_) => {
                proof {
                    assert(entry_views(all@) =~= entry_views(old_all) + Seq::<
                        EntryView,
                    >::empty());
                }
            },
        }
    }
    proof {
        assert(orig.subrange(0, orig.len() as int) =~= orig);
    }
    let mut local = local_results;
    let ghost all_before_local = all@;
    all.append(&mut local);
    proof {
        assert(entry_views(all@) =~= entry_views(all_before_local) + entry_views(
            local_results@,
        ));
    }
    let mut results: Vec<CachedQueryResponse> = Vec::new();
    recursive_process_muliple_metas(&all, cache_req, &mut results);
    proof {
        assert(entry_views(results@) =~= reconcile(entry_views(all@), cache_req@));
    }
    results
}

} // verus!
