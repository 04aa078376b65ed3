//! Normalization of raw peer items into canonical cache entries.
//!
//! Every raw item a peer returns carries at most one decoded payload. A
//! missing or undecodable payload degrades to the empty one — never to a
//! failure of the query. Items whose payload holds no rows are discarded,
//! since they add no coverage; surviving items become `CachedQueryResponse`
//! values with the per-entry row cap lifted, which is not meaningful once
//! entries are pooled across sources.

use vstd::prelude::*;
use crate::model::{CachedQueryResponse, EntryView, ItemView, RemoteCacheItem, SearchResponse};
use crate::reconcile::entry_views;

verus! {

/// The views of a sequence of raw peer items.
pub open spec fn item_views(s: Seq<RemoteCacheItem>) -> Seq<ItemView> {
    s.map_values(|it: RemoteCacheItem| it@)
}

/// The entry a raw peer item becomes when its decoded payload has any rows,
/// and nothing otherwise.
pub open spec fn normalized_item(item: ItemView, ts_column: Seq<char>) -> Option<EntryView> {
    let hits = match item.cached_response {
        Some(h) => h,
        None => Seq::empty(),
    };
    if hits.len() > 0 {
        Some(
            EntryView {
                hits,
                deltas: Seq::empty(),
                has_cached_data: item.has_cached_data,
                cache_query_response: item.cache_query_response,
                start: item.cache_start_time,
                end: item.cache_end_time,
                ts_column,
                is_descending: item.is_descending,
                limit: -1,
            },
        )
    } else {
        None
    }
}

/// What one peer's raw items contribute to the pool, in order.
pub open spec fn normalized_items(items: Seq<ItemView>, ts_column: Seq<char>) -> Seq<EntryView>
    decreases items.len(),
{
    if items.len() == 0 {
        Seq::empty()
    } else {
        let rest = normalized_items(items.drop_last(), ts_column);
        match normalized_item(items.last(), ts_column) {
            Some(e) => rest.push(e),
            None => rest,
        }
    }
}

/// Zero-hit discard: an item whose decoded payload has no rows contributes
/// nothing, and every contributed entry keeps the rows of its payload.
pub proof fn lemma_normalize_zero_hit_discard(items: Seq<ItemView>, ts_column: Seq<char>)
    ensures
        forall|k: int|
            0 <= k < normalized_items(items, ts_column).len() ==> (#[trigger] normalized_items(
                items,
                ts_column,
            )[k]).hits.len() > 0,
    decreases items.len(),
{
    if items.len() != 0 {
        lemma_normalize_zero_hit_discard(items.drop_last(), ts_column);
        let rest = normalized_items(items.drop_last(), ts_column);
        let whole = normalized_items(items, ts_column);
        assert forall|k: int| 0 <= k < whole.len() implies (#[trigger] whole[k]).hits.len()
            > 0 by {
            match normalized_item(items.last(), ts_column) {
                Some(e) => {
                    if k < rest.len() {
                        assert(whole[k] == rest[k]);
                    } else {
                        assert(whole[k] == e);
                    }
                },
                None => {
                    assert(whole[k] == rest[k]);
                },
            }
        }
    }
}

/// Decoded peer items become canonical cache entries, as `normalized_items`
/// states: zero-hit payloads are dropped, the rest keep their fields, with an
/// unlimited row cap and no uncovered sub-ranges recorded yet.
pub fn normalize_cache_items(items: Vec<RemoteCacheItem>, ts_column: &String) -> (out: Vec<
    CachedQueryResponse,
>)
    ensures
        entry_views(out@) == normalized_items(item_views(items@), ts_column@),
{
    let ghost orig = items@;
    let mut rest = items;
    let mut out: Vec<CachedQueryResponse> = Vec::new();
    while rest.len() > 0
        invariant
            rest@.len() <= orig.len(),
            rest@ == orig.subrange(orig.len() - rest@.len(), orig.len() as int),
            entry_views(out@) == normalized_items(
                item_views(orig.subrange(0, orig.len() - rest@.len())),
                ts_column@,
            ),
        decreases rest@.len(),
    {
        let ghost done = orig.len() - rest@.len();
        let it = rest.remove(0);
        let ghost itv = it@;
        proof {
            assert(it == orig[done]);
            assert(rest@ =~= orig.subrange(orig.len() - rest@.len(), orig.len() as int));
            let prev = item_views(orig.subrange(0, done));
            let cur = item_views(orig.subrange(0, done + 1));
            assert(cur.drop_last() =~= prev);
            assert(cur.last() == orig[done]@);
        }
        let RemoteCacheItem {
            cached_response,
            has_cached_data,
            cache_query_response,
            cache_start_time,
            cache_end_time,
            is_descending,
        } = it;
        let cached_res = match cached_response {
            Some(r) => r,
            None => SearchResponse::default(),
        };
        let ghost old_out = out@;
        if cached_res.hits.len() > 0 {
            let entry = CachedQueryResponse {
                cached_response: cached_res,
                deltas: Vec::new(),
                has_cached_data,
                cache_query_response,
                response_start_time: cache_start_time,
                response_end_time: cache_end_time,
                ts_column: ts_column.clone(),
                is_descending,
                limit: -1,
            };
            proof {
                assert(entry@ == normalized_item(itv, ts_column@).unwrap());
            }
            out.push(entry);
            proof {
                assert(entry_views(out@) =~= entry_views(old_out).push(
                    normalized_item(itv, ts_column@).unwrap(),
                ));
            }
        } else {
            proof {
                assert(normalized_item(itv, ts_column@) is None);
            }
        }
    }
    proof {
        assert(orig.subrange(0, orig.len() as int) =~= orig);
    }
    out
}

} // verus!
