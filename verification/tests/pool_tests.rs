use cache_gather::errors::{classify_remote_call_error, unreachable_node_error, ErrorCode, SearchError};
use cache_gather::model::{CacheQueryRequest, CachedQueryResponse, RemoteCacheItem, SearchResponse};
use cache_gather::pool::collect_cached_results;

fn item(start: i64, end: i64) -> RemoteCacheItem {
    RemoteCacheItem {
        cached_response: Some(SearchResponse { hits: vec![serde_json::Value::Null] }),
        has_cached_data: true,
        cache_query_response: true,
        cache_start_time: start,
        cache_end_time: end,
        is_descending: false,
    }
}

fn local_entry(start: i64, end: i64) -> CachedQueryResponse {
    CachedQueryResponse {
        cached_response: SearchResponse { hits: vec![serde_json::Value::Null] },
        deltas: vec![],
        has_cached_data: true,
        cache_query_response: true,
        response_start_time: start,
        response_end_time: end,
        ts_column: "_timestamp".to_string(),
        is_descending: false,
        limit: -1,
    }
}

fn req(start: i64, end: i64) -> CacheQueryRequest {
    CacheQueryRequest {
        q_start_time: start,
        q_end_time: end,
        is_aggregate: false,
        ts_column: "_timestamp".to_string(),
        discard_interval: 0,
        is_descending: false,
    }
}

fn ranges(results: &[CachedQueryResponse]) -> Vec<(i64, i64)> {
    results.iter().map(|e| (e.response_start_time, e.response_end_time)).collect()
}

#[test]
fn failed_peer_equals_peer_left_out() {
    let with_failure = vec![
        Ok(vec![item(0, 10)]),
        Err(SearchError::Message("connect refused".to_string())),
        Ok(vec![item(20, 30)]),
    ];
    let without_peer = vec![Ok(vec![item(0, 10)]), Ok(vec![item(20, 30)])];
    let a = collect_cached_results(with_failure, vec![], req(0, 30));
    let b = collect_cached_results(without_peer, vec![], req(0, 30));
    assert_eq!(ranges(&a), ranges(&b));
    assert_eq!(a.len(), 2);
}

#[test]
fn local_entries_are_pooled_with_remote_ones() {
    let peers = vec![Ok(vec![item(0, 10)])];
    let local = vec![local_entry(12, 30)];
    let out = collect_cached_results(peers, local, req(0, 30));
    let mut got = ranges(&out);
    got.sort();
    assert_eq!(got, vec![(0, 10), (12, 30)]);
}

#[test]
fn all_peers_failed_still_answers_from_local() {
    let peers: Vec<Result<Vec<RemoteCacheItem>, SearchError>> = vec![
        Err(SearchError::Message("x".to_string())),
        Err(SearchError::Message("y".to_string())),
    ];
    let local = vec![local_entry(0, 10)];
    let out = collect_cached_results(peers, local, req(0, 30));
    assert_eq!(ranges(&out), vec![(0, 10)]);
}

#[test]
fn no_sources_give_empty_answer() {
    let out = collect_cached_results(vec![], vec![], req(0, 30));
    assert!(out.is_empty());
}

#[test]
fn zero_hit_remote_items_never_reach_the_pool() {
    let peers = vec![Ok(vec![
        RemoteCacheItem {
            cached_response: Some(SearchResponse { hits: vec![] }),
            has_cached_data: true,
            cache_query_response: true,
            cache_start_time: 0,
            cache_end_time: 30,
            is_descending: false,
        },
        item(5, 10),
    ])];
    let out = collect_cached_results(peers, vec![], req(0, 30));
    assert_eq!(ranges(&out), vec![(5, 10)]);
}

#[test]
fn internal_status_with_structured_payload_is_preserved() {
    let e = classify_remote_call_error(true, Ok((20004, "stream not found".to_string())));
    match e {
        SearchError::ErrorCode(ErrorCode::Structured(code, message)) => {
            assert_eq!(code, 20004);
            assert_eq!(message, "stream not found".to_string());
        }
        _ => panic!("expected a structured error code"),
    }
}

#[test]
fn internal_status_with_undecodable_payload_is_a_plain_message() {
    let e = classify_remote_call_error(true, Err("expected value at line 1".to_string()));
    match e {
        SearchError::Message(m) => assert_eq!(m, "expected value at line 1".to_string()),
        _ => panic!("expected a plain message"),
    }
}

#[test]
fn other_statuses_become_a_generic_querier_error() {
    let e = classify_remote_call_error(false, Err("ignored".to_string()));
    match e {
        SearchError::ErrorCode(ErrorCode::ServerInternalError(m)) => {
            assert_eq!(m, "querier node error".to_string());
        }
        _ => panic!("expected a generic querier error"),
    }
}

#[test]
fn unreachable_node_error_names_the_connect_failure() {
    let e = unreachable_node_error();
    match e {
        SearchError::ErrorCode(ErrorCode::ServerInternalError(m)) => {
            assert_eq!(m, "connect search node error".to_string());
        }
        _ => panic!("expected a connect error"),
    }
}
