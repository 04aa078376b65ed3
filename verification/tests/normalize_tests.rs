use cache_gather::model::{RemoteCacheItem, SearchResponse};
use cache_gather::normalize::normalize_cache_items;

fn item(start: i64, end: i64, payload: Option<SearchResponse>) -> RemoteCacheItem {
    RemoteCacheItem {
        cached_response: payload,
        has_cached_data: true,
        cache_query_response: true,
        cache_start_time: start,
        cache_end_time: end,
        is_descending: false,
    }
}

#[test]
fn zero_hit_payloads_are_discarded() {
    let items = vec![
        item(0, 10, Some(SearchResponse { hits: vec![] })),
        item(10, 20, Some(SearchResponse { hits: vec![serde_json::Value::Null] })),
    ];
    let ts = "_timestamp".to_string();
    let out = normalize_cache_items(items, &ts);
    assert_eq!(out.len(), 1);
    assert_eq!(out[0].response_start_time, 10);
    assert_eq!(out[0].response_end_time, 20);
}

#[test]
fn missing_payload_degrades_to_empty_and_is_discarded() {
    let items = vec![item(0, 10, None)];
    let ts = "_timestamp".to_string();
    let out = normalize_cache_items(items, &ts);
    assert!(out.is_empty());
}

#[test]
fn surviving_entries_carry_fields_and_lift_the_row_cap() {
    let items = vec![RemoteCacheItem {
        cached_response: Some(SearchResponse {
            hits: vec![serde_json::Value::Bool(true), serde_json::Value::Null],
        }),
        has_cached_data: true,
        cache_query_response: false,
        cache_start_time: 7,
        cache_end_time: 19,
        is_descending: true,
    }];
    let ts = "ts_col".to_string();
    let out = normalize_cache_items(items, &ts);
    assert_eq!(out.len(), 1);
    assert_eq!(out[0].cached_response.hits.len(), 2);
    assert!(out[0].deltas.is_empty());
    assert!(out[0].has_cached_data);
    assert!(!out[0].cache_query_response);
    assert_eq!(out[0].response_start_time, 7);
    assert_eq!(out[0].response_end_time, 19);
    assert_eq!(out[0].ts_column, "ts_col".to_string());
    assert!(out[0].is_descending);
    assert_eq!(out[0].limit, -1);
}

#[test]
fn normalization_keeps_item_order() {
    let items = vec![
        item(30, 40, Some(SearchResponse { hits: vec![serde_json::Value::Null] })),
        item(0, 10, Some(SearchResponse { hits: vec![serde_json::Value::Null] })),
    ];
    let ts = "_timestamp".to_string();
    let out = normalize_cache_items(items, &ts);
    assert_eq!(out.len(), 2);
    assert_eq!(out[0].response_start_time, 30);
    assert_eq!(out[1].response_start_time, 0);
}
