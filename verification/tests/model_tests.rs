use cache_gather::model::{build_cache_lookup_request, CacheQueryRequest, SearchResponse};

#[test]
fn lookup_request_carries_every_field_over() {
    let cache_req = CacheQueryRequest {
        q_start_time: 100,
        q_end_time: 900,
        is_aggregate: true,
        ts_column: "_timestamp".to_string(),
        discard_interval: 60,
        is_descending: true,
    };
    let r = build_cache_lookup_request(
        "key-1".to_string(),
        "files/default/logs".to_string(),
        "trace-7".to_string(),
        &cache_req,
    );
    assert_eq!(r.start_time, 100);
    assert_eq!(r.end_time, 900);
    assert!(r.is_aggregate);
    assert_eq!(r.query_key, "key-1".to_string());
    assert_eq!(r.file_path, "files/default/logs".to_string());
    assert_eq!(r.timestamp_col, "_timestamp".to_string());
    assert_eq!(r.trace_id, "trace-7".to_string());
    assert_eq!(r.discard_interval, 60);
    assert!(r.is_descending);
}

#[test]
fn default_payload_is_empty() {
    let d = SearchResponse::default();
    assert!(d.hits.is_empty());
}

#[test]
fn cloned_request_keeps_its_fields() {
    let cache_req = CacheQueryRequest {
        q_start_time: 1,
        q_end_time: 2,
        is_aggregate: false,
        ts_column: "ts".to_string(),
        discard_interval: 3,
        is_descending: false,
    };
    let c = cache_req.clone();
    assert_eq!(c.q_start_time, 1);
    assert_eq!(c.q_end_time, 2);
    assert!(!c.is_aggregate);
    assert_eq!(c.ts_column, "ts".to_string());
    assert_eq!(c.discard_interval, 3);
    assert!(!c.is_descending);
}
