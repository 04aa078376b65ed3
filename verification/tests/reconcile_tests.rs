use cache_gather::model::{CacheQueryRequest, CachedQueryResponse, SearchResponse};
use cache_gather::reconcile::recursive_process_muliple_metas;

fn entry(start: i64, end: i64) -> CachedQueryResponse {
    CachedQueryResponse {
        cached_response: SearchResponse { hits: vec![serde_json::Value::Null] },
        deltas: vec![],
        has_cached_data: true,
        cache_query_response: true,
        response_start_time: start,
        response_end_time: end,
        ts_column: "_timestamp".to_string(),
        is_descending: false,
        limit: -1,
    }
}

fn req(start: i64, end: i64) -> CacheQueryRequest {
    CacheQueryRequest {
        q_start_time: start,
        q_end_time: end,
        is_aggregate: false,
        ts_column: "_timestamp".to_string(),
        discard_interval: 0,
        is_descending: false,
    }
}

fn ranges(results: &[CachedQueryResponse]) -> Vec<(i64, i64)> {
    results.iter().map(|e| (e.response_start_time, e.response_end_time)).collect()
}

#[test]
fn greedy_selection_picks_largest_overlap_first() {
    let metas = vec![entry(0, 10), entry(5, 20), entry(20, 30)];
    let mut results = Vec::new();
    recursive_process_muliple_metas(&metas, req(0, 30), &mut results);
    assert_eq!(ranges(&results), vec![(5, 20), (20, 30)]);
}

#[test]
fn tie_break_prefers_earlier_start_time() {
    let metas = vec![entry(15, 25), entry(0, 10)];
    let mut results = Vec::new();
    recursive_process_muliple_metas(&metas, req(0, 25), &mut results);
    assert_eq!(results.len(), 2);
    assert_eq!(results[0].response_start_time, 0);
    assert_eq!(results[0].response_end_time, 10);
}

#[test]
fn empty_input_gives_empty_output() {
    let metas: Vec<CachedQueryResponse> = vec![];
    let mut results = Vec::new();
    recursive_process_muliple_metas(&metas, req(0, 100), &mut results);
    assert!(results.is_empty());
}

#[test]
fn disjoint_input_is_kept_whole() {
    let metas = vec![entry(0, 5), entry(6, 10), entry(11, 15)];
    let mut results = Vec::new();
    recursive_process_muliple_metas(&metas, req(0, 20), &mut results);
    let mut got = ranges(&results);
    got.sort();
    assert_eq!(got, vec![(0, 5), (6, 10), (11, 15)]);
}

#[test]
fn entries_outside_window_are_discarded() {
    let metas = vec![entry(40, 50), entry(25, 35)];
    let mut results = Vec::new();
    recursive_process_muliple_metas(&metas, req(0, 30), &mut results);
    assert_eq!(ranges(&results), vec![(25, 35)]);
}

#[test]
fn output_is_pairwise_disjoint() {
    let metas = vec![entry(0, 12), entry(4, 9), entry(8, 22), entry(14, 30), entry(21, 28)];
    let mut results = Vec::new();
    recursive_process_muliple_metas(&metas, req(0, 30), &mut results);
    for a in 0..results.len() {
        for b in 0..results.len() {
            if a != b {
                assert!(
                    results[a].response_end_time <= results[b].response_start_time
                        || results[b].response_end_time <= results[a].response_start_time
                );
            }
        }
    }
}

#[test]
fn zero_width_entry_is_selected_once() {
    let metas = vec![entry(5, 5)];
    let mut results = Vec::new();
    recursive_process_muliple_metas(&metas, req(0, 10), &mut results);
    assert_eq!(ranges(&results), vec![(5, 5)]);
}

#[test]
fn selected_entries_keep_their_payload_rows() {
    let mut e = entry(0, 10);
    e.cached_response =
        SearchResponse { hits: vec![serde_json::Value::String("row-a".to_string())] };
    let metas = vec![e];
    let mut results = Vec::new();
    recursive_process_muliple_metas(&metas, req(0, 10), &mut results);
    assert_eq!(results.len(), 1);
    assert_eq!(results[0].cached_response.hits.len(), 1);
    assert_eq!(results[0].cached_response.hits[0], serde_json::Value::String("row-a".to_string()));
}

#[test]
fn appends_after_existing_results() {
    let metas = vec![entry(0, 10)];
    let mut results = vec![entry(90, 95)];
    recursive_process_muliple_metas(&metas, req(0, 10), &mut results);
    assert_eq!(ranges(&results), vec![(90, 95), (0, 10)]);
}
