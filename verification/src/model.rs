use vstd::prelude::*;

verus! {

/// The cacheable shape of one incoming query. Built once per request and
/// cloned into every fan-out task.
pub struct CacheQueryRequest {
    pub q_start_time: i64,
    pub q_end_time: i64,
    pub is_aggregate: bool,
    pub ts_column: String,
    pub discard_interval: i64,
    pub is_descending: bool,
}

/// Mathematical image of a `CacheQueryRequest`.
pub struct ReqView {
    pub q_start_time: int,
    pub q_end_time: int,
    pub is_aggregate: bool,
    pub ts_column: Seq<char>,
    pub discard_interval: int,
    pub is_descending: bool,
}

impl View for CacheQueryRequest {
    type V = ReqView;

    open spec fn view(&self) -> ReqView {
        ReqView {
            q_start_time: self.q_start_time as int,
            q_end_time: self.q_end_time as int,
            is_aggregate: self.is_aggregate,
            ts_column: self.ts_column@,
            discard_interval: self.discard_interval as int,
            is_descending: self.is_descending,
        }
    }
}

impl Clone for CacheQueryRequest {
    fn clone(&self) -> (res: Self)
        ensures
            res == *self,
    {
        CacheQueryRequest {
            q_start_time: self.q_start_time,
            q_end_time: self.q_end_time,
            is_aggregate: self.is_aggregate,
            ts_column: self.ts_column.clone(),
            discard_interval: self.discard_interval,
            is_descending: self.is_descending,
        }
    }
}

/// A sub-range of a cache entry that is not actually covered by it. Always
/// empty at ingestion in this layer; downstream consumers fill it in.
#[derive(Clone, Copy, PartialEq, Eq, Structural, Debug)]
pub struct QueryDelta {
    pub delta_start_time: i64,
    pub delta_end_time: i64,
}

/// A previously computed result payload, reduced to what this layer reads of
/// it: the rows it returned. A payload with no rows carries no coverage.
pub struct SearchResponse {
    pub hits: Vec<serde_json::Value>,
}

impl View for SearchResponse {
    type V = Seq<serde_json::Value>;

    open spec fn view(&self) -> Seq<serde_json::Value> {
        self.hits@
    }
}

impl Default for SearchResponse {
    /// The empty payload substituted for a missing or undecodable one.
    fn default() -> (res: Self)
        ensures
            res@ === Seq::<serde_json::Value>::empty(),
    {
        SearchResponse { hits: Vec::new() }
    }
}

impl Clone for SearchResponse {
    fn clone(&self) -> (res: Self)
        ensures
            res@ == self@,
    {
        let hits = self.hits.clone();
        proof {
            assert forall|i: int| 0 <= i < self.hits@.len() implies hits@[i] == self.hits@[i] by {
                assert(cloned::<serde_json::Value>(self.hits[i], hits[i]));
            }
            assert(hits@ =~= self.hits@);
        }
        SearchResponse { hits }
    }
}

/// One cache entry: a previously computed partial result together with the
/// time range `[response_start_time, response_end_time]` it claims to cover.
pub struct CachedQueryResponse {
    pub cached_response: SearchResponse,
    pub deltas: Vec<QueryDelta>,
    pub has_cached_data: bool,
    pub cache_query_response: bool,
    pub response_start_time: i64,
    pub response_end_time: i64,
    pub ts_column: String,
    pub is_descending: bool,
    pub limit: i64,
}

/// Mathematical image of a `CachedQueryResponse`. The claimed time range is
/// `[start, end]`.
pub struct EntryView {
    pub hits: Seq<serde_json::Value>,
    pub deltas: Seq<QueryDelta>,
    pub has_cached_data: bool,
    pub cache_query_response: bool,
    pub start: int,
    pub end: int,
    pub ts_column: Seq<char>,
    pub is_descending: bool,
    pub limit: int,
}

impl View for CachedQueryResponse {
    type V = EntryView;

    open spec fn view(&self) -> EntryView {
        EntryView {
            hits: self.cached_response@,
            deltas: self.deltas@,
            has_cached_data: self.has_cached_data,
            cache_query_response: self.cache_query_response,
            start: self.response_start_time as int,
            end: self.response_end_time as int,
            ts_column: self.ts_column@,
            is_descending: self.is_descending,
            limit: self.limit as int,
        }
    }
}

impl Clone for CachedQueryResponse {
    fn clone(&self) -> (res: Self)
        ensures
            res@ == self@,
    {
        let deltas = self.deltas.clone();
        proof {
            assert forall|i: int| 0 <= i < self.deltas@.len() implies deltas@[i]
                == self.deltas@[i] by {
                assert(cloned::<QueryDelta>(self.deltas[i], deltas[i]));
            }
            assert(deltas@ =~= self.deltas@);
        }
        CachedQueryResponse {
            cached_response: self.cached_response.clone(),
            deltas,
            has_cached_data: self.has_cached_data,
            cache_query_response: self.cache_query_response,
            response_start_time: self.response_start_time,
            response_end_time: self.response_end_time,
            ts_column: self.ts_column.clone(),
            is_descending: self.is_descending,
            limit: self.limit,
        }
    }
}

/// One raw item of a peer's reply, as the unverified transport hands it over:
/// the payload already decoded where that succeeded (`None` stands for a
/// missing or undecodable payload), beside the plain fields of the wire item.
pub struct RemoteCacheItem {
    pub cached_response: Option<SearchResponse>,
    pub has_cached_data: bool,
    pub cache_query_response: bool,
    pub cache_start_time: i64,
    pub cache_end_time: i64,
    pub is_descending: bool,
}

/// Mathematical image of a `RemoteCacheItem`.
pub struct ItemView {
    pub cached_response: Option<Seq<serde_json::Value>>,
    pub has_cached_data: bool,
    pub cache_query_response: bool,
    pub cache_start_time: int,
    pub cache_end_time: int,
    pub is_descending: bool,
}

impl View for RemoteCacheItem {
    type V = ItemView;

    open spec fn view(&self) -> ItemView {
        ItemView {
            cached_response: match self.cached_response {
                Some(r) => Some(r@),
                None => None,
            },
            has_cached_data: self.has_cached_data,
            cache_query_response: self.cache_query_response,
            cache_start_time: self.cache_start_time as int,
            cache_end_time: self.cache_end_time as int,
            is_descending: self.is_descending,
        }
    }
}

/// The wire shape of one remote cache-lookup call.
pub struct CacheLookupRequest {
    pub start_time: i64,
    pub end_time: i64,
    pub is_aggregate: bool,
    pub query_key: String,
    pub file_path: String,
    pub timestamp_col: String,
    pub trace_id: String,
    pub discard_interval: i64,
    pub is_descending: bool,
}

/// The remote request each fan-out task sends: the query's cacheable shape
/// beside its routing keys, the path of the cached file set, and the trace
/// id, carried over field for field.
pub fn build_cache_lookup_request(
    query_key: String,
    file_path: String,
    trace_id: String,
    cache_req: &CacheQueryRequest,
) -> (r: CacheLookupRequest)
    ensures
        r.start_time == cache_req.q_start_time,
        r.end_time == cache_req.q_end_time,
        r.is_aggregate == cache_req.is_aggregate,
        r.query_key == query_key,
        r.file_path == file_path,
        r.timestamp_col == cache_req.ts_column,
        r.trace_id == trace_id,
        r.discard_interval == cache_req.discard_interval,
        r.is_descending == cache_req.is_descending,
{
    CacheLookupRequest {
        start_time: cache_req.q_start_time,
        end_time: cache_req.q_end_time,
        is_aggregate: cache_req.is_aggregate,
        query_key,
        file_path,
        timestamp_col: cache_req.ts_column.clone(),
        trace_id,
        discard_interval: cache_req.discard_interval,
        is_descending: cache_req.is_descending,
    }
}

/// One cluster node as the node directory reports it, reduced to the fields
/// this layer reads: its ordinal, its stable identity, its network address,
/// and whether it can serve queries.
pub struct ClusterNode {
    pub id: u64,
    pub uuid: String,
    pub grpc_addr: String,
    pub is_querier: bool,
}

/// Mathematical image of a `ClusterNode`.
pub struct NodeView {
    pub id: int,
    pub uuid: Seq<char>,
    pub grpc_addr: Seq<char>,
    pub is_querier: bool,
}

impl View for ClusterNode {
    type V = NodeView;

    open spec fn view(&self) -> NodeView {
        NodeView {
            id: self.id as int,
            uuid: self.uuid@,
            grpc_addr: self.grpc_addr@,
            is_querier: self.is_querier,
        }
    }
}

impl Clone for ClusterNode {
    fn clone(&self) -> (res: Self)
        ensures
            res == *self,
    {
        ClusterNode {
            id: self.id,
            uuid: self.uuid.clone(),
            grpc_addr: self.grpc_addr.clone(),
            is_querier: self.is_querier,
        }
    }
}

} // verus!
