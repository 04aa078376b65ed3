//! The error taxonomy of the remote cache-lookup path.
//!
//! A failing call never fails the aggregation: the coordinator logs it and
//! drops the task's contribution. The classification is still kept as tagged
//! variants, so that callers of the client elsewhere can distinguish a
//! structured application error, which they may re-raise, from a generic
//! failure of a querier node.

use vstd::prelude::*;

verus! {

/// A tagged error code, mirroring the wire-level taxonomy.
pub enum ErrorCode {
    /// An internal failure of this layer or of the transport.
    ServerInternalError(String),
    /// A structured application error a peer re-raised: its numeric code and
    /// its message.
    Structured(i64, String),
}

/// What a failed step of the remote path reports.
pub enum SearchError {
    /// A plain message, for failures before any call was made, such as an
    /// authentication token that is no valid request metadata.
    Message(String),
    /// A tagged error code, preserved across the boundary.
    ErrorCode(ErrorCode),
}

/// Outcome classification of one failed remote cache-lookup call, as the
/// client makes it: a status tagged as internal carries a structured
/// application error when its message decodes as one, and the decode failure
/// itself when not; any other failing status is a generic querier failure.
pub fn classify_remote_call_error(is_internal: bool, decoded: Result<(i64, String), String>) -> (e:
    SearchError)
    ensures
        is_internal ==> match decoded {
            Ok((code, message)) => e == SearchError::ErrorCode(
                ErrorCode::Structured(code, message),
            ),
            Err(msg) => e == SearchError::Message(msg),
        },
        !is_internal ==> (e matches SearchError::ErrorCode(ErrorCode::ServerInternalError(m))
            && m@ == "querier node error"@),
{
    if is_internal {
        match decoded {
            Ok((code, message)) => SearchError::ErrorCode(ErrorCode::Structured(code, message)),
            Err(msg) => SearchError::Message(msg),
        }
    } else {
        let m = "querier node error".to_string();
        SearchError::ErrorCode(ErrorCode::ServerInternalError(m))
    }
}

/// The error standing for a peer that could not be reached within the
/// connect timeout.
pub fn unreachable_node_error() -> (e: SearchError)
    ensures
        e matches SearchError::ErrorCode(ErrorCode::ServerInternalError(m)) && m@
            == "connect search node error"@,
{
    let m = "connect search node error".to_string();
    SearchError::ErrorCode(ErrorCode::ServerInternalError(m))
}

} // verus!
