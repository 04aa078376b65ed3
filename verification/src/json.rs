use vstd::prelude::*;

verus! {

/// serde_json's JSON tree type, declared so that rows of a cached result
/// payload can be held in the crate's types and carried through verified
/// code. Its contents stay opaque to verification.
#[verifier::external_type_specification]
#[verifier::external_body]
pub struct ExValue(serde_json::Value);

/// Relies on serde_json::Value's derived Clone: a deep copy, equal to the
/// original value.
pub assume_specification[ <serde_json::Value as Clone>::clone ](
    v: &serde_json::Value,
) -> (res: serde_json::Value)
    ensures
        res == *v,
;

} // verus!
